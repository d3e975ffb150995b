use c2rust_analyze::info::{
    augment_with_info, calc_lineage, create_flow_info, graph_is_wf, check_flows_to_node_kind, check_whether_rules_obeyed, collect_children,
    greatest_desc, Graph, Graphs, Node, NodeCheck, NodeKind,
};

fn node(kind: NodeKind, source: Option<usize>) -> Node {
    Node { kind, source, node_info: None }
}

/// 0: a local's address; 1: a copy of it; 2 and 3: its field 0; 4: a store through 2.
fn sample() -> Graph {
    Graph {
        nodes: vec![
            node(NodeKind::AddrOfLocal(0), None),
            node(NodeKind::Copy, Some(0)),
            node(NodeKind::Field(0), Some(1)),
            node(NodeKind::Field(0), Some(1)),
            node(NodeKind::StoreValue, Some(2)),
        ],
    }
}

#[test]
fn flows_to_kinds() {
    let g = sample();
    assert!(graph_is_wf(&g));
    assert!(!graph_is_wf(&Graph { nodes: vec![node(NodeKind::Copy, Some(0))] }));
    assert_eq!(check_flows_to_node_kind(&g, &0, NodeCheck::Mutation), Some(4));
    assert_eq!(check_flows_to_node_kind(&g, &3, NodeCheck::Mutation), None);
    assert_eq!(check_flows_to_node_kind(&g, &0, NodeCheck::Load), None);
    let mut h = sample();
    h.nodes.push(node(NodeKind::Offset(-1), Some(3)));
    assert_eq!(check_flows_to_node_kind(&h, &1, NodeCheck::NegOffset), Some(5));
    assert_eq!(check_flows_to_node_kind(&h, &1, NodeCheck::PosOffset), None);
}

#[test]
fn greatest_descendant() {
    let g = sample();
    assert_eq!(greatest_desc(&g, &2), 4);
    assert_eq!(greatest_desc(&g, &3), 3);
    assert_eq!(greatest_desc(&g, &0), 4);
}

#[test]
fn lineage_through_copies_and_fields() {
    let g = sample();
    assert_eq!(calc_lineage(&g, &2), (0, vec![0]));
    assert_eq!(calc_lineage(&g, &4), (4, vec![]));
    assert_eq!(calc_lineage(&g, &1), (0, vec![]));
}

#[test]
fn sibling_field_breaks_uniqueness() {
    let g = sample();
    // Node 3 projects the same field as 2 and lies before 2's last descendant.
    assert_eq!(check_whether_rules_obeyed(&g, &2), Some(3));
    // Node 3's last descendant is itself, and node 2 comes before it.
    assert_eq!(check_whether_rules_obeyed(&g, &3), None);
    let h = Graph {
        nodes: vec![
            node(NodeKind::AddrOfLocal(0), None),
            node(NodeKind::Field(0), Some(0)),
            node(NodeKind::Field(1), Some(0)),
            node(NodeKind::LoadValue, Some(1)),
        ],
    };
    assert_eq!(check_whether_rules_obeyed(&h, &1), None);
}

#[test]
fn children_by_node() {
    let g = sample();
    let c = collect_children(&g);
    assert_eq!(c, vec![vec![1], vec![2, 3], vec![4], vec![], vec![]]);
}

#[test]
fn augment_fills_every_node() {
    let mut pdg = Graphs { graphs: vec![sample()] };
    augment_with_info(&mut pdg);
    let n2 = pdg.graphs[0].nodes[2].node_info.unwrap();
    assert_eq!(n2.flows_to_mutation, Some(4));
    assert_eq!(n2.flows_to_load, None);
    assert_eq!(n2.flows_to_pos_offset, None);
    assert_eq!(n2.flows_to_neg_offset, None);
    assert_eq!(n2.non_unique, Some(3));
    assert!(pdg.graphs[0].nodes.iter().all(|n| n.node_info.is_some()));
}

#[test]
fn flow_info_gathers_descendants() {
    let g = sample();
    let f = create_flow_info(&g);
    assert_eq!(f.len(), 5);
    assert_eq!(f[0].last_descendent, Some(4));
    assert_eq!(f[0].flows_to_store, Some(4));
    assert_eq!(f[0].flows_to_load, None);
    assert_eq!(f[3].last_descendent, Some(3));
    assert_eq!(f[3].flows_to_store, None);
    assert_eq!(f[4].flows_to_store, Some(4));
}

#[test]
fn a_passing_node_finds_itself() {
    let g = sample();
    assert_eq!(check_flows_to_node_kind(&g, &4, NodeCheck::Mutation), Some(4));
    assert_eq!(check_flows_to_node_kind(&g, &2, NodeCheck::Mutation), Some(4));
}

#[test]
fn sources_in_any_order_are_searched() {
    // Node 0 comes from node 1 and node 1 from node 0.
    let g = Graph { nodes: vec![node(NodeKind::Copy, Some(1)), node(NodeKind::StoreValue, Some(0))] };
    assert!(!graph_is_wf(&g));
    assert_eq!(check_flows_to_node_kind(&g, &0, NodeCheck::Mutation), Some(1));
    assert_eq!(check_flows_to_node_kind(&g, &0, NodeCheck::Load), None);
}
