//! Flow information of the nodes of a pointer dependence graph: whether a node flows to a
//! store, a load, or a positive or negative offset, and whether it is unique.
//!
//! A node X is not unique when some node Y, an ancestor of X through copies, fields and
//! offsets, also reaches a node Z through the same fields, where Z lies chronologically
//! between X and the last descendant of X.
use std::collections::HashSet;
use vstd::prelude::*;

verus! {

broadcast use {
    vstd::std_specs::vec::group_vec_axioms,
    vstd::seq::group_seq_axioms,
    vstd::std_specs::hash::group_hash_axioms,
    vstd::set::group_set_axioms,
};

/// The index of a node in its graph.
pub type NodeId = usize;

/// The index of a field within its struct.
pub type Field = u32;

/// What a node of the graph does with the pointer it carries.
#[derive(Clone, Copy, PartialEq, Eq, Debug, Structural)]
pub enum NodeKind {
    Copy,
    Field(Field),
    Offset(isize),
    AddrOfLocal(usize),
    AddrOfStatic,
    Alloc(usize),
    Free,
    Ptr2Int,
    Int2Ptr,
    LoadAddr,
    StoreAddr,
    LoadValue,
    StoreValue,
}

/// The flow information of one node: for each kind of use, a node that it flows to and
/// that does it, and a node that shows it is not unique.
#[derive(Clone, Copy, PartialEq, Eq, Debug, Structural)]
pub struct NodeInfo {
    pub flows_to_mutation: Option<NodeId>,
    pub flows_to_load: Option<NodeId>,
    pub flows_to_pos_offset: Option<NodeId>,
    pub flows_to_neg_offset: Option<NodeId>,
    pub non_unique: Option<NodeId>,
}

/// A node: what it does, the node its pointer comes from, and its flow information once
/// computed.
#[derive(Clone, Copy, PartialEq, Eq, Debug, Structural)]
pub struct Node {
    pub kind: NodeKind,
    pub source: Option<NodeId>,
    pub node_info: Option<NodeInfo>,
}

/// A graph of nodes, in chronological order.
#[derive(Debug)]
pub struct Graph {
    pub nodes: Vec<Node>,
}

/// The graphs of a program.
#[derive(Debug)]
pub struct Graphs {
    pub graphs: Vec<Graph>,
}

/// Each node's source comes before it.
pub open spec fn graph_wf(nodes: Seq<Node>) -> bool {
    forall|i: int|
        0 <= i < nodes.len() ==> (#[trigger] nodes[i]).source is Some ==> nodes[i].source->Some_0 < i
}

/// A test on the kind of a node.
#[derive(Clone, Copy, PartialEq, Eq, Debug, Structural)]
pub enum NodeCheck {
    Mutation,
    Load,
    PosOffset,
    NegOffset,
}

pub open spec fn does_mutation(k: NodeKind) -> bool {
    k is StoreAddr || k is StoreValue
}

pub open spec fn does_load(k: NodeKind) -> bool {
    k is LoadAddr || k is LoadValue
}

pub open spec fn does_pos_offset(k: NodeKind) -> bool {
    match k {
        NodeKind::Offset(x) => x > 0,
        _ => false,
    }
}

pub open spec fn does_neg_offset(k: NodeKind) -> bool {
    match k {
        NodeKind::Offset(x) => x < 0,
        _ => false,
    }
}

pub open spec fn check_holds(c: NodeCheck, k: NodeKind) -> bool {
    match c {
        NodeCheck::Mutation => does_mutation(k),
        NodeCheck::Load => does_load(k),
        NodeCheck::PosOffset => does_pos_offset(k),
        NodeCheck::NegOffset => does_neg_offset(k),
    }
}

/// `m` is `n` or a descendant of `n`: following sources from `m` leads to `n`.
pub open spec fn is_desc(nodes: Seq<Node>, n: int, m: int) -> bool
    decreases m,
{
    if m == n {
        true
    } else if m < n || m >= nodes.len() {
        false
    } else {
        match nodes[m].source {
            Some(p) => p < m && is_desc(nodes, n, p as int),
            None => false,
        }
    }
}

pub fn node_does_mutation(n: &Node) -> (r: bool)
    ensures
        r == does_mutation(n.kind),
{
    matches!(n.kind, NodeKind::StoreAddr | NodeKind::StoreValue)
}

pub fn node_does_load(n: &Node) -> (r: bool)
    ensures
        r == does_load(n.kind),
{
    matches!(n.kind, NodeKind::LoadAddr | NodeKind::LoadValue)
}

pub fn node_does_pos_offset(n: &Node) -> (r: bool)
    ensures
        r == does_pos_offset(n.kind),
{
    match n.kind {
        NodeKind::Offset(x) => x > 0,
        _ => false,
    }
}

pub fn node_does_neg_offset(n: &Node) -> (r: bool)
    ensures
        r == does_neg_offset(n.kind),
{
    match n.kind {
        NodeKind::Offset(x) => x < 0,
        _ => false,
    }
}

pub fn run_node_check(c: NodeCheck, n: &Node) -> (r: bool)
    ensures
        r == check_holds(c, n.kind),
{
    match c {
        NodeCheck::Mutation => node_does_mutation(n),
        NodeCheck::Load => node_does_load(n),
        NodeCheck::PosOffset => node_does_pos_offset(n),
        NodeCheck::NegOffset => node_does_neg_offset(n),
    }
}

/// The nodes below `k` whose source is in `parents`, in order.
pub open spec fn children_of(nodes: Seq<Node>, parents: Set<usize>, k: int) -> Seq<NodeId>
    decreases k,
{
    if k <= 0 {
        Seq::empty()
    } else {
        let init = children_of(nodes, parents, k - 1);
        match nodes[k - 1].source {
            Some(p) => if parents.contains(p) {
                init.push((k - 1) as usize)
            } else {
                init
            },
            None => init,
        }
    }
}

proof fn lemma_children_of(nodes: Seq<Node>, parents: Set<usize>, k: int, c: int)
    requires
        0 <= k <= nodes.len(),
        nodes.len() <= usize::MAX,
    ensures
        0 <= c < k && nodes[c].source is Some && parents.contains(nodes[c].source->Some_0)
            ==> children_of(nodes, parents, k).contains(c as usize),
        forall|j: int| 0 <= j < children_of(nodes, parents, k).len() ==> {
            let x = #[trigger] children_of(nodes, parents, k)[j];
            &&& x < k
            &&& nodes[x as int].source is Some
            &&& parents.contains(nodes[x as int].source->Some_0)
        },
    decreases k,
{
    if k > 0 {
        lemma_children_of(nodes, parents, k - 1, c);
        let init = children_of(nodes, parents, k - 1);
        let all = children_of(nodes, parents, k);
        let grows = nodes[k - 1].source is Some && parents.contains(nodes[k - 1].source->Some_0);
        if grows {
            assert(all == init.push((k - 1) as usize));
        } else {
            assert(all == init);
        }
        assert forall|j: int| 0 <= j < all.len() implies {
            let x = #[trigger] all[j];
            &&& x < k
            &&& nodes[x as int].source is Some
            &&& parents.contains(nodes[x as int].source->Some_0)
        } by {
            if j < init.len() {
                assert(all[j] == init[j]);
            }
        }
        if 0 <= c < k - 1 && nodes[c].source is Some && parents.contains(nodes[c].source->Some_0) {
            let j = choose|j: int| 0 <= j < init.len() && init[j] == c as usize;
            assert(all[j] == init[j]);
        }
        if c == k - 1 && nodes[c].source is Some && parents.contains(nodes[c].source->Some_0) {
            let all = children_of(nodes, parents, k);
            assert(all[all.len() - 1] == c as usize);
        }
    }
}

/// Appends to `v` the nodes of `g` whose source is in `parents`, in order.
pub fn add_children_to_vec(g: &Graph, parents: &HashSet<NodeId>, v: &mut Vec<NodeId>)
    ensures
        final(v)@ == old(v)@ + children_of(g.nodes@, parents@, g.nodes@.len() as int),
{
    let ghost start = v@;
    let mut i: usize = 0;
    while i < g.nodes.len()
        invariant
            i <= g.nodes@.len(),
            v@ == start + children_of(g.nodes@, parents@, i as int),
        decreases g.nodes@.len() - i,
    {
        if let Some(src) = g.nodes[i].source {
            if parents.contains(&src) {
                v.push(i);
            }
        }
        i = i + 1;
        assert(v@ =~= start + children_of(g.nodes@, parents@, i as int));
    }
}

/// The number of indices below `k` that are not in `s`.
pub open spec fn unseen(s: Set<usize>, k: nat) -> nat
    decreases k,
{
    if k == 0 {
        0
    } else {
        unseen(s, (k - 1) as nat) + if s.contains((k - 1) as usize) {
            0nat
        } else {
            1nat
        }
    }
}

pub proof fn lemma_unseen_insert(s: Set<usize>, k: nat, y: usize)
    requires
        y < k,
        k <= usize::MAX + 1,
        !s.contains(y),
    ensures
        unseen(s.insert(y), k) + 1 == unseen(s, k),
    decreases k,
{
    if y < k - 1 {
        lemma_unseen_insert(s, (k - 1) as nat, y);
        assert(((k - 1) as usize) != y);
    } else {
        lemma_unseen_same(s, y, (k - 1) as nat);
    }
}

pub proof fn lemma_unseen_same(s: Set<usize>, y: usize, k: nat)
    requires
        k <= y,
    ensures
        unseen(s.insert(y), k) == unseen(s, k),
    decreases k,
{
    if k > 0 {
        lemma_unseen_same(s, y, (k - 1) as nat);
    }
}

/// Every descendant of `n` is in `seen`, when `seen` holds `n` and every child of each of its
/// nodes.
proof fn lemma_closed_has_descs(nodes: Seq<Node>, seen: Set<usize>, n: int, m: int)
    requires
        0 <= n < nodes.len(),
        seen.contains(n as usize),
        forall|c: int|
            0 <= c < nodes.len() && (#[trigger] nodes[c]).source is Some && seen.contains(
                nodes[c].source->Some_0,
            ) ==> seen.contains(c as usize),
        is_desc(nodes, n, m),
    ensures
        seen.contains(m as usize),
    decreases m,
{
    if m != n {
        let p = nodes[m].source->Some_0;
        lemma_closed_has_descs(nodes, seen, n, p as int);
    }
}

/// A descendant of a descendant is a descendant.
proof fn lemma_desc_child(nodes: Seq<Node>, n: int, p: usize, c: int)
    requires
        graph_wf(nodes),
        0 <= c < nodes.len(),
        nodes[c].source == Some(p),
        is_desc(nodes, n, p as int),
    ensures
        is_desc(nodes, n, c),
{
    assert(nodes[c].source->Some_0 < c);
    if c != n {
        assert(p < c);
    }
}

/// The node `k` steps up the chain of sources from `m`.
pub open spec fn ancestor(nodes: Seq<Node>, m: int, k: nat) -> Option<int>
    decreases k,
{
    if k == 0 {
        Some(m)
    } else if 0 <= m < nodes.len() {
        match nodes[m].source {
            Some(p) => ancestor(nodes, p as int, (k - 1) as nat),
            None => None,
        }
    } else {
        None
    }
}

/// `m` is `n` or lies below it: following sources up from `m` leads to `n`, whatever the
/// order of the nodes.
pub open spec fn reaches(nodes: Seq<Node>, n: int, m: int) -> bool {
    exists|k: nat| #[trigger] ancestor(nodes, m, k) == Some(n)
}

/// Every node's source is a node of the graph.
pub open spec fn sources_valid(nodes: Seq<Node>) -> bool {
    forall|i: int|
        0 <= i < nodes.len() ==> (#[trigger] nodes[i]).source is Some ==> nodes[i].source->Some_0 < nodes.len()
}

proof fn lemma_reaches_child(nodes: Seq<Node>, n: int, p: usize, c: int)
    requires
        0 <= c < nodes.len(),
        nodes[c].source == Some(p),
        reaches(nodes, n, p as int),
    ensures
        reaches(nodes, n, c),
{
    let k = choose|k: nat| #[trigger] ancestor(nodes, p as int, k) == Some(n);
    assert(ancestor(nodes, c, k + 1) == Some(n));
}

proof fn lemma_closed_has_reached(nodes: Seq<Node>, seen: Set<usize>, n: int, m: int, k: nat)
    requires
        0 <= n < nodes.len(),
        seen.contains(n as usize),
        forall|c: int|
            0 <= c < nodes.len() && (#[trigger] nodes[c]).source is Some && seen.contains(
                nodes[c].source->Some_0,
            ) ==> seen.contains(c as usize),
        ancestor(nodes, m, k) == Some(n),
    ensures
        0 <= m < nodes.len(),
        seen.contains(m as usize),
    decreases k,
{
    if k > 0 {
        let p = nodes[m].source->Some_0;
        lemma_closed_has_reached(nodes, seen, n, p as int, (k - 1) as nat);
    }
}

/// In a graph whose sources come first, lying below a node is being its descendant.
pub proof fn lemma_reaches_is_desc(nodes: Seq<Node>, n: int, m: int)
    requires
        graph_wf(nodes),
        0 <= n < nodes.len(),
    ensures
        reaches(nodes, n, m) == is_desc(nodes, n, m),
{
    if reaches(nodes, n, m) {
        let k = choose|k: nat| #[trigger] ancestor(nodes, m, k) == Some(n);
        lemma_ancestor_desc(nodes, n, m, k);
    }
    if is_desc(nodes, n, m) {
        lemma_desc_ancestor(nodes, n, m);
    }
}

proof fn lemma_ancestor_desc(nodes: Seq<Node>, n: int, m: int, k: nat)
    requires
        graph_wf(nodes),
        0 <= n < nodes.len(),
        ancestor(nodes, m, k) == Some(n),
    ensures
        is_desc(nodes, n, m),
    decreases k,
{
    if k > 0 {
        let p = nodes[m].source->Some_0;
        assert(p < m);
        lemma_ancestor_desc(nodes, n, p as int, (k - 1) as nat);
        lemma_desc_range(nodes, n, p as int);
    }
}

proof fn lemma_desc_ancestor(nodes: Seq<Node>, n: int, m: int)
    requires
        is_desc(nodes, n, m),
    ensures
        reaches(nodes, n, m),
    decreases m,
{
    if m == n {
        assert(ancestor(nodes, m, 0) == Some(n));
    } else {
        let p = nodes[m].source->Some_0;
        lemma_desc_ancestor(nodes, n, p as int);
        let k = choose|k: nat| #[trigger] ancestor(nodes, p as int, k) == Some(n);
        assert(ancestor(nodes, m, k + 1) == Some(n));
    }
}

/// The node that the search for one passing `c` returns, going on from the visited nodes
/// `seen` and the waiting stack `view`: it takes the last waiting node; one already visited is
/// dropped; otherwise it is visited and returned if it passes `c`, and else every node whose
/// source has been visited is put on the stack, in index order.
pub open spec fn search_result(nodes: Seq<Node>, c: NodeCheck, seen: Set<usize>, view: Seq<usize>) -> Option<usize>
    decreases unseen(seen, nodes.len()), view.len(),
{
    if view.len() == 0 {
        None
    } else {
        let x = view.last();
        let rest = view.drop_last();
        if seen.contains(x) {
            search_result(nodes, c, seen, rest)
        } else if x >= nodes.len() || nodes.len() > usize::MAX {
            None
        } else if check_holds(c, nodes[x as int].kind) {
            Some(x)
        } else {
            let seen2 = seen.insert(x);
            proof {
                lemma_unseen_insert(seen, nodes.len(), x);
            }
            search_result(nodes, c, seen2, rest + children_of(nodes, seen2, nodes.len() as int))
        }
    }
}

/// The first node found, among `n` and the nodes below it, that passes `node_check` (`n`
/// itself when it passes); `None` when none does. Sources may come in any order: the search
/// never looks at a node twice.
pub fn check_flows_to_node_kind(g: &Graph, n: &NodeId, node_check: NodeCheck) -> (r: Option<NodeId>)
    requires
        sources_valid(g.nodes@),
        *n < g.nodes@.len(),
    ensures
        match r {
            Some(m) => m < g.nodes@.len() && reaches(g.nodes@, *n as int, m as int) && check_holds(
                node_check,
                g.nodes@[m as int].kind,
            ),
            None => forall|m: int|
                0 <= m < g.nodes@.len() && #[trigger] reaches(g.nodes@, *n as int, m) ==> !check_holds(
                    node_check,
                    g.nodes@[m].kind,
                ),
        },
        check_holds(node_check, g.nodes@[*n as int].kind) ==> r == Some(*n),
        r == search_result(g.nodes@, node_check, Set::empty(), seq![*n]),
{
    let ghost nodes = g.nodes@;
    let len = g.nodes.len();
    let mut seen: HashSet<NodeId> = HashSet::new();
    let mut to_view: Vec<NodeId> = vec![*n];
    assert(ancestor(nodes, *n as int, 0) == Some(*n as int));
    assert(to_view@ =~= seq![*n]);
    while to_view.len() > 0
        invariant
            nodes == g.nodes@,
            len == nodes.len(),
            sources_valid(nodes),
            *n < len,
            check_holds(node_check, nodes[*n as int].kind) ==> seen@.is_empty() && to_view@ == seq![*n],
            search_result(nodes, node_check, Set::empty(), seq![*n]) == search_result(nodes, node_check, seen@, to_view@),
            forall|x: usize| #[trigger] seen@.contains(x) ==> x < len && reaches(nodes, *n as int, x as int)
                && !check_holds(node_check, nodes[x as int].kind),
            forall|j: int| 0 <= j < to_view@.len() ==> #[trigger] to_view@[j] < len && reaches(nodes, *n as int, to_view@[j] as int),
            seen@.contains(*n) || to_view@.contains(*n),
            forall|c: int|
                0 <= c < len && (#[trigger] nodes[c]).source is Some && seen@.contains(nodes[c].source->Some_0)
                    ==> seen@.contains(c as usize) || to_view@.contains(c as usize),
        decreases unseen(seen@, len as nat), to_view@.len(),
    {
        let ghost popped_from = to_view@;
        let node_id_to_check = to_view.pop().unwrap();
        assert(popped_from =~= to_view@.push(node_id_to_check));
        if !seen.contains(&node_id_to_check) {
            proof { lemma_unseen_insert(seen@, len as nat, node_id_to_check); }
            seen.insert(node_id_to_check);
            if run_node_check(node_check, &g.nodes[node_id_to_check]) {
                return Some(node_id_to_check);
            } else {
                let ghost before = to_view@;
                add_children_to_vec(g, &seen, &mut to_view);
                proof {
                    let added = children_of(nodes, seen@, len as int);
                    assert forall|c: int|
                        0 <= c < len && (#[trigger] nodes[c]).source is Some && seen@.contains(nodes[c].source->Some_0)
                        implies seen@.contains(c as usize) || to_view@.contains(c as usize) by {
                        lemma_children_of(nodes, seen@, len as int, c);
                        let j = choose|j: int| 0 <= j < added.len() && added[j] == c as usize;
                        assert(to_view@[before.len() + j] == c as usize);
                    }
                    assert forall|j: int| 0 <= j < to_view@.len() implies #[trigger] to_view@[j] < len
                        && reaches(nodes, *n as int, to_view@[j] as int) by {
                        if j >= before.len() {
                            lemma_children_of(nodes, seen@, len as int, 0);
                            let x = added[j - before.len()];
                            assert(to_view@[j] == x);
                            let p = nodes[x as int].source->Some_0;
                            lemma_reaches_child(nodes, *n as int, p, x as int);
                        } else {
                            assert(to_view@[j] == popped_from[j]);
                        }
                    }
                    if !seen@.contains(*n) {
                        let k = choose|k: int| 0 <= k < popped_from.len() && popped_from[k] == *n;
                        if k < before.len() {
                            assert(to_view@[k] == *n);
                        }
                    }
                }
            }
        } else {
            proof {
                assert forall|c: int|
                    0 <= c < len && (#[trigger] nodes[c]).source is Some && seen@.contains(nodes[c].source->Some_0)
                    implies seen@.contains(c as usize) || to_view@.contains(c as usize) by {
                    if !seen@.contains(c as usize) {
                        let k = choose|k: int| 0 <= k < popped_from.len() && popped_from[k] == c as usize;
                        assert(k < to_view@.len());
                        assert(to_view@[k] == c as usize);
                    }
                }
                assert forall|j: int| 0 <= j < to_view@.len() implies #[trigger] to_view@[j] < len
                    && reaches(nodes, *n as int, to_view@[j] as int) by {
                    assert(to_view@[j] == popped_from[j]);
                }
                if !seen@.contains(*n) {
                    let k = choose|k: int| 0 <= k < popped_from.len() && popped_from[k] == *n;
                    assert(to_view@[k] == *n);
                }
            }
        }
    }
    proof {
        assert forall|m: int| 0 <= m < len && #[trigger] reaches(nodes, *n as int, m) implies !check_holds(
            node_check,
            nodes[m].kind,
        ) by {
            let k = choose|k: nat| #[trigger] ancestor(nodes, m, k) == Some(*n as int);
            lemma_closed_has_reached(nodes, seen@, *n as int, m, k);
        }
    }
    None
}

/// The greatest index among `n` and its descendants.
pub open spec fn greatest_desc_spec(nodes: Seq<Node>, n: int) -> int {
    choose|r: int| is_desc(nodes, n, r) && forall|m: int| #[trigger] is_desc(nodes, n, m) ==> m <= r
}

proof fn lemma_greatest_unique(nodes: Seq<Node>, n: int, r: int)
    requires
        is_desc(nodes, n, r),
        forall|m: int| #[trigger] is_desc(nodes, n, m) ==> m <= r,
    ensures
        greatest_desc_spec(nodes, n) == r,
{
    let g = greatest_desc_spec(nodes, n);
    assert(is_desc(nodes, n, g) && forall|m: int| #[trigger] is_desc(nodes, n, m) ==> m <= g);
    assert(g <= r && r <= g);
}

proof fn lemma_desc_range(nodes: Seq<Node>, n: int, m: int)
    requires
        0 <= n < nodes.len(),
        is_desc(nodes, n, m),
    ensures
        n <= m < nodes.len(),
    decreases m,
{
    if m != n {
        lemma_desc_range(nodes, n, nodes[m].source->Some_0 as int);
    }
}

/// The descendant of `n` (or `n` itself) with the greatest index: the last node that the
/// pointer of `n` flows to.
pub fn greatest_desc(g: &Graph, n: &NodeId) -> (r: NodeId)
    requires
        graph_wf(g.nodes@),
        *n < g.nodes@.len(),
    ensures
        r < g.nodes@.len(),
        is_desc(g.nodes@, *n as int, r as int),
        forall|m: int| #[trigger] is_desc(g.nodes@, *n as int, m) ==> m <= r,
        r as int == greatest_desc_spec(g.nodes@, *n as int),
{
    let ghost nodes = g.nodes@;
    let len = g.nodes.len();
    let mut desc_seen: HashSet<NodeId> = HashSet::new();
    let mut to_view: Vec<NodeId> = vec![*n];
    let mut greatest_node_idx: NodeId = *n;
    while to_view.len() > 0
        invariant
            nodes == g.nodes@,
            len == nodes.len(),
            graph_wf(nodes),
            *n < len,
            greatest_node_idx < len,
            is_desc(nodes, *n as int, greatest_node_idx as int),
            forall|x: usize| #[trigger] desc_seen@.contains(x) ==> x < len && is_desc(nodes, *n as int, x as int)
                && x <= greatest_node_idx,
            forall|j: int| 0 <= j < to_view@.len() ==> #[trigger] to_view@[j] < len && is_desc(nodes, *n as int, to_view@[j] as int),
            desc_seen@.contains(*n) || to_view@.contains(*n),
            forall|c: int|
                0 <= c < len && (#[trigger] nodes[c]).source is Some && desc_seen@.contains(nodes[c].source->Some_0)
                    ==> desc_seen@.contains(c as usize) || to_view@.contains(c as usize),
        decreases unseen(desc_seen@, len as nat), to_view@.len(),
    {
        let ghost popped_from = to_view@;
        let node_id_to_check = to_view.pop().unwrap();
        assert(popped_from =~= to_view@.push(node_id_to_check));
        if !desc_seen.contains(&node_id_to_check) {
            proof { lemma_unseen_insert(desc_seen@, len as nat, node_id_to_check); }
            desc_seen.insert(node_id_to_check);
            if node_id_to_check > greatest_node_idx {
                greatest_node_idx = node_id_to_check;
            }
            let ghost before = to_view@;
            add_children_to_vec(g, &desc_seen, &mut to_view);
            proof {
                let added = children_of(nodes, desc_seen@, len as int);
                assert forall|c: int|
                    0 <= c < len && (#[trigger] nodes[c]).source is Some && desc_seen@.contains(nodes[c].source->Some_0)
                    implies desc_seen@.contains(c as usize) || to_view@.contains(c as usize) by {
                    lemma_children_of(nodes, desc_seen@, len as int, c);
                    let j = choose|j: int| 0 <= j < added.len() && added[j] == c as usize;
                    assert(to_view@[before.len() + j] == c as usize);
                }
                assert forall|j: int| 0 <= j < to_view@.len() implies #[trigger] to_view@[j] < len
                    && is_desc(nodes, *n as int, to_view@[j] as int) by {
                    if j >= before.len() {
                        lemma_children_of(nodes, desc_seen@, len as int, 0);
                        let x = added[j - before.len()];
                        assert(to_view@[j] == x);
                        let p = nodes[x as int].source->Some_0;
                        lemma_desc_child(nodes, *n as int, p, x as int);
                    } else {
                        assert(to_view@[j] == popped_from[j]);
                    }
                }
                if !desc_seen@.contains(*n) {
                    let k = choose|k: int| 0 <= k < popped_from.len() && popped_from[k] == *n;
                    if k < before.len() {
                        assert(to_view@[k] == *n);
                    }
                }
            }
        } else {
            proof {
                assert forall|c: int|
                    0 <= c < len && (#[trigger] nodes[c]).source is Some && desc_seen@.contains(nodes[c].source->Some_0)
                    implies desc_seen@.contains(c as usize) || to_view@.contains(c as usize) by {
                    if !desc_seen@.contains(c as usize) {
                        let k = choose|k: int| 0 <= k < popped_from.len() && popped_from[k] == c as usize;
                        assert(to_view@[k] == c as usize);
                    }
                }
                assert forall|j: int| 0 <= j < to_view@.len() implies #[trigger] to_view@[j] < len
                    && is_desc(nodes, *n as int, to_view@[j] as int) by {
                    assert(to_view@[j] == popped_from[j]);
                }
                if !desc_seen@.contains(*n) {
                    let k = choose|k: int| 0 <= k < popped_from.len() && popped_from[k] == *n;
                    assert(to_view@[k] == *n);
                }
            }
        }
    }
    proof {
        assert forall|m: int| #[trigger] is_desc(nodes, *n as int, m) implies m <= greatest_node_idx by {
            lemma_desc_range(nodes, *n as int, m);
            lemma_closed_has_descs(nodes, desc_seen@, *n as int, m);
        }
        lemma_greatest_unique(nodes, *n as int, greatest_node_idx as int);
    }
    greatest_node_idx
}

/// The highest ancestor of `n` reached through copies, fields and offsets, and the fields
/// passed on the way, the one nearest to `n` first.
pub open spec fn lineage(nodes: Seq<Node>, n: int) -> (int, Seq<Field>)
    decreases n,
{
    if n < 0 || n >= nodes.len() {
        (n, Seq::empty())
    } else {
        match nodes[n].source {
            None => (n, Seq::empty()),
            Some(p) => if p >= n {
                (n, Seq::empty())
            } else {
                match nodes[n].kind {
                    NodeKind::Offset(_) | NodeKind::Copy => lineage(nodes, p as int),
                    NodeKind::Field(f) => {
                        let (a, l) = lineage(nodes, p as int);
                        (a, seq![f] + l)
                    },
                    _ => (n, Seq::empty()),
                }
            },
        }
    }
}

proof fn lemma_lineage_root(nodes: Seq<Node>, n: int)
    requires
        0 <= n < nodes.len(),
    ensures
        0 <= lineage(nodes, n).0 <= n,
        is_desc(nodes, lineage(nodes, n).0, n),
    decreases n,
{
    match nodes[n].source {
        None => {},
        Some(p) => if p < n {
            match nodes[n].kind {
                NodeKind::Offset(_) | NodeKind::Copy | NodeKind::Field(_) => {
                    lemma_lineage_root(nodes, p as int);
                    lemma_desc_trans(nodes, lineage(nodes, p as int).0, p, n);
                },
                _ => {},
            }
        },
    }
}

/// A child of a descendant is a descendant.
proof fn lemma_desc_trans(nodes: Seq<Node>, a: int, p: usize, n: int)
    requires
        0 <= p < n < nodes.len(),
        nodes[n].source == Some(p),
        is_desc(nodes, a, p as int),
        a <= p,
    ensures
        is_desc(nodes, a, n),
{
}

/// Finds the highest ancestor of `n` reached through copies, fields and offsets, and the
/// fields through which it is reached, in order (the last is the field nearest to the
/// ancestor).
pub fn calc_lineage(g: &Graph, n: &NodeId) -> (r: (NodeId, Vec<Field>))
    requires
        graph_wf(g.nodes@),
        *n < g.nodes@.len(),
    ensures
        r.0 as int == lineage(g.nodes@, *n as int).0,
        r.1@ == lineage(g.nodes@, *n as int).1,
{
    let ghost nodes = g.nodes@;
    let mut lineage_fields: Vec<Field> = Vec::new();
    let mut n_idx: NodeId = *n;
    let ghost whole = lineage(nodes, *n as int);
    loop
        invariant
            nodes == g.nodes@,
            graph_wf(nodes),
            n_idx < nodes.len(),
            whole == lineage(nodes, *n as int),
            whole.0 == lineage(nodes, n_idx as int).0,
            whole.1 == lineage_fields@ + lineage(nodes, n_idx as int).1,
        ensures
            whole.0 == n_idx as int,
            whole.1 =~= lineage_fields@,
        decreases n_idx,
    {
        let node = &g.nodes[n_idx];
        let parent = match node.source {
            None => break,
            Some(p) => p,
        };
        assert(nodes[n_idx as int].source->Some_0 < n_idx);
        match node.kind {
            NodeKind::Offset(_) | NodeKind::Copy => {},
            NodeKind::Field(f) => {
                lineage_fields.push(f);
                assert(whole.1 =~= lineage_fields@ + lineage(nodes, parent as int).1);
            },
            _ => break,
        }
        n_idx = parent;
    }
    (n_idx, lineage_fields)
}

/// The fields left to match after visiting `x` with fields `l` left, in the search for a node
/// that shows `n` is not unique; none when the search stops at `x` (it is `n` itself, or a
/// field other than the one expected).
pub open spec fn after_visit(nodes: Seq<Node>, n: int, x: int, l: Seq<Field>) -> Option<Seq<Field>> {
    if x == n {
        None
    } else {
        match nodes[x].kind {
            NodeKind::Field(f) => if l.len() > 0 && l.last() == f {
                Some(l.drop_last())
            } else {
                None
            },
            _ => Some(l),
        }
    }
}

/// The fields left to match when the search from `root`, which starts with fields `l0`,
/// reaches `x`; none when it does not reach `x`.
pub open spec fn arrival(nodes: Seq<Node>, n: int, root: int, l0: Seq<Field>, x: int) -> Option<Seq<Field>>
    decreases x,
{
    if x == root {
        Some(l0)
    } else if x < root || x >= nodes.len() {
        None
    } else {
        match nodes[x].source {
            Some(p) => if p < x {
                match arrival(nodes, n, root, l0, p as int) {
                    Some(l) => after_visit(nodes, n, p as int, l),
                    None => None,
                }
            } else {
                None
            },
            None => None,
        }
    }
}

/// The search reaches `x` with every field matched, and `x` lies between `n` and `yd`.
pub open spec fn shows_non_unique(nodes: Seq<Node>, n: int, root: int, l0: Seq<Field>, yd: int, x: int) -> bool {
    match arrival(nodes, n, root, l0, x) {
        Some(l) => match after_visit(nodes, n, x, l) {
            Some(l2) => l2.len() == 0 && n <= x <= yd,
            None => false,
        },
        None => false,
    }
}

/// `x` proves that `n` is not unique: from the highest ancestor of `n` through copies,
/// fields and offsets, `x` is reached through the same fields, and `x` lies between `n` and
/// the last descendant of `n`.
pub open spec fn non_unique_witness(nodes: Seq<Node>, n: int, x: int) -> bool {
    let (root, l0) = lineage(nodes, n);
    shows_non_unique(nodes, n, root, l0, greatest_desc_spec(nodes, n), x)
}

pub open spec fn in_view(v: Seq<(NodeId, Vec<Field>)>, y: usize) -> bool {
    exists|j: int| 0 <= j < v.len() && (#[trigger] v[j]).0 == y
}

fn copy_fields(v: &Vec<Field>) -> (r: Vec<Field>)
    ensures
        r@ == v@,
{
    let mut r: Vec<Field> = Vec::new();
    let mut i: usize = 0;
    while i < v.len()
        invariant
            i <= v@.len(),
            r@ == v@.take(i as int),
        decreases v@.len() - i,
    {
        r.push(v[i]);
        i = i + 1;
        assert(r@ =~= v@.take(i as int));
    }
    assert(v@.take(i as int) =~= v@);
    r
}

/// Every node that the search reaches is visited, when the visited nodes hold the root and
/// every child of each visited node that the search goes on from.
proof fn lemma_search_complete(
    nodes: Seq<Node>,
    n: int,
    root: int,
    l0: Seq<Field>,
    popped: Set<usize>,
    x: int,
)
    requires
        nodes.len() <= usize::MAX,
        0 <= root,
        popped.contains(root as usize),
        forall|c: int|
            0 <= c < nodes.len() && (#[trigger] nodes[c]).source is Some && popped.contains(
                nodes[c].source->Some_0,
            ) && after_visit(
                nodes,
                n,
                nodes[c].source->Some_0 as int,
                arrival(nodes, n, root, l0, nodes[c].source->Some_0 as int)->Some_0,
            ) is Some ==> popped.contains(c as usize),
        forall|y: usize| #[trigger] popped.contains(y) ==> arrival(nodes, n, root, l0, y as int) is Some,
        arrival(nodes, n, root, l0, x) is Some,
    ensures
        popped.contains(x as usize),
    decreases x,
{
    if x != root {
        let p = nodes[x].source->Some_0;
        lemma_search_complete(nodes, n, root, l0, popped, p as int);
    }
}

/// What holds of the search for a node that shows `n` is not unique, between two steps:
/// each waiting entry is a node reached with its fields left, not yet visited and met once;
/// each visited node was reached and shows nothing; the root is visited or waiting; and each
/// child of a visited node that the search goes on from is visited or waiting.
#[verifier::opaque]
pub open spec fn search_inv(
    nodes: Seq<Node>,
    n: int,
    root: int,
    l0: Seq<Field>,
    yd: int,
    v: Seq<(NodeId, Vec<Field>)>,
    popped: Set<usize>,
) -> bool {
    &&& forall|j: int| 0 <= j < v.len() ==> {
        let e = #[trigger] v[j];
        &&& e.0 < nodes.len()
        &&& root <= e.0
        &&& !popped.contains(e.0)
        &&& arrival(nodes, n, root, l0, e.0 as int) == Some(e.1@)
        &&& (e.0 == root || nodes[e.0 as int].source is Some && popped.contains(nodes[e.0 as int].source->Some_0))
    }
    &&& forall|i: int, j: int| 0 <= i < j < v.len() ==> (#[trigger] v[i]).0 != (#[trigger] v[j]).0
    &&& forall|y: usize| #[trigger] popped.contains(y) ==> {
        &&& y < nodes.len()
        &&& root <= y
        &&& arrival(nodes, n, root, l0, y as int) is Some
        &&& !shows_non_unique(nodes, n, root, l0, yd, y as int)
        &&& (y == root || nodes[y as int].source is Some && popped.contains(nodes[y as int].source->Some_0))
    }
    &&& popped.contains(root as usize) || in_view(v, root as usize)
    &&& forall|c: int|
        0 <= c < nodes.len() && (#[trigger] nodes[c]).source is Some && popped.contains(nodes[c].source->Some_0)
            && after_visit(
            nodes,
            n,
            nodes[c].source->Some_0 as int,
            arrival(nodes, n, root, l0, nodes[c].source->Some_0 as int)->Some_0,
        ) is Some ==> popped.contains(c as usize) || in_view(v, c as usize)
}

proof fn lemma_search_init(nodes: Seq<Node>, n: int, root: int, l0: Seq<Field>, yd: int, e: (NodeId, Vec<Field>))
    requires
        0 <= root < nodes.len(),
        e.0 == root,
        e.1@ == l0,
    ensures
        search_inv(nodes, n, root, l0, yd, seq![e], Set::empty()),
{
    reveal(search_inv);
    assert(seq![e][0] == e);
}

proof fn lemma_search_top(
    nodes: Seq<Node>,
    n: int,
    root: int,
    l0: Seq<Field>,
    yd: int,
    v: Seq<(NodeId, Vec<Field>)>,
    popped: Set<usize>,
)
    requires
        search_inv(nodes, n, root, l0, yd, v, popped),
        v.len() > 0,
        nodes.len() <= usize::MAX,
    ensures
        v.last().0 < nodes.len(),
        root <= v.last().0,
        !popped.contains(v.last().0),
        arrival(nodes, n, root, l0, v.last().0 as int) == Some(v.last().1@),
        unseen(popped.insert(v.last().0), nodes.len()) < unseen(popped, nodes.len()),
{
    reveal(search_inv);
    assert(v[v.len() - 1] == v.last());
    lemma_unseen_insert(popped, nodes.len(), v.last().0);
}

#[verifier::opaque]
spec fn step_ok(
    nodes: Seq<Node>,
    n: int,
    yd: int,
    old_view: Seq<(NodeId, Vec<Field>)>,
    base: Seq<(NodeId, Vec<Field>)>,
    v: Seq<(NodeId, Vec<Field>)>,
    next_fields: Seq<Field>,
) -> bool {
    let cur = old_view.last().0;
    let next = after_visit(nodes, n, cur as int, old_view.last().1@);
    &&& base == old_view.drop_last()
    &&& next is Some ==> !(next->Some_0.len() == 0 && n <= cur <= yd)
    &&& next is Some ==> {
        &&& next->Some_0 == next_fields
        &&& v.len() >= base.len()
        &&& v.take(base.len() as int) == base
        &&& forall|j: int| base.len() <= j < v.len() ==> {
            let e = #[trigger] v[j];
            &&& cur < e.0 < nodes.len()
            &&& nodes[e.0 as int].source == Some(cur)
            &&& e.1@ == next_fields
        }
        &&& forall|a: int, b: int| base.len() <= a < b < v.len() ==> (#[trigger] v[a]).0 < (#[trigger] v[b]).0
        &&& forall|c: int| 0 <= c < nodes.len() && (#[trigger] nodes[c]).source == Some(cur) ==> in_view(v, c as usize)
    }
    &&& next is None ==> v == base
}

proof fn lemma_step_entries(
    nodes: Seq<Node>,
    n: int,
    root: int,
    l0: Seq<Field>,
    yd: int,
    old_view: Seq<(NodeId, Vec<Field>)>,
    popped: Set<usize>,
    base: Seq<(NodeId, Vec<Field>)>,
    v: Seq<(NodeId, Vec<Field>)>,
    next_fields: Seq<Field>,
)
    requires
        graph_wf(nodes),
        search_inv(nodes, n, root, l0, yd, old_view, popped),
        old_view.len() > 0,
        step_ok(nodes, n, yd, old_view, base, v, next_fields),
    ensures
        forall|j: int| 0 <= j < v.len() ==> {
            let e = #[trigger] v[j];
            &&& e.0 < nodes.len()
            &&& root <= e.0
            &&& !popped.insert(old_view.last().0).contains(e.0)
            &&& arrival(nodes, n, root, l0, e.0 as int) == Some(e.1@)
            &&& (e.0 == root || nodes[e.0 as int].source is Some && popped.insert(old_view.last().0).contains(nodes[e.0 as int].source->Some_0))
        },
{
    reveal(search_inv);
    reveal(step_ok);
    let cur = old_view.last().0;
    let visited = popped.insert(cur);
    assert(old_view[old_view.len() - 1] == old_view.last());
    assert forall|j: int| 0 <= j < v.len() implies {
        let e = #[trigger] v[j];
        &&& e.0 < nodes.len()
        &&& root <= e.0
        &&& !visited.contains(e.0)
        &&& arrival(nodes, n, root, l0, e.0 as int) == Some(e.1@)
        &&& (e.0 == root || nodes[e.0 as int].source is Some && visited.contains(nodes[e.0 as int].source->Some_0))
    } by {
        if j < base.len() {
            assert(v[j] == v.take(base.len() as int)[j]);
            assert(base[j] == old_view[j]);
            assert(old_view[j].0 != cur);
        } else {
            let e = v[j];
            assert(nodes[e.0 as int].source->Some_0 < e.0);
            if popped.contains(e.0) {
                assert(e.0 == root || popped.contains(cur));
            }
        }
    }
}

proof fn lemma_step_distinct(
    nodes: Seq<Node>,
    n: int,
    root: int,
    l0: Seq<Field>,
    yd: int,
    old_view: Seq<(NodeId, Vec<Field>)>,
    popped: Set<usize>,
    base: Seq<(NodeId, Vec<Field>)>,
    v: Seq<(NodeId, Vec<Field>)>,
    next_fields: Seq<Field>,
)
    requires
        graph_wf(nodes),
        search_inv(nodes, n, root, l0, yd, old_view, popped),
        old_view.len() > 0,
        step_ok(nodes, n, yd, old_view, base, v, next_fields),
    ensures
        forall|a: int, b: int| 0 <= a < b < v.len() ==> (#[trigger] v[a]).0 != (#[trigger] v[b]).0,
{
    let cur = old_view.last().0;
    assert(base == old_view.drop_last() && v.len() >= base.len() && v.take(base.len() as int) == base) by {
        reveal(step_ok);
    }
    assert forall|a: int, b: int| 0 <= a < b < v.len() implies (#[trigger] v[a]).0 != (#[trigger] v[b]).0 by {
        assert(old_view[old_view.len() - 1] == old_view.last());
        if b < base.len() {
            assert(v[a] == v.take(base.len() as int)[a] && v[b] == v.take(base.len() as int)[b]);
            assert(base[a] == old_view[a] && base[b] == old_view[b]);
            assert(old_view[a].0 != old_view[b].0) by {
                reveal(search_inv);
            }
        } else if a < base.len() {
            assert(v[a] == v.take(base.len() as int)[a]);
            assert(base[a] == old_view[a]);
            let y = old_view[a].0;
            assert(nodes[v[b].0 as int].source == Some(cur) && cur < v[b].0) by {
                reveal(step_ok);
            }
            assert(y == root || nodes[y as int].source is Some && popped.contains(nodes[y as int].source->Some_0)) by {
                reveal(search_inv);
            }
            assert(!popped.contains(cur) && root <= cur) by {
                reveal(search_inv);
            }
        } else {
            reveal(step_ok);
        }
    }
}

proof fn lemma_step_root(
    nodes: Seq<Node>,
    n: int,
    root: int,
    l0: Seq<Field>,
    yd: int,
    old_view: Seq<(NodeId, Vec<Field>)>,
    popped: Set<usize>,
    base: Seq<(NodeId, Vec<Field>)>,
    v: Seq<(NodeId, Vec<Field>)>,
    next_fields: Seq<Field>,
)
    requires
        graph_wf(nodes),
        search_inv(nodes, n, root, l0, yd, old_view, popped),
        old_view.len() > 0,
        step_ok(nodes, n, yd, old_view, base, v, next_fields),
    ensures
        popped.insert(old_view.last().0).contains(root as usize) || in_view(v, root as usize),
{
    let cur = old_view.last().0;
    let visited = popped.insert(cur);
    assert(popped.contains(root as usize) || in_view(old_view, root as usize)) by {
        reveal(search_inv);
    }
    assert(base == old_view.drop_last() && v.len() >= base.len() && v.take(base.len() as int) == base) by {
        reveal(step_ok);
    }
    if !visited.contains(root as usize) {
        let j = choose|j: int| 0 <= j < old_view.len() && (#[trigger] old_view[j]).0 == root as usize;
        assert(old_view[old_view.len() - 1] == old_view.last());
        assert(j < base.len());
        assert(v[j] == v.take(base.len() as int)[j]);
        assert(base[j] == old_view[j]);
    }
}

#[verifier::rlimit(60)]
proof fn lemma_step_closed(
    nodes: Seq<Node>,
    n: int,
    root: int,
    l0: Seq<Field>,
    yd: int,
    old_view: Seq<(NodeId, Vec<Field>)>,
    popped: Set<usize>,
    base: Seq<(NodeId, Vec<Field>)>,
    v: Seq<(NodeId, Vec<Field>)>,
    next_fields: Seq<Field>,
)
    requires
        graph_wf(nodes),
        search_inv(nodes, n, root, l0, yd, old_view, popped),
        old_view.len() > 0,
        step_ok(nodes, n, yd, old_view, base, v, next_fields),
    ensures
        forall|c: int|
            0 <= c < nodes.len() && (#[trigger] nodes[c]).source is Some && popped.insert(old_view.last().0).contains(nodes[c].source->Some_0)
                && after_visit(
                nodes,
                n,
                nodes[c].source->Some_0 as int,
                arrival(nodes, n, root, l0, nodes[c].source->Some_0 as int)->Some_0,
            ) is Some ==> popped.insert(old_view.last().0).contains(c as usize) || in_view(v, c as usize),
{
    let cur = old_view.last().0;
    let visited = popped.insert(cur);
    assert(base == old_view.drop_last() && v.len() >= base.len() && v.take(base.len() as int) == base) by {
        reveal(step_ok);
    }
    assert(arrival(nodes, n, root, l0, cur as int) == Some(old_view.last().1@)) by {
        reveal(search_inv);
        assert(old_view[old_view.len() - 1] == old_view.last());
    }
    assert forall|c: int|
        0 <= c < nodes.len() && (#[trigger] nodes[c]).source is Some && visited.contains(nodes[c].source->Some_0)
            && after_visit(
            nodes,
            n,
            nodes[c].source->Some_0 as int,
            arrival(nodes, n, root, l0, nodes[c].source->Some_0 as int)->Some_0,
        ) is Some implies visited.contains(c as usize) || in_view(v, c as usize) by {
        let p = nodes[c].source->Some_0;
        if p == cur {
            reveal(step_ok);
        } else if !visited.contains(c as usize) {
            assert(popped.contains(c as usize) || in_view(old_view, c as usize)) by {
                reveal(search_inv);
            }
            let j = choose|j: int| 0 <= j < old_view.len() && (#[trigger] old_view[j]).0 == c as usize;
            assert(old_view[old_view.len() - 1] == old_view.last());
            assert(j < base.len());
            assert(v[j] == v.take(base.len() as int)[j]);
            assert(base[j] == old_view[j]);
        }
    }
}

proof fn lemma_search_step(
    nodes: Seq<Node>,
    n: int,
    root: int,
    l0: Seq<Field>,
    yd: int,
    old_view: Seq<(NodeId, Vec<Field>)>,
    popped: Set<usize>,
    base: Seq<(NodeId, Vec<Field>)>,
    v: Seq<(NodeId, Vec<Field>)>,
    next_fields: Seq<Field>,
)
    requires
        graph_wf(nodes),
        search_inv(nodes, n, root, l0, yd, old_view, popped),
        old_view.len() > 0,
        step_ok(nodes, n, yd, old_view, base, v, next_fields),
    ensures
        search_inv(nodes, n, root, l0, yd, v, popped.insert(old_view.last().0)),
{
    lemma_step_entries(nodes, n, root, l0, yd, old_view, popped, base, v, next_fields);
    lemma_step_distinct(nodes, n, root, l0, yd, old_view, popped, base, v, next_fields);
    lemma_step_closed(nodes, n, root, l0, yd, old_view, popped, base, v, next_fields);
    lemma_step_root(nodes, n, root, l0, yd, old_view, popped, base, v, next_fields);
    reveal(search_inv);
    let cur = old_view.last().0;
    let visited = popped.insert(cur);
    assert(old_view[old_view.len() - 1] == old_view.last());
    assert forall|y: usize| #[trigger] visited.contains(y) implies {
        &&& y < nodes.len()
        &&& root <= y
        &&& arrival(nodes, n, root, l0, y as int) is Some
        &&& !shows_non_unique(nodes, n, root, l0, yd, y as int)
        &&& (y == root || nodes[y as int].source is Some && visited.contains(nodes[y as int].source->Some_0))
    } by {
        if y == cur {
            reveal(step_ok);
        }
    }
}

proof fn lemma_search_done(
    nodes: Seq<Node>,
    n: int,
    root: int,
    l0: Seq<Field>,
    yd: int,
    v: Seq<(NodeId, Vec<Field>)>,
    popped: Set<usize>,
    x: int,
)
    requires
        nodes.len() <= usize::MAX,
        0 <= root,
        search_inv(nodes, n, root, l0, yd, v, popped),
        v.len() == 0,
        0 <= x < nodes.len(),
    ensures
        !shows_non_unique(nodes, n, root, l0, yd, x),
{
    reveal(search_inv);
    assert(!in_view(v, root as usize));
    assert(popped.contains(root as usize));
    assert forall|c: int|
        0 <= c < nodes.len() && (#[trigger] nodes[c]).source is Some && popped.contains(nodes[c].source->Some_0)
            && after_visit(
            nodes,
            n,
            nodes[c].source->Some_0 as int,
            arrival(nodes, n, root, l0, nodes[c].source->Some_0 as int)->Some_0,
        ) is Some implies popped.contains(c as usize) by {
        assert(!in_view(v, c as usize));
    }
    if arrival(nodes, n, root, l0, x) is Some {
        lemma_search_complete(nodes, n, root, l0, popped, x);
        assert(popped.contains(x as usize));
    }
}

/// Appends to `to_view` each child of `cur`, in order, with the fields `fields` left.
fn push_children(g: &Graph, cur: NodeId, fields: &Vec<Field>, to_view: &mut Vec<(NodeId, Vec<Field>)>)
    requires
        graph_wf(g.nodes@),
        cur < g.nodes@.len(),
    ensures
        final(to_view)@.len() >= old(to_view)@.len(),
        final(to_view)@.take(old(to_view)@.len() as int) == old(to_view)@,
        forall|j: int| old(to_view)@.len() <= j < final(to_view)@.len() ==> {
            let e = #[trigger] final(to_view)@[j];
            &&& cur < e.0 < g.nodes@.len()
            &&& g.nodes@[e.0 as int].source == Some(cur)
            &&& e.1@ == fields@
        },
        forall|a: int, b: int| old(to_view)@.len() <= a < b < final(to_view)@.len() ==> (#[trigger] final(to_view)@[a]).0 < (#[trigger] final(to_view)@[b]).0,
        forall|c: int| 0 <= c < g.nodes@.len() && (#[trigger] g.nodes@[c]).source == Some(cur) ==> in_view(final(to_view)@, c as usize),
        fields_view(final(to_view)@) == fields_view(old(to_view)@) + child_entries(g.nodes@, cur, fields@, g.nodes@.len() as int),
{
    let ghost nodes = g.nodes@;
    let ghost base = to_view@;
    let len = g.nodes.len();
    let mut i: usize = 0;
    assert(to_view@.take(base.len() as int) =~= base);
    assert(fields_view(to_view@) =~= fields_view(base) + child_entries(nodes, cur, fields@, 0));
    while i < len
        invariant
            nodes == g.nodes@,
            len == nodes.len(),
            graph_wf(nodes),
            cur < len,
            i <= len,
            to_view@.len() >= base.len(),
            to_view@.take(base.len() as int) == base,
            forall|j: int| base.len() <= j < to_view@.len() ==> {
                let e = #[trigger] to_view@[j];
                &&& cur < e.0 < i
                &&& nodes[e.0 as int].source == Some(cur)
                &&& e.1@ == fields@
            },
            forall|a: int, b: int| base.len() <= a < b < to_view@.len() ==> (#[trigger] to_view@[a]).0 < (#[trigger] to_view@[b]).0,
            forall|c: int| 0 <= c < i && (#[trigger] nodes[c]).source == Some(cur) ==> in_view(to_view@, c as usize),
            fields_view(to_view@) == fields_view(base) + child_entries(nodes, cur, fields@, i as int),
        decreases len - i,
    {
        if g.nodes[i].source == Some(cur) {
            assert(nodes[i as int].source->Some_0 < i);
            let ghost before = to_view@;
            to_view.push((i, copy_fields(fields)));
            proof {
                assert(fields_view(to_view@) =~= fields_view(before).push((i, fields@)));
                assert(to_view@.take(base.len() as int) =~= before.take(base.len() as int));
                assert forall|c: int| 0 <= c < i + 1 && (#[trigger] nodes[c]).source == Some(cur)
                    implies in_view(to_view@, c as usize) by {
                    if c < i {
                        let j = choose|j: int| 0 <= j < before.len() && (#[trigger] before[j]).0 == c as usize;
                        assert(to_view@[j] == before[j]);
                    } else {
                        assert(to_view@[before.len() as int].0 == c as usize);
                    }
                }
                assert forall|j: int| base.len() <= j < to_view@.len() implies {
                    let e = #[trigger] to_view@[j];
                    &&& cur < e.0 < i + 1
                    &&& nodes[e.0 as int].source == Some(cur)
                    &&& e.1@ == fields@
                } by {
                    if j < before.len() {
                        assert(to_view@[j] == before[j]);
                    }
                }
                assert forall|a: int, b: int| base.len() <= a < b < to_view@.len() implies (#[trigger] to_view@[a]).0 < (#[trigger] to_view@[b]).0 by {
                    if b < before.len() {
                        assert(to_view@[a] == before[a] && to_view@[b] == before[b]);
                    } else {
                        assert(to_view@[a] == before[a]);
                    }
                }
            }
        }
        assert(fields_view(to_view@) =~= fields_view(base) + child_entries(nodes, cur, fields@, i + 1));
        i = i + 1;
    }
}

/// The waiting entries `v`, with their fields as sequences.
pub open spec fn fields_view(v: Seq<(NodeId, Vec<Field>)>) -> Seq<(usize, Seq<Field>)> {
    v.map_values(|e: (NodeId, Vec<Field>)| (e.0, e.1@))
}

/// An entry `(i, l)` for each node `i` below `k` whose source is `x`, in order.
pub open spec fn child_entries(nodes: Seq<Node>, x: usize, l: Seq<Field>, k: int) -> Seq<(usize, Seq<Field>)>
    decreases k,
{
    if k <= 0 {
        Seq::empty()
    } else {
        let init = child_entries(nodes, x, l, k - 1);
        if nodes[k - 1].source == Some(x) {
            init.push(((k - 1) as usize, l))
        } else {
            init
        }
    }
}

/// The node that the search for one showing `n` is not unique returns, going on from the
/// waiting stack `view` for at most `fuel` steps: it takes the last waiting entry; it drops
/// it where the search stops there, returns its node where every field is matched and the
/// node lies between `n` and `yd`, and otherwise puts an entry for each child of the node,
/// in index order, with the fields still to match.
pub open spec fn rules_search(nodes: Seq<Node>, n: int, yd: int, view: Seq<(usize, Seq<Field>)>, fuel: nat) -> Option<usize>
    decreases fuel,
{
    if fuel == 0 || view.len() == 0 {
        None
    } else {
        let x = view.last().0;
        let l = view.last().1;
        let rest = view.drop_last();
        if x >= nodes.len() {
            None
        } else {
            match after_visit(nodes, n, x as int, l) {
                None => rules_search(nodes, n, yd, rest, (fuel - 1) as nat),
                Some(l2) => if l2.len() == 0 && n <= x <= yd {
                    Some(x)
                } else {
                    rules_search(nodes, n, yd, rest + child_entries(nodes, x, l2, nodes.len() as int), (fuel - 1) as nat)
                },
            }
        }
    }
}

/// The node that `check_whether_rules_obeyed` returns for `n`: the search from the highest
/// ancestor of `n`, with the fields passed on the way, each node taken at most once.
pub open spec fn rules_result(nodes: Seq<Node>, n: int) -> Option<usize> {
    let (root, l0) = lineage(nodes, n);
    rules_search(nodes, n, greatest_desc_spec(nodes, n), seq![(root as usize, l0)], (nodes.len() + 1) as nat)
}

proof fn lemma_unseen_empty(k: nat)
    ensures
        unseen(Set::empty(), k) == k,
    decreases k,
{
    if k > 0 {
        lemma_unseen_empty((k - 1) as nat);
    }
}

/// Looks for a node which proves that `n` is not unique, and returns the first one found
/// (which one, where several do, is not specified); `None` when no node does.
pub fn check_whether_rules_obeyed(g: &Graph, n: &NodeId) -> (r: Option<NodeId>)
    requires
        graph_wf(g.nodes@),
        *n < g.nodes@.len(),
    ensures
        match r {
            Some(m) => m < g.nodes@.len() && non_unique_witness(g.nodes@, *n as int, m as int),
            None => forall|x: int|
                0 <= x < g.nodes@.len() ==> !#[trigger] non_unique_witness(g.nodes@, *n as int, x),
        },
        r == rules_result(g.nodes@, *n as int),
{
    let ghost nodes = g.nodes@;
    let len = g.nodes.len();
    let (oldest_ancestor, oldest_lineage) = calc_lineage(g, n);
    let youngest_descendent = greatest_desc(g, n);
    let ghost root = oldest_ancestor as int;
    let ghost l0 = oldest_lineage@;
    let ghost yd = youngest_descendent as int;
    proof {
        lemma_lineage_root(nodes, *n as int);
    }
    let mut to_view: Vec<(NodeId, Vec<Field>)> = vec![(oldest_ancestor, oldest_lineage)];
    let ghost mut popped: Set<usize> = Set::empty();
    proof {
        lemma_search_init(nodes, *n as int, root, l0, yd, to_view@[0]);
        assert(to_view@ =~= seq![to_view@[0]]);
        lemma_unseen_empty(len as nat);
        assert(fields_view(to_view@) =~= seq![(root as usize, l0)]);
    }
    while to_view.len() > 0
        invariant
            nodes == g.nodes@,
            len == nodes.len(),
            graph_wf(nodes),
            *n < len,
            0 <= root <= *n,
            (root, l0) == lineage(nodes, *n as int),
            yd == greatest_desc_spec(nodes, *n as int),
            yd == youngest_descendent as int,
            search_inv(nodes, *n as int, root, l0, yd, to_view@, popped),
            rules_result(nodes, *n as int) == rules_search(nodes, *n as int, yd, fields_view(to_view@), unseen(popped, len as nat) + 1),
        decreases unseen(popped, len as nat),
    {
        let ghost old_view = to_view@;
        proof {
            lemma_search_top(nodes, *n as int, root, l0, yd, old_view, popped);
            lemma_unseen_insert(popped, len as nat, old_view.last().0);
            assert(fields_view(old_view).last() == (old_view.last().0, old_view.last().1@));
            assert(fields_view(old_view).drop_last() =~= fields_view(old_view.drop_last()));
        }
        let (cur_node_id, mut lineage_left) = to_view.pop().unwrap();
        let ghost arrived = lineage_left@;
        assert(old_view.last().0 == cur_node_id && old_view.last().1@ == arrived);
        assert(to_view@ == old_view.drop_last());
        let mut go_on = cur_node_id != *n;
        if go_on {
            if let NodeKind::Field(f) = g.nodes[cur_node_id].kind {
                match lineage_left.pop() {
                    None => {
                        go_on = false;
                    },
                    Some(top_of_vec) => {
                        if top_of_vec != f {
                            go_on = false;
                        }
                    },
                }
            }
        }
        let ghost next = after_visit(nodes, *n as int, cur_node_id as int, arrived);
        assert(go_on <==> next is Some);
        assert(go_on ==> next == Some(lineage_left@));
        if go_on && lineage_left.len() == 0 && cur_node_id >= *n && cur_node_id <= youngest_descendent {
            assert(arrival(nodes, *n as int, root, l0, cur_node_id as int) == Some(arrived));
            assert(after_visit(nodes, *n as int, cur_node_id as int, arrived) == Some(lineage_left@));
            assert(lineage_left@.len() == 0);
            assert(shows_non_unique(nodes, *n as int, root, l0, yd, cur_node_id as int));
            return Some(cur_node_id);
        }
        let ghost base = to_view@;
        if go_on {
            push_children(g, cur_node_id, &lineage_left, &mut to_view);
        }
        assert(!go_on ==> fields_view(to_view@) == fields_view(base));
        proof {
            assert(base == old_view.drop_last());
            assert(next is None ==> to_view@ == base);
            assert(next is Some ==> !(next->Some_0.len() == 0 && *n as int <= cur_node_id <= yd));
            assert(step_ok(nodes, *n as int, yd, old_view, base, to_view@, lineage_left@)) by {
                reveal(step_ok);
            }
            lemma_search_step(nodes, *n as int, root, l0, yd, old_view, popped, base, to_view@, lineage_left@);
            popped = popped.insert(cur_node_id);
        }
    }
    proof {
        assert forall|x: int| 0 <= x < len implies !#[trigger] non_unique_witness(nodes, *n as int, x) by {
            assert(nodes.len() <= usize::MAX);
            lemma_search_done(nodes, *n as int, root, l0, yd, to_view@, popped, x);
        }
    }
    None
}

/// Whether a node flows to each kind of use, and its last descendant, as gathered by
/// walking the graph from its last node back to its first.
#[derive(Clone, Copy, PartialEq, Eq, Debug, Structural)]
pub struct GraphTraverseInfo {
    pub last_descendent: Option<NodeId>,
    pub flows_to_load: Option<NodeId>,
    pub flows_to_store: Option<NodeId>,
    pub flows_to_pos_offset: Option<NodeId>,
    pub flows_to_neg_offset: Option<NodeId>,
}

pub open spec fn own_if(b: bool, id: NodeId) -> Option<NodeId> {
    if b {
        Some(id)
    } else {
        None
    }
}

/// What a node knows of itself alone.
pub open spec fn init_info(n_id: NodeId, n: Node) -> GraphTraverseInfo {
    GraphTraverseInfo {
        last_descendent: Some(n_id),
        flows_to_store: own_if(does_mutation(n.kind), n_id),
        flows_to_load: own_if(does_load(n.kind), n_id),
        flows_to_pos_offset: own_if(does_pos_offset(n.kind), n_id),
        flows_to_neg_offset: own_if(does_neg_offset(n.kind), n_id),
    }
}

pub fn init_traverse_info(n_id: NodeId, n: &Node) -> (r: GraphTraverseInfo)
    ensures
        r == init_info(n_id, *n),
{
    GraphTraverseInfo {
        last_descendent: Some(n_id),
        flows_to_store: if node_does_mutation(n) { Some(n_id) } else { None },
        flows_to_load: if node_does_load(n) { Some(n_id) } else { None },
        flows_to_pos_offset: if node_does_pos_offset(n) { Some(n_id) } else { None },
        flows_to_neg_offset: if node_does_neg_offset(n) { Some(n_id) } else { None },
    }
}

pub open spec fn opt_or(a: Option<NodeId>, b: Option<NodeId>) -> Option<NodeId> {
    if a is Some {
        a
    } else {
        b
    }
}

pub open spec fn opt_max(a: Option<NodeId>, b: Option<NodeId>) -> Option<NodeId> {
    match (a, b) {
        (Some(x), Some(y)) => if x >= y {
            Some(x)
        } else {
            Some(y)
        },
        (Some(x), None) => Some(x),
        _ => b,
    }
}

/// `parent` after taking in what its child `cur` knows: the later last descendant, and for
/// each use the parent's own node if it has one, else the child's.
pub open spec fn merge_info(parent: GraphTraverseInfo, cur: GraphTraverseInfo) -> GraphTraverseInfo {
    GraphTraverseInfo {
        last_descendent: opt_max(cur.last_descendent, parent.last_descendent),
        flows_to_load: opt_or(parent.flows_to_load, cur.flows_to_load),
        flows_to_store: opt_or(parent.flows_to_store, cur.flows_to_store),
        flows_to_pos_offset: opt_or(parent.flows_to_pos_offset, cur.flows_to_pos_offset),
        flows_to_neg_offset: opt_or(parent.flows_to_neg_offset, cur.flows_to_neg_offset),
    }
}

fn merge_traverse_info(parent: GraphTraverseInfo, cur: GraphTraverseInfo) -> (r: GraphTraverseInfo)
    ensures
        r == merge_info(parent, cur),
{
    let last_descendent = match (cur.last_descendent, parent.last_descendent) {
        (Some(x), Some(y)) => if x >= y { Some(x) } else { Some(y) },
        (Some(x), None) => Some(x),
        _ => parent.last_descendent,
    };
    GraphTraverseInfo {
        last_descendent,
        flows_to_load: if parent.flows_to_load.is_some() { parent.flows_to_load } else { cur.flows_to_load },
        flows_to_store: if parent.flows_to_store.is_some() { parent.flows_to_store } else { cur.flows_to_store },
        flows_to_pos_offset: if parent.flows_to_pos_offset.is_some() { parent.flows_to_pos_offset } else { cur.flows_to_pos_offset },
        flows_to_neg_offset: if parent.flows_to_neg_offset.is_some() { parent.flows_to_neg_offset } else { cur.flows_to_neg_offset },
    }
}

/// The flow information of each node of `g`, by node index: each node, from the last to the
/// first, hands what it knows to its source, so that each entry tells, of the node and all
/// its descendants, the greatest index and, for each use, one that does it.
pub fn create_flow_info(g: &Graph) -> (r: Vec<GraphTraverseInfo>)
    requires
        graph_wf(g.nodes@),
    ensures
        r@.len() == g.nodes@.len(),
        forall|i: int| 0 <= i < g.nodes@.len() ==> summarizes(g.nodes@, i, #[trigger] r@[i], 0),
{
    let ghost nodes = g.nodes@;
    let len = g.nodes.len();
    let mut f: Vec<GraphTraverseInfo> = Vec::new();
    let mut i: usize = 0;
    while i < len
        invariant
            nodes == g.nodes@,
            graph_wf(nodes),
            len == nodes.len(),
            i <= len,
            f@.len() == i,
            forall|j: int| 0 <= j < i ==> summarizes(nodes, j, #[trigger] f@[j], len as int),
        decreases len - i,
    {
        proof { lemma_summary_init(nodes, i); }
        f.push(init_traverse_info(i, &g.nodes[i]));
        i = i + 1;
    }
    let mut k: usize = len;
    while k > 0
        invariant
            nodes == g.nodes@,
            graph_wf(nodes),
            len == nodes.len(),
            k <= len,
            f@.len() == len,
            forall|j: int| 0 <= j < len ==> summarizes(nodes, j, #[trigger] f@[j], k as int),
        decreases k,
    {
        k = k - 1;
        let cur = f[k];
        let ghost before = f@;
        assert(summarizes(nodes, k as int, cur, k + 1));
        if let Some(p_id) = g.nodes[k].source {
            assert(p_id < k);
            let parent = f[p_id];
            proof { lemma_merge_summarizes(nodes, p_id, k as int, parent, cur); }
            f.set(p_id, merge_traverse_info(parent, cur));
        }
        assert forall|j: int| 0 <= j < len implies summarizes(nodes, j, #[trigger] f@[j], k as int) by {
            if nodes[k as int].source != Some(j as usize) {
                assert(f@[j] == before[j]);
                lemma_summary_stays(nodes, j as usize, k as int, before[j]);
            }
        }
    }
    f
}

/// The children of each node of `g`, by node index, in order.
pub fn collect_children(g: &Graph) -> (r: Vec<Vec<NodeId>>)
    ensures
        r@.len() == g.nodes@.len(),
        forall|p: int|
            0 <= p < g.nodes@.len() ==> (#[trigger] r@[p])@ == children_of(
                g.nodes@,
                set![p as usize],
                g.nodes@.len() as int,
            ),
{
    let ghost nodes = g.nodes@;
    let len = g.nodes.len();
    let mut m: Vec<Vec<NodeId>> = Vec::new();
    let mut i: usize = 0;
    while i < len
        invariant
            len == nodes.len(),
            i <= len,
            m@.len() == i,
            forall|p: int| 0 <= p < i ==> (#[trigger] m@[p])@ == Seq::<NodeId>::empty(),
        decreases len - i,
    {
        m.push(Vec::new());
        i = i + 1;
    }
    let mut c: usize = 0;
    while c < len
        invariant
            nodes == g.nodes@,
            len == nodes.len(),
            c <= len,
            m@.len() == len,
            forall|p: int| 0 <= p < len ==> (#[trigger] m@[p])@ == children_of(nodes, set![p as usize], c as int),
        decreases len - c,
    {
        if let Some(par) = g.nodes[c].source {
            if par < len {
                let mut v = m[par].clone();
                let ghost old_m = m@;
                assert(v@ == old_m[par as int]@) by {
                    assert(v@ =~= old_m[par as int]@);
                }
                v.push(c);
                m.set(par, v);
                assert forall|p: int| 0 <= p < len implies (#[trigger] m@[p])@ == children_of(nodes, set![p as usize], c + 1) by {
                    if p != par {
                        assert(m@[p] == old_m[p]);
                        assert(!set![p as usize].contains(par));
                    }
                }
            }
        }
        c = c + 1;
    }
    m
}

/// `found` is a node among `n` and its descendants that passes `c`, if there is one.
pub open spec fn flow_ok(nodes: Seq<Node>, n: int, c: NodeCheck, found: Option<NodeId>) -> bool {
    match found {
        Some(m) => m < nodes.len() && is_desc(nodes, n, m as int) && check_holds(c, nodes[m as int].kind),
        None => forall|m: int| 0 <= m < nodes.len() && #[trigger] is_desc(nodes, n, m) ==> !check_holds(c, nodes[m].kind),
    }
}

proof fn lemma_flow_ok(nodes: Seq<Node>, n: int, c: NodeCheck, found: Option<NodeId>)
    requires
        graph_wf(nodes),
        0 <= n < nodes.len(),
        match found {
            Some(m) => m < nodes.len() && reaches(nodes, n, m as int) && check_holds(c, nodes[m as int].kind),
            None => forall|m: int| 0 <= m < nodes.len() && #[trigger] reaches(nodes, n, m) ==> !check_holds(c, nodes[m].kind),
        },
    ensures
        flow_ok(nodes, n, c, found),
{
    match found {
        Some(m) => {
            lemma_reaches_is_desc(nodes, n, m as int);
        },
        None => {
            assert forall|m: int| 0 <= m < nodes.len() && #[trigger] is_desc(nodes, n, m) implies !check_holds(c, nodes[m].kind) by {
                lemma_reaches_is_desc(nodes, n, m);
            }
        },
    }
}

/// `found` is a node that shows `n` is not unique, if there is one.
pub open spec fn unique_ok(nodes: Seq<Node>, n: int, found: Option<NodeId>) -> bool {
    match found {
        Some(m) => m < nodes.len() && non_unique_witness(nodes, n, m as int),
        None => forall|x: int| 0 <= x < nodes.len() ==> !#[trigger] non_unique_witness(nodes, n, x),
    }
}

/// `info` is the flow information of node `n`: for each use, the node that the search from
/// `n` finds first, and the node that the uniqueness search finds first.
#[verifier::opaque]
pub open spec fn info_ok(nodes: Seq<Node>, n: int, info: NodeInfo) -> bool {
    &&& info.flows_to_mutation == search_result(nodes, NodeCheck::Mutation, Set::empty(), seq![n as usize])
    &&& info.flows_to_load == search_result(nodes, NodeCheck::Load, Set::empty(), seq![n as usize])
    &&& info.flows_to_pos_offset == search_result(nodes, NodeCheck::PosOffset, Set::empty(), seq![n as usize])
    &&& info.flows_to_neg_offset == search_result(nodes, NodeCheck::NegOffset, Set::empty(), seq![n as usize])
    &&& info.non_unique == rules_result(nodes, n)
    &&& flow_ok(nodes, n, NodeCheck::Mutation, info.flows_to_mutation)
    &&& flow_ok(nodes, n, NodeCheck::Load, info.flows_to_load)
    &&& flow_ok(nodes, n, NodeCheck::PosOffset, info.flows_to_pos_offset)
    &&& flow_ok(nodes, n, NodeCheck::NegOffset, info.flows_to_neg_offset)
    &&& unique_ok(nodes, n, info.non_unique)
}

/// `new` is `old` with the flow information of every node filled in.
pub open spec fn augmented(old: Seq<Node>, new: Seq<Node>) -> bool {
    &&& new.len() == old.len()
    &&& forall|i: int| 0 <= i < old.len() ==> {
        &&& (#[trigger] new[i]).kind == old[i].kind
        &&& new[i].source == old[i].source
        &&& new[i].node_info is Some
        &&& info_ok(old, i, new[i].node_info->Some_0)
    }
}

proof fn lemma_wf_sources_valid(nodes: Seq<Node>)
    requires
        graph_wf(nodes),
    ensures
        sources_valid(nodes),
{
    assert forall|i: int| 0 <= i < nodes.len() && (#[trigger] nodes[i]).source is Some implies nodes[i].source->Some_0
        < nodes.len() by {}
}

/// The flow information of node `idx`.
fn node_info_of(g: &Graph, idx: NodeId) -> (info: NodeInfo)
    requires
        graph_wf(g.nodes@),
        idx < g.nodes@.len(),
    ensures
        info_ok(g.nodes@, idx as int, info),
{
    reveal(info_ok);
    proof {
        lemma_wf_sources_valid(g.nodes@);
    }
    let mutation = check_flows_to_node_kind(g, &idx, NodeCheck::Mutation);
    let load = check_flows_to_node_kind(g, &idx, NodeCheck::Load);
    let pos_offset = check_flows_to_node_kind(g, &idx, NodeCheck::PosOffset);
    let neg_offset = check_flows_to_node_kind(g, &idx, NodeCheck::NegOffset);
    proof {
        lemma_flow_ok(g.nodes@, idx as int, NodeCheck::Mutation, mutation);
        lemma_flow_ok(g.nodes@, idx as int, NodeCheck::Load, load);
        lemma_flow_ok(g.nodes@, idx as int, NodeCheck::PosOffset, pos_offset);
        lemma_flow_ok(g.nodes@, idx as int, NodeCheck::NegOffset, neg_offset);
    }
    NodeInfo {
        flows_to_mutation: mutation,
        flows_to_load: load,
        flows_to_pos_offset: pos_offset,
        flows_to_neg_offset: neg_offset,
        non_unique: check_whether_rules_obeyed(g, &idx),
    }
}

/// Fills in the flow information of each node of each graph: the nodes that it flows to
/// which store, load, or offset it forwards or backwards, and a node that shows it is not
/// unique.
pub fn augment_with_info(pdg: &mut Graphs)
    requires
        forall|k: int| 0 <= k < old(pdg).graphs@.len() ==> graph_wf(#[trigger] old(pdg).graphs@[k].nodes@),
    ensures
        final(pdg).graphs@.len() == old(pdg).graphs@.len(),
        forall|k: int|
            0 <= k < old(pdg).graphs@.len() ==> augmented(
                old(pdg).graphs@[k].nodes@,
                #[trigger] final(pdg).graphs@[k].nodes@,
            ),
{
    let ghost before = pdg.graphs@;
    let mut new_graphs: Vec<Graph> = Vec::new();
    let mut gi: usize = 0;
    while gi < pdg.graphs.len()
        invariant
            before == pdg.graphs@,
            forall|k: int| 0 <= k < before.len() ==> graph_wf(#[trigger] before[k].nodes@),
            gi <= before.len(),
            new_graphs@.len() == gi,
            forall|k: int| 0 <= k < gi ==> augmented(before[k].nodes@, #[trigger] new_graphs@[k].nodes@),
        decreases before.len() - gi,
    {
        let g = &pdg.graphs[gi];
        assert(graph_wf(g.nodes@));
        let mut nodes: Vec<Node> = Vec::new();
        let mut idx: usize = 0;
        while idx < g.nodes.len()
            invariant
                graph_wf(g.nodes@),
                idx <= g.nodes@.len(),
                nodes@.len() == idx,
                forall|i: int| 0 <= i < idx ==> {
                    &&& (#[trigger] nodes@[i]).kind == g.nodes@[i].kind
                    &&& nodes@[i].source == g.nodes@[i].source
                    &&& nodes@[i].node_info is Some
                    &&& info_ok(g.nodes@, i, nodes@[i].node_info->Some_0)
                },
            decreases g.nodes@.len() - idx,
        {
            let info = node_info_of(g, idx);
            let node = g.nodes[idx];
            nodes.push(Node { kind: node.kind, source: node.source, node_info: Some(info) });
            idx = idx + 1;
        }
        new_graphs.push(Graph { nodes });
        gi = gi + 1;
    }
    pdg.graphs = new_graphs;
}

/// Whether each node's source comes before it.
pub fn graph_is_wf(g: &Graph) -> (r: bool)
    ensures
        r == graph_wf(g.nodes@),
{
    let mut i: usize = 0;
    while i < g.nodes.len()
        invariant
            i <= g.nodes@.len(),
            forall|j: int| 0 <= j < i ==> (#[trigger] g.nodes@[j]).source is Some ==> g.nodes@[j].source->Some_0 < j,
        decreases g.nodes@.len() - i,
    {
        if let Some(p) = g.nodes[i].source {
            if p >= i {
                return false;
            }
        }
        i = i + 1;
    }
    true
}

/// The child of `i` through which its descendant `m` is reached.
pub open spec fn toward(nodes: Seq<Node>, i: int, m: int) -> int
    decreases m,
{
    if m < 0 || m >= nodes.len() {
        m
    } else {
        match nodes[m].source {
            Some(p) => if p as int == i {
                m
            } else if p < m {
                toward(nodes, i, p as int)
            } else {
                m
            },
            None => m,
        }
    }
}

/// `m` is `i`, or a descendant of `i` reached through a child at index `k` or later.
pub open spec fn in_reach(nodes: Seq<Node>, i: int, m: int, k: int) -> bool {
    is_desc(nodes, i, m) && (m == i || toward(nodes, i, m) >= k)
}

/// `found` is a node in reach of `i` that passes `c`, if there is one.
pub open spec fn reach_ok(nodes: Seq<Node>, i: int, k: int, c: NodeCheck, found: Option<NodeId>) -> bool {
    match found {
        Some(m) => m < nodes.len() && in_reach(nodes, i, m as int, k) && check_holds(c, nodes[m as int].kind),
        None => forall|m: int| 0 <= m < nodes.len() && #[trigger] in_reach(nodes, i, m, k) ==> !check_holds(c, nodes[m].kind),
    }
}

/// `info` tells, of the nodes in reach of `i`, the greatest index and, for each use, one
/// that does it.
pub open spec fn summarizes(nodes: Seq<Node>, i: int, info: GraphTraverseInfo, k: int) -> bool {
    &&& info.last_descendent is Some
    &&& info.last_descendent->Some_0 < nodes.len()
    &&& in_reach(nodes, i, info.last_descendent->Some_0 as int, k)
    &&& forall|m: int| #[trigger] in_reach(nodes, i, m, k) ==> m <= info.last_descendent->Some_0
    &&& reach_ok(nodes, i, k, NodeCheck::Mutation, info.flows_to_store)
    &&& reach_ok(nodes, i, k, NodeCheck::Load, info.flows_to_load)
    &&& reach_ok(nodes, i, k, NodeCheck::PosOffset, info.flows_to_pos_offset)
    &&& reach_ok(nodes, i, k, NodeCheck::NegOffset, info.flows_to_neg_offset)
}

proof fn lemma_toward(nodes: Seq<Node>, i: int, m: int)
    requires
        graph_wf(nodes),
        0 <= i,
        is_desc(nodes, i, m),
        m != i,
    ensures
        nodes[toward(nodes, i, m)].source is Some,
        nodes[toward(nodes, i, m)].source->Some_0 == i,
        is_desc(nodes, toward(nodes, i, m), m),
        i < toward(nodes, i, m) <= m < nodes.len(),
    decreases m,
{
    let p = nodes[m].source->Some_0;
    if p as int != i {
        lemma_toward(nodes, i, p as int);
        let t = toward(nodes, i, p as int);
        lemma_desc_trans(nodes, t, p, m);
    }
}

proof fn lemma_toward_child(nodes: Seq<Node>, i: usize, c: int, m: int)
    requires
        graph_wf(nodes),
        0 <= c < nodes.len(),
        nodes[c].source == Some(i),
        is_desc(nodes, c, m),
    ensures
        is_desc(nodes, i as int, m),
        m != i,
        toward(nodes, i as int, m) == c,
    decreases m,
{
    assert(nodes[c].source->Some_0 < c);
    if m != c {
        lemma_desc_range(nodes, c, m);
        let p = nodes[m].source->Some_0;
        assert(p < m);
        lemma_toward_child(nodes, i, c, p as int);
        assert(is_desc(nodes, i as int, p as int));
    } else {
        assert(is_desc(nodes, i as int, i as int));
    }
}

proof fn lemma_in_reach_top(nodes: Seq<Node>, i: int, m: int)
    requires
        graph_wf(nodes),
        0 <= i,
        in_reach(nodes, i, m, nodes.len() as int),
    ensures
        m == i,
{
    if m != i {
        lemma_toward(nodes, i, m);
    }
}

proof fn lemma_in_reach_own(nodes: Seq<Node>, i: int, m: int)
    requires
        graph_wf(nodes),
        0 <= i,
        is_desc(nodes, i, m),
    ensures
        in_reach(nodes, i, m, i + 1),
{
    if m != i {
        lemma_toward(nodes, i, m);
    }
}

/// Handing the information of `k` to its source widens what the source reaches by exactly
/// the nodes that `k` reaches; every other node reaches the same.
proof fn lemma_in_reach_step(nodes: Seq<Node>, i: usize, m: int, k: int)
    requires
        graph_wf(nodes),
        i < nodes.len(),
        0 <= k < nodes.len(),
    ensures
        in_reach(nodes, i as int, m, k) <==> in_reach(nodes, i as int, m, k + 1) || (nodes[k].source == Some(i)
            && is_desc(nodes, k, m)),
{
    if nodes[k].source == Some(i) && is_desc(nodes, k, m) {
        lemma_toward_child(nodes, i, k, m);
    }
    if in_reach(nodes, i as int, m, k) && !in_reach(nodes, i as int, m, k + 1) {
        lemma_toward(nodes, i as int, m);
        assert(toward(nodes, i as int, m) == k);
    }
}

proof fn lemma_merge_reach(
    nodes: Seq<Node>,
    p: usize,
    k: int,
    c: NodeCheck,
    a: Option<NodeId>,
    b: Option<NodeId>,
)
    requires
        graph_wf(nodes),
        p < nodes.len(),
        0 <= k < nodes.len(),
        nodes[k].source == Some(p),
        reach_ok(nodes, p as int, k + 1, c, a),
        reach_ok(nodes, k, k + 1, c, b),
    ensures
        reach_ok(nodes, p as int, k, c, opt_or(a, b)),
{
    match a {
        Some(m) => {
            lemma_in_reach_step(nodes, p, m as int, k);
        },
        None => match b {
            Some(m) => {
                lemma_in_reach_step(nodes, p, m as int, k);
            },
            None => {
                assert forall|m: int| 0 <= m < nodes.len() && #[trigger] in_reach(nodes, p as int, m, k) implies !check_holds(
                    c,
                    nodes[m].kind,
                ) by {
                    lemma_in_reach_step(nodes, p, m, k);
                    if !in_reach(nodes, p as int, m, k + 1) {
                        lemma_in_reach_own(nodes, k, m);
                    }
                }
            },
        },
    }
}

proof fn lemma_merge_summarizes(nodes: Seq<Node>, p: usize, k: int, fp: GraphTraverseInfo, fk: GraphTraverseInfo)
    requires
        graph_wf(nodes),
        p < nodes.len(),
        0 <= k < nodes.len(),
        nodes[k].source == Some(p),
        summarizes(nodes, p as int, fp, k + 1),
        summarizes(nodes, k, fk, k + 1),
    ensures
        summarizes(nodes, p as int, merge_info(fp, fk), k),
{
    let r = merge_info(fp, fk);
    lemma_merge_reach(nodes, p, k, NodeCheck::Mutation, fp.flows_to_store, fk.flows_to_store);
    lemma_merge_reach(nodes, p, k, NodeCheck::Load, fp.flows_to_load, fk.flows_to_load);
    lemma_merge_reach(nodes, p, k, NodeCheck::PosOffset, fp.flows_to_pos_offset, fk.flows_to_pos_offset);
    lemma_merge_reach(nodes, p, k, NodeCheck::NegOffset, fp.flows_to_neg_offset, fk.flows_to_neg_offset);
    let x = r.last_descendent->Some_0;
    lemma_in_reach_step(nodes, p, fp.last_descendent->Some_0 as int, k);
    lemma_in_reach_step(nodes, p, fk.last_descendent->Some_0 as int, k);
    assert forall|m: int| #[trigger] in_reach(nodes, p as int, m, k) implies m <= x by {
        lemma_in_reach_step(nodes, p, m, k);
        if !in_reach(nodes, p as int, m, k + 1) {
            lemma_in_reach_own(nodes, k, m);
        }
    }
}

proof fn lemma_summary_stays(nodes: Seq<Node>, i: usize, k: int, f: GraphTraverseInfo)
    requires
        graph_wf(nodes),
        i < nodes.len(),
        0 <= k < nodes.len(),
        nodes[k].source != Some(i),
        summarizes(nodes, i as int, f, k + 1),
    ensures
        summarizes(nodes, i as int, f, k),
{
    assert forall|m: int| #[trigger] in_reach(nodes, i as int, m, k) == in_reach(nodes, i as int, m, k + 1) by {
        lemma_in_reach_step(nodes, i, m, k);
    }
}

proof fn lemma_summary_init(nodes: Seq<Node>, i: usize)
    requires
        graph_wf(nodes),
        i < nodes.len(),
    ensures
        summarizes(nodes, i as int, init_info(i, nodes[i as int]), nodes.len() as int),
{
    assert(in_reach(nodes, i as int, i as int, nodes.len() as int));
    assert forall|m: int| #[trigger] in_reach(nodes, i as int, m, nodes.len() as int) implies m == i by {
        lemma_in_reach_top(nodes, i as int, m);
    }
}

/// From index 0 on, the nodes in reach of `i` are `i` and all its descendants.
pub proof fn lemma_reach_from_start(nodes: Seq<Node>, i: int, m: int)
    requires
        graph_wf(nodes),
        0 <= i,
    ensures
        in_reach(nodes, i, m, 0) == is_desc(nodes, i, m),
{
    if is_desc(nodes, i, m) && m != i {
        lemma_toward(nodes, i, m);
    }
}

} // verus!
