use c2rust_analyze::rewrite::Span;
use c2rust_analyze::span_index::{build_span_index, BasicBlockData, Body, Location, SoleLocationError};

fn span(lo: usize, hi: usize) -> Span {
    Span { file: 0, lo, hi }
}

#[test]
fn index_finds_sole_and_shared_ranges() {
    let body = Body {
        basic_blocks: vec![
            BasicBlockData { statement_spans: vec![span(0, 5), span(6, 9)], terminator_span: span(6, 9) },
            BasicBlockData { statement_spans: vec![], terminator_span: span(10, 12) },
        ],
    };
    let index = build_span_index(&body);
    assert_eq!(index.items.len(), 4);
    match index.lookup_sole(span(0, 5)) {
        Ok(loc) => assert_eq!(loc, Location { block: 0, statement_index: 0 }),
        Err(_) => panic!("expected one location"),
    }
    match index.lookup_sole(span(10, 12)) {
        Ok(loc) => assert_eq!(loc, Location { block: 1, statement_index: 0 }),
        Err(_) => panic!("expected one location"),
    }
    match index.lookup_sole(span(6, 9)) {
        Err(SoleLocationError::MultiMatch(v)) => assert_eq!(
            v,
            vec![Location { block: 0, statement_index: 1 }, Location { block: 0, statement_index: 2 }]
        ),
        _ => panic!("expected several locations"),
    }
    assert!(matches!(index.lookup_sole(span(1, 2)), Err(SoleLocationError::NoMatch)));
}
