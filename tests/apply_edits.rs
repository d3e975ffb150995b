use c2rust_analyze::apply::{apply_rewrites, elide_check_directive, ApplyError};
use c2rust_analyze::rewrite::{Mutability, Rewrite, Span};

fn chars(s: &str) -> Vec<char> {
    s.chars().collect()
}

fn text(v: &[char]) -> String {
    v.iter().collect()
}

fn span(lo: usize, hi: usize) -> Span {
    Span { file: 0, lo, hi }
}

#[test]
fn identity_edits_keep_text() {
    let src = chars("let y = a[i] + b;");
    let edits = vec![
        (span(8, 12), Rewrite::Identity),
        (span(10, 11), Rewrite::Identity),
        (span(15, 16), Rewrite::Identity),
    ];
    let out = apply_rewrites(&src, 0, &edits).unwrap();
    assert_eq!(text(&out), "let y = a[i] + b;");
}

#[test]
fn edit_replaces_its_range() {
    let src = chars("let y = p;");
    let edits = vec![(span(8, 9), Rewrite::Ref(Box::new(Rewrite::Identity), Mutability::Mut))];
    let out = apply_rewrites(&src, 0, &edits).unwrap();
    assert_eq!(text(&out), "let y = &mut p;");
}

#[test]
fn nested_edits_resolve_through_placeholders() {
    // `a[i]` becomes `&a[i as usize]`: the outer edit keeps its child `i`, which is edited too.
    let src = chars("f(a[i]);");
    let edits = vec![
        (
            span(2, 6),
            Rewrite::Ref(
                Box::new(Rewrite::Index(
                    Box::new(Rewrite::Sub(0, span(2, 3))),
                    Box::new(Rewrite::Sub(1, span(4, 5))),
                )),
                Mutability::Not,
            ),
        ),
        (span(4, 5), Rewrite::Cast(Box::new(Rewrite::Identity), "usize".to_owned())),
    ];
    let out = apply_rewrites(&src, 0, &edits).unwrap();
    assert_eq!(text(&out), "f(&a[i as usize]);");
}

#[test]
fn edits_of_other_files_are_ignored() {
    let src = chars("x");
    let edits = vec![(Span { file: 1, lo: 0, hi: 1 }, Rewrite::LitZero)];
    let out = apply_rewrites(&src, 0, &edits).unwrap();
    assert_eq!(text(&out), "x");
}

#[test]
fn overlapping_edits_are_rejected() {
    let src = chars("abcdef");
    let crossing = vec![(span(0, 3), Rewrite::LitZero), (span(2, 5), Rewrite::LitZero)];
    assert_eq!(apply_rewrites(&src, 0, &crossing), Err(ApplyError::Overlap(0, 1)));
    let same = vec![(span(1, 2), Rewrite::LitZero), (span(4, 5), Rewrite::LitZero), (span(1, 2), Rewrite::LitZero)];
    assert_eq!(apply_rewrites(&src, 0, &same), Err(ApplyError::Overlap(0, 2)));
    let disjoint = vec![(span(0, 2), Rewrite::LitZero), (span(2, 4), Rewrite::LitZero)];
    assert_eq!(text(&apply_rewrites(&src, 0, &disjoint).unwrap()), "00ef");
}

#[test]
fn bad_ranges_are_rejected() {
    let src = chars("abc");
    let past_end = vec![(span(1, 4), Rewrite::LitZero)];
    assert_eq!(apply_rewrites(&src, 0, &past_end), Err(ApplyError::BadRange(0)));
    let reversed = vec![(span(0, 1), Rewrite::LitZero), (span(2, 1), Rewrite::LitZero)];
    assert_eq!(apply_rewrites(&src, 0, &reversed), Err(ApplyError::BadRange(1)));
}

#[test]
fn placeholder_outside_its_edit_is_rejected() {
    let src = chars("abcdef");
    let edits = vec![(span(0, 2), Rewrite::Sub(0, span(3, 4)))];
    assert_eq!(apply_rewrites(&src, 0, &edits), Err(ApplyError::BadSub));
}

#[test]
fn check_directives_are_elided() {
    assert_eq!(elide_check_directive("let x = 1; // CHECK: foo"), "let x = 1; // (FileCheck directive omitted)");
    assert_eq!(elide_check_directive("let x = 1; // check"), "let x = 1; // check");
}

#[test]
fn insertions_add_text() {
    let src = chars("struct S { x: T }");
    let edits = vec![(span(8, 8), Rewrite::TyParams(vec![Rewrite::PrintTy("'h0".to_owned())]))];
    assert_eq!(text(&apply_rewrites(&src, 0, &edits).unwrap()), "struct S<'h0> { x: T }");
    let at_end = vec![(span(17, 17), Rewrite::PrintTy(";".to_owned()))];
    assert_eq!(text(&apply_rewrites(&src, 0, &at_end).unwrap()), "struct S { x: T };");
    let inside = vec![
        (span(11, 15), Rewrite::Ref(Box::new(Rewrite::Identity), Mutability::Not)),
        (span(12, 12), Rewrite::PrintTy("y".to_owned())),
    ];
    assert_eq!(text(&apply_rewrites(&src, 0, &inside).unwrap()), "struct S { &xy: T }");
}

#[test]
fn insertions_at_an_edge_lie_outside() {
    let src = chars("abcdef");
    let before = vec![(span(1, 3), Rewrite::LitZero), (span(1, 1), Rewrite::PrintTy("x".to_owned()))];
    assert_eq!(text(&apply_rewrites(&src, 0, &before).unwrap()), "ax0def");
    let after = vec![(span(1, 3), Rewrite::LitZero), (span(3, 3), Rewrite::PrintTy("x".to_owned()))];
    assert_eq!(text(&apply_rewrites(&src, 0, &after).unwrap()), "a0xdef");
    let kept = vec![(span(0, 1), Rewrite::Identity), (span(1, 1), Rewrite::Identity)];
    assert_eq!(text(&apply_rewrites(&chars("ab"), 0, &kept).unwrap()), "ab");
    let twice = vec![(span(4, 4), Rewrite::LitZero), (span(4, 4), Rewrite::LitZero)];
    assert_eq!(apply_rewrites(&src, 0, &twice), Err(ApplyError::Overlap(0, 1)));
}
