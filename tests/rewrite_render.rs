use c2rust_analyze::rewrite::{LifetimeName, Mutability, Rewrite, Span};

fn identity() -> Box<Rewrite> {
    Box::new(Rewrite::Identity)
}

fn ref_(rw: Box<Rewrite>) -> Box<Rewrite> {
    Box::new(Rewrite::Ref(rw, Mutability::Not))
}

fn index(arr: Box<Rewrite>, idx: Box<Rewrite>) -> Box<Rewrite> {
    Box::new(Rewrite::Index(arr, idx))
}

fn cast_usize(rw: Box<Rewrite>) -> Box<Rewrite> {
    Box::new(Rewrite::Cast(rw, "usize".to_owned()))
}

fn span(lo: usize, hi: usize) -> Span {
    Span { file: 0, lo, hi }
}

/// Test precedence handling in `Rewrite::pretty`
#[test]
fn rewrite_pretty_precedence() {
    // Ref vs Index
    assert_eq!(ref_(index(identity(), identity())).to_string(), "&$e[$e]",);

    assert_eq!(
        index(ref_(identity()), ref_(identity())).to_string(),
        "(&$e)[&$e]",
    );

    // Ref vs Cast
    assert_eq!(cast_usize(ref_(identity())).to_string(), "&$e as usize",);

    assert_eq!(ref_(cast_usize(identity())).to_string(), "&($e as usize)",);

    // Cast vs Index
    assert_eq!(
        cast_usize(index(identity(), identity())).to_string(),
        "$e[$e] as usize",
    );

    assert_eq!(
        index(cast_usize(identity()), cast_usize(identity())).to_string(),
        "($e as usize)[$e as usize]",
    );

    // Index vs Index
    assert_eq!(
        index(index(identity(), identity()), identity()).to_string(),
        "$e[$e][$e]",
    );
}

#[test]
fn pretty_deref_and_slice_tail() {
    let rw = Rewrite::Deref(Box::new(Rewrite::SliceTail(identity(), cast_usize(identity()))));
    assert_eq!(rw.to_string(), "*$e[($e as usize) ..]");
    let rw = index(Box::new(Rewrite::Deref(identity())), Box::new(Rewrite::LitZero));
    assert_eq!(rw.to_string(), "(*$e)[0]");
}

#[test]
fn pretty_placeholders_and_calls() {
    let rw = Rewrite::Call(
        "f".to_owned(),
        vec![Rewrite::Sub(0, span(1, 2)), Rewrite::Sub(12, span(3, 4))],
    );
    assert_eq!(rw.to_string(), "f($0,$12)");
    let rw = Rewrite::MethodCall("len".to_owned(), identity(), vec![]);
    assert_eq!(rw.to_string(), "$e.len()");
    let rw = Rewrite::MethodCall("m".to_owned(), cast_usize(identity()), vec![]);
    assert_eq!(rw.to_string(), "($e as usize).m()");
    let rw = Rewrite::MethodCall("m".to_owned(), index(identity(), identity()), vec![]);
    assert_eq!(rw.to_string(), "$e[$e].m()");
    let rw = Rewrite::AddrOf(identity(), Mutability::Mut);
    assert_eq!(rw.to_string(), "core::ptr::addr_of_mut!($e)");
}

#[test]
fn pretty_type_builders() {
    let rw = Rewrite::TyRef(
        LifetimeName::Explicit("'a".to_owned()),
        Box::new(Rewrite::TySlice(Box::new(Rewrite::PrintTy("u8".to_owned())))),
        Mutability::Mut,
    );
    assert_eq!(rw.to_string(), "&'a mut [u8]");
    let rw = Rewrite::TyPtr(Box::new(Rewrite::Sub(0, span(0, 1))), Mutability::Not);
    assert_eq!(rw.to_string(), "*const $0");
    let rw = Rewrite::TyCtor(
        "Foo".to_owned(),
        vec![Rewrite::PrintTy("'h0".to_owned()), Rewrite::PrintTy("T".to_owned())],
    );
    assert_eq!(rw.to_string(), "Foo<'h0, T>");
    let rw = Rewrite::TyParams(vec![Rewrite::PrintTy("'a".to_owned())]);
    assert_eq!(rw.to_string(), "<'a>");
    let rw = Rewrite::StaticMut(Mutability::Mut, span(0, 1));
    assert_eq!(rw.to_string(), "static (+mut) $s");
}
