//! Written types, as they stand in the source, and their matching against resolved types.
use vstd::prelude::*;

use crate::rewrite::{Mutability, Span};
use crate::types::{kind_arity_ok, PrimTy, TyKind};

verus! {

broadcast use {vstd::std_specs::vec::group_vec_axioms, vstd::seq::group_seq_axioms};

/// What a path in a type resolves to.
#[derive(Clone, Copy, PartialEq, Eq, Debug, Structural)]
pub enum Res {
    /// A primitive type such as `u8`.
    PrimTy(PrimTy),
    /// A definition: a struct, an enum, a type alias, a type parameter, ...
    Def,
}

/// A generic argument written on the last segment of a path.
#[derive(Debug)]
pub enum GenericArg {
    Lifetime,
    Type(HirTy),
    Const,
}

/// A resolved path, with the generic arguments of its last segment, if any were written.
#[derive(Debug)]
pub struct HirPath {
    pub res: Res,
    pub args: Option<Vec<GenericArg>>,
}

/// The shape of a written type.
#[derive(Debug)]
pub enum HirTyKind {
    Path(HirPath),
    /// `[T; n]`
    Array(Box<HirTy>),
    /// `[T]`
    Slice(Box<HirTy>),
    /// `*const T`, `*mut T`
    Ptr(Box<HirTy>, Mutability),
    /// `&T`, `&mut T`, with or without a lifetime
    Rptr(Box<HirTy>, Mutability),
    /// `(A, B, ...)`
    Tup(Vec<HirTy>),
    /// `_`
    Infer,
    /// Any other written type: a type-relative path, a function pointer, ...
    Other,
}

/// A written type and the source range of its text.
#[derive(Debug)]
pub struct HirTy {
    pub kind: HirTyKind,
    pub span: Span,
}

/// The types among `args`, in order.
pub open spec fn type_args_of(args: Seq<GenericArg>) -> Seq<HirTy>
    decreases args.len(),
{
    if args.len() == 0 {
        Seq::empty()
    } else {
        let init = type_args_of(args.drop_last());
        match args.last() {
            GenericArg::Type(t) => init.push(t),
            _ => init,
        }
    }
}

/// The type arguments written on the last segment of the path `h`; none when `h` is not a
/// path or its last segment has no generic arguments.
pub open spec fn written_type_args(h: HirTy) -> Option<Seq<HirTy>> {
    match h.kind {
        HirTyKind::Path(p) => match p.args {
            Some(a) => Some(type_args_of(a@)),
            None => None,
        },
        _ => None,
    }
}

/// `h` is a path to the primitive type `expect`.
pub open spec fn is_prim(expect: PrimTy, h: HirTy) -> bool {
    match h.kind {
        HirTyKind::Path(p) => p.res == Res::PrimTy(expect),
        _ => false,
    }
}

/// The written arguments of `h` when it has the shape of a resolved type with constructor
/// `kind` and `n_args` type arguments; none when the shapes differ.
pub open spec fn hir_args_spec(kind: TyKind, n_args: nat, h: HirTy) -> Option<Seq<HirTy>> {
    match kind {
        TyKind::Prim(p) => if is_prim(p, h) {
            Some(Seq::empty())
        } else {
            None
        },
        TyKind::Array(_) => match h.kind {
            HirTyKind::Array(a) => Some(seq![*a]),
            _ => None,
        },
        TyKind::Slice => match h.kind {
            HirTyKind::Slice(a) => Some(seq![*a]),
            _ => None,
        },
        TyKind::RawPtr(m) => match h.kind {
            HirTyKind::Ptr(a, hm) => if hm == m {
                Some(seq![*a])
            } else {
                None
            },
            _ => None,
        },
        TyKind::Ref(m) => match h.kind {
            HirTyKind::Rptr(a, hm) => if hm == m {
                Some(seq![*a])
            } else {
                None
            },
            _ => None,
        },
        TyKind::Tuple => match h.kind {
            HirTyKind::Tup(ts) => if ts@.len() == n_args {
                Some(ts@)
            } else {
                None
            },
            _ => None,
        },
        // Resolved arguments beyond the written ones are hidden defaulted parameters, such as
        // the allocator of `Vec`.
        TyKind::Adt(_) => match written_type_args(h) {
            Some(v) => if v.len() <= n_args {
                Some(v)
            } else {
                None
            },
            None => None,
        },
        TyKind::Other(_) => None,
    }
}

/// The types held by `v`.
pub open spec fn deref_all(v: Seq<&HirTy>) -> Seq<HirTy> {
    v.map_values(|r: &HirTy| *r)
}

/// The type arguments written on the last segment of the path `ty`.
pub fn extract_type_arg_tys<'a>(ty: &'a HirTy) -> (r: Option<Vec<&'a HirTy>>)
    ensures
        match written_type_args(*ty) {
            Some(v) => r is Some && deref_all(r->Some_0@) == v,
            None => r is None,
        },
{
    match &ty.kind {
        HirTyKind::Path(p) => match &p.args {
            Some(args) => {
                let mut out: Vec<&'a HirTy> = Vec::new();
                let mut i: usize = 0;
                assert(deref_all(out@) =~= type_args_of(args@.take(0)));
                while i < args.len()
                    invariant
                        i <= args@.len(),
                        deref_all(out@) =~= type_args_of(args@.take(i as int)),
                    decreases args@.len() - i,
                {
                    assert(args@.take(i as int + 1).drop_last() =~= args@.take(i as int));
                    if let GenericArg::Type(t) = &args[i] {
                        out.push(t);
                    }
                    i = i + 1;
                }
                assert(args@.take(i as int) =~= args@);
                Some(out)
            },
            None => None,
        },
        _ => None,
    }
}

/// An empty match for a primitive `expect` when `hir_ty` is a path to it.
fn do_prim<'a>(expect: PrimTy, hir_ty: &HirTy) -> (r: Option<Vec<&'a HirTy>>)
    ensures
        is_prim(expect, *hir_ty) ==> r is Some && r->Some_0@.len() == 0,
        !is_prim(expect, *hir_ty) ==> r is None,
{
    match &hir_ty.kind {
        HirTyKind::Path(p) => if p.res == Res::PrimTy(expect) {
            Some(Vec::new())
        } else {
            None
        },
        _ => None,
    }
}

/// The written arguments of `hir_ty` when it has the shape of a resolved type with
/// constructor `kind` and `n_args` type arguments. `None` when the shapes differ (for
/// example, `hir_ty` is `_` or a type alias).
pub fn deconstruct_hir_ty<'a>(kind: &TyKind, n_args: usize, hir_ty: &'a HirTy) -> (r: Option<
    Vec<&'a HirTy>,
>)
    ensures
        match hir_args_spec(*kind, n_args as nat, *hir_ty) {
            Some(v) => r is Some && deref_all(r->Some_0@) == v,
            None => r is None,
        },
{
    let r = match kind {
        TyKind::Prim(p) => do_prim(*p, hir_ty),
        TyKind::Array(_) => match &hir_ty.kind {
            HirTyKind::Array(a) => Some(vec![&**a]),
            _ => None,
        },
        TyKind::Slice => match &hir_ty.kind {
            HirTyKind::Slice(a) => Some(vec![&**a]),
            _ => None,
        },
        TyKind::RawPtr(m) => match &hir_ty.kind {
            HirTyKind::Ptr(a, hm) => if *hm == *m {
                Some(vec![&**a])
            } else {
                None
            },
            _ => None,
        },
        TyKind::Ref(m) => match &hir_ty.kind {
            HirTyKind::Rptr(a, hm) => if *hm == *m {
                Some(vec![&**a])
            } else {
                None
            },
            _ => None,
        },
        TyKind::Tuple => match &hir_ty.kind {
            HirTyKind::Tup(ts) => if ts.len() == n_args {
                let mut out: Vec<&'a HirTy> = Vec::new();
                let mut i: usize = 0;
                while i < ts.len()
                    invariant
                        i <= ts@.len(),
                        deref_all(out@) =~= ts@.take(i as int),
                    decreases ts@.len() - i,
                {
                    let ghost prev = out@;
                    out.push(&ts[i]);
                    assert(out@ == prev.push(&ts[i as int]));
                    assert(deref_all(out@) =~= deref_all(prev).push(ts@[i as int]));
                    assert(ts@.take(i as int + 1) =~= ts@.take(i as int).push(ts@[i as int]));
                    i = i + 1;
                }
                assert(ts@.take(i as int) =~= ts@);
                Some(out)
            } else {
                None
            },
            _ => None,
        },
        TyKind::Adt(_) => match extract_type_arg_tys(hir_ty) {
            Some(type_args) => if type_args.len() <= n_args {
                Some(type_args)
            } else {
                None
            },
            None => None,
        },
        TyKind::Other(_) => None,
    };
    proof {
        if r is Some && hir_args_spec(*kind, n_args as nat, *hir_ty) is Some {
            assert(deref_all(r->Some_0@) =~= hir_args_spec(*kind, n_args as nat, *hir_ty)->Some_0);
        }
    }
    r
}

/// Matching a written type against a resolved type of fixed arity gives exactly one written
/// argument for each resolved argument.
pub proof fn lemma_decomposition_totality(kind: TyKind, n_args: nat, h: HirTy)
    requires
        kind_arity_ok(kind, n_args),
        !(kind is Adt),
        hir_args_spec(kind, n_args, h) is Some,
    ensures
        hir_args_spec(kind, n_args, h)->Some_0.len() == n_args,
{
}

} // verus!
