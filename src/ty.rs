//! Rewriting of written types. Each resolved type is first relabelled with the rewrite
//! decisions of its pointers; the written type is then matched against it shape by shape.
//! Where the shapes differ (a type alias, `_`), the written type is replaced as a whole by
//! the printed rewritten type.
use vstd::prelude::*;

use crate::hir::{deconstruct_hir_ty, deref_all, hir_args_spec, lemma_decomposition_totality, HirTy, HirTyKind};
use crate::rewrite::{decimal, push_decimal, LifetimeName, Mutability, Rewrite, Span};
use crate::types::{
    lemma_ltys_wf, lemma_rws_wf, lemma_texts_len, lty_wf, print_ty, print_tys, rw_wf, texts, ty_text,
    ty_texts, AdtDef, LTy, OriginArg, OriginParam, Ownership, Quantity, RewriteLabel, RwLTy, TyKind,
};

verus! {

broadcast use {vstd::std_specs::vec::group_vec_axioms, vstd::seq::group_seq_axioms};

/// What is known of an aggregate type defined in the program: its lifetime parameters after
/// rewriting.
#[derive(Debug)]
pub struct AdtMetadata {
    pub lifetime_params: Vec<OriginParam>,
}

/// The metadata of the program's aggregate types, indexed by `AdtDef::local`.
#[derive(Debug)]
pub struct AdtMetadataTable {
    pub table: Vec<AdtMetadata>,
}

/// The lifetimes inferred for the positions of a type: `label` holds one entry at a pointer
/// or reference position, `args` mirror the type's arguments.
#[derive(Debug)]
pub struct OriginTree {
    pub label: Vec<OriginArg>,
    pub args: Vec<OriginTree>,
}

/// The metadata of the aggregate type `kind`, when it is one of the program's own.
pub open spec fn adt_metadata_of(kind: TyKind, adts: AdtMetadataTable) -> Option<AdtMetadata> {
    match kind {
        TyKind::Adt(def) => match def.local {
            Some(i) => if i < adts.table@.len() {
                Some(adts.table@[i as int])
            } else {
                None
            },
            None => None,
        },
        _ => None,
    }
}

pub open spec fn has_hypothetical_param(params: Seq<OriginParam>) -> bool {
    exists|i: int| 0 <= i < params.len() && #[trigger] params[i] is Hypothetical
}

/// The type `child` introduces a new lifetime: on its own pointer, or as a parameter of
/// its aggregate type.
pub open spec fn has_lifetime_rewrites(child: RwLTy, adts: AdtMetadataTable) -> bool {
    let has_pointer_lifetime = match child.label.lifetime {
        Some(OriginArg::Hypothetical(_)) => true,
        _ => false,
    };
    let has_adt_lifetime = match adt_metadata_of(child.kind, adts) {
        Some(m) => has_hypothetical_param(m.lifetime_params@),
        None => false,
    };
    has_adt_lifetime || has_pointer_lifetime
}

/// The type `child`, or one of its descendants, is to be rewritten.
pub open spec fn child_needs_rewrite(child: RwLTy, adts: AdtMetadataTable) -> bool {
    child.label.ty_desc is Some || child.label.descendant_has_rewrite || has_lifetime_rewrites(
        child,
        adts,
    )
}

/// The label of a position with pointer identifier `pointer`, already relabelled children
/// `args` and lifetime `lifetime`.
pub open spec fn label_ok(
    label: RewriteLabel,
    pointer: Option<usize>,
    args: Seq<RwLTy>,
    descs: Seq<(Ownership, Quantity)>,
    lifetime: Option<OriginArg>,
    adts: AdtMetadataTable,
) -> bool {
    &&& label.ty_desc == match pointer {
        Some(p) => Some(descs[p as int]),
        None => None,
    }
    &&& label.descendant_has_rewrite == exists|i: int|
        0 <= i < args.len() && child_needs_rewrite(#[trigger] args[i], adts)
    &&& label.lifetime == lifetime
}

/// The lifetime recorded at the root of `origins`: its sole entry, if it has exactly one.
pub open spec fn root_lifetime(origins: Option<OriginTree>) -> Option<OriginArg> {
    match origins {
        Some(t) => if t.label@.len() == 1 {
            Some(t.label@[0])
        } else {
            None
        },
        None => None,
    }
}

/// The lifetimes of the `i`-th argument position of `origins`.
pub open spec fn child_origins(origins: Option<OriginTree>, i: int) -> Option<OriginTree> {
    match origins {
        Some(t) => if 0 <= i < t.args@.len() {
            Some(t.args@[i])
        } else {
            None
        },
        None => None,
    }
}

/// `rw` is `lty` with each position labelled by its decision, the lifetime that `origins`
/// gives it, and whether a descendant needs rewriting.
pub open spec fn relabeled(
    lty: LTy,
    origins: Option<OriginTree>,
    rw: RwLTy,
    descs: Seq<(Ownership, Quantity)>,
    adts: AdtMetadataTable,
) -> bool
    decreases lty, 1nat,
{
    &&& rw.kind == lty.kind
    &&& relabeled_args(lty.args@, origins, rw.args@, descs, adts)
    &&& label_ok(rw.label, lty.label, rw.args@, descs, root_lifetime(origins), adts)
}

/// Position by position, `rws` are `ltys` relabelled, with the lifetimes of the argument
/// positions of `origins`.
pub open spec fn relabeled_args(
    ltys: Seq<LTy>,
    origins: Option<OriginTree>,
    rws: Seq<RwLTy>,
    descs: Seq<(Ownership, Quantity)>,
    adts: AdtMetadataTable,
) -> bool
    decreases ltys, 0nat,
{
    &&& rws.len() == ltys.len()
    &&& ltys.len() > 0 ==> {
        &&& relabeled_args(ltys.drop_last(), origins, rws.drop_last(), descs, adts)
        &&& relabeled(
            ltys.last(),
            child_origins(origins, ltys.len() - 1),
            rws.last(),
            descs,
            adts,
        )
    }
}

pub proof fn lemma_relabeled_args(
    ltys: Seq<LTy>,
    origins: Option<OriginTree>,
    rws: Seq<RwLTy>,
    descs: Seq<(Ownership, Quantity)>,
    adts: AdtMetadataTable,
)
    ensures
        relabeled_args(ltys, origins, rws, descs, adts) <==> {
            &&& rws.len() == ltys.len()
            &&& forall|i: int|
                0 <= i < ltys.len() ==> #[trigger] relabeled(
                    ltys[i],
                    child_origins(origins, i),
                    rws[i],
                    descs,
                    adts,
                )
        },
    decreases ltys.len(),
{
    if ltys.len() > 0 && rws.len() == ltys.len() {
        let li = ltys.drop_last();
        let ri = rws.drop_last();
        lemma_relabeled_args(li, origins, ri, descs, adts);
        if relabeled_args(ltys, origins, rws, descs, adts) {
            assert forall|i: int| 0 <= i < ltys.len() implies #[trigger] relabeled(
                ltys[i],
                child_origins(origins, i),
                rws[i],
                descs,
                adts,
            ) by {
                if i < ltys.len() - 1 {
                    assert(li[i] == ltys[i] && ri[i] == rws[i]);
                }
            }
        }
        if forall|i: int|
            0 <= i < ltys.len() ==> #[trigger] relabeled(
                ltys[i],
                child_origins(origins, i),
                rws[i],
                descs,
                adts,
            ) {
            assert forall|i: int| 0 <= i < li.len() implies #[trigger] relabeled(
                li[i],
                child_origins(origins, i),
                ri[i],
                descs,
                adts,
            ) by {
                assert(li[i] == ltys[i] && ri[i] == rws[i]);
            }
            let k = ltys.len() - 1;
            assert(relabeled(ltys[k], child_origins(origins, k), rws[k], descs, adts));
        }
    }
}

/// A relabelled well-formed type is well formed.
pub proof fn lemma_relabeled_wf(
    lty: LTy,
    origins: Option<OriginTree>,
    rw: RwLTy,
    descs: Seq<(Ownership, Quantity)>,
    adts: AdtMetadataTable,
)
    requires
        lty_wf(lty, descs.len()),
        relabeled(lty, origins, rw, descs, adts),
    ensures
        rw_wf(rw),
    decreases lty,
{
    lemma_ltys_wf(lty.args@, descs.len());
    lemma_relabeled_args(lty.args@, origins, rw.args@, descs, adts);
    assert forall|i: int| 0 <= i < rw.args@.len() implies #[trigger] rw_wf(rw.args@[i]) by {
        assert(decreases_to!(lty => lty.args));
        assert(decreases_to!(lty.args => lty.args@));
        assert(decreases_to!(lty.args@ => lty.args@[i]));
        lemma_relabeled_wf(lty.args@[i], child_origins(origins, i), rw.args@[i], descs, adts);
    }
    lemma_rws_wf(rw.args@);
}

fn copy_adt_def(d: &AdtDef) -> (r: AdtDef)
    ensures
        r == *d,
{
    AdtDef { path: d.path.clone(), local: d.local }
}

/// A copy of `k`.
pub fn copy_kind(k: &TyKind) -> (r: TyKind)
    ensures
        r == *k,
{
    match k {
        TyKind::Prim(p) => TyKind::Prim(*p),
        TyKind::Array(n) => TyKind::Array(*n),
        TyKind::Slice => TyKind::Slice,
        TyKind::RawPtr(m) => TyKind::RawPtr(*m),
        TyKind::Ref(m) => TyKind::Ref(*m),
        TyKind::Tuple => TyKind::Tuple,
        TyKind::Adt(d) => TyKind::Adt(copy_adt_def(d)),
        TyKind::Other(s) => TyKind::Other(s.clone()),
    }
}

fn copy_origin_arg(o: &OriginArg) -> (r: OriginArg)
    ensures
        r == *o,
{
    match o {
        OriginArg::Actual(s) => OriginArg::Actual(s.clone()),
        OriginArg::Hypothetical(h) => OriginArg::Hypothetical(*h),
    }
}

/// The metadata of the aggregate type `kind`, when it is one of the program's own.
fn lookup_adt<'a>(kind: &TyKind, adts: &'a AdtMetadataTable) -> (r: Option<&'a AdtMetadata>)
    ensures
        match adt_metadata_of(*kind, *adts) {
            Some(m) => r is Some && *r->Some_0 == m,
            None => r is None,
        },
{
    match kind {
        TyKind::Adt(def) => match def.local {
            Some(i) => if i < adts.table.len() {
                Some(&adts.table[i])
            } else {
                None
            },
            None => None,
        },
        _ => None,
    }
}

fn child_has_lifetime_rws(child: &RwLTy, adts: &AdtMetadataTable) -> (r: bool)
    ensures
        r == has_lifetime_rewrites(*child, *adts),
{
    let has_pointer_lifetime = match &child.label.lifetime {
        Some(OriginArg::Hypothetical(_)) => true,
        _ => false,
    };
    let has_adt_lifetime = match lookup_adt(&child.kind, adts) {
        Some(m) => {
            let params = &m.lifetime_params;
            let mut found = false;
            let mut i: usize = 0;
            while i < params.len()
                invariant
                    i <= params@.len(),
                    found == exists|j: int| 0 <= j < i && #[trigger] params@[j] is Hypothetical,
                decreases params@.len() - i,
            {
                if let OriginParam::Hypothetical(_) = &params[i] {
                    found = true;
                }
                i = i + 1;
            }
            found
        },
        None => false,
    };
    has_adt_lifetime || has_pointer_lifetime
}

/// The label of a position with pointer identifier `pointer`, relabelled children `args`
/// and lifetime `lifetime`.
fn create_rewrite_label(
    pointer: Option<usize>,
    args: &Vec<RwLTy>,
    descs: &Vec<(Ownership, Quantity)>,
    lifetime: Option<OriginArg>,
    adts: &AdtMetadataTable,
) -> (r: RewriteLabel)
    requires
        pointer is Some ==> pointer->Some_0 < descs@.len(),
    ensures
        label_ok(r, pointer, args@, descs@, lifetime, *adts),
{
    let ty_desc = match pointer {
        Some(p) => Some(descs[p]),
        None => None,
    };
    // `args` were already relabelled, so the direct children settle whether a descendant
    // needs rewriting.
    let mut descendant_has_rewrite = false;
    let mut i: usize = 0;
    while i < args.len()
        invariant
            i <= args@.len(),
            descendant_has_rewrite == exists|j: int|
                0 <= j < i && child_needs_rewrite(#[trigger] args@[j], *adts),
        decreases args@.len() - i,
    {
        let child = &args[i];
        if child.label.ty_desc.is_some() || child.label.descendant_has_rewrite
            || child_has_lifetime_rws(child, adts) {
            descendant_has_rewrite = true;
        }
        i = i + 1;
    }
    RewriteLabel { ty_desc, descendant_has_rewrite, lifetime }
}

/// `lty` with each position labelled by its decision and by the lifetime that `origins`
/// records for it.
fn relabel_with_origins(
    lty: &LTy,
    origins: Option<&OriginTree>,
    descs: &Vec<(Ownership, Quantity)>,
    adts: &AdtMetadataTable,
) -> (r: RwLTy)
    requires
        lty_wf(*lty, descs@.len()),
    ensures
        relabeled(
            *lty,
            match origins {
                Some(t) => Some(*t),
                None => None,
            },
            r,
            descs@,
            *adts,
        ),
    decreases lty,
{
    let ghost og = match origins {
        Some(t) => Some(*t),
        None => None::<OriginTree>,
    };
    proof {
        lemma_ltys_wf(lty.args@, descs@.len());
    }
    let mut args: Vec<RwLTy> = Vec::new();
    let mut i: usize = 0;
    while i < lty.args.len()
        invariant
            i <= lty.args@.len(),
            og == match origins {
                Some(t) => Some(*t),
                None => None::<OriginTree>,
            },
            lty_wf(*lty, descs@.len()),
            forall|j: int| 0 <= j < lty.args@.len() ==> #[trigger] lty_wf(lty.args@[j], descs@.len()),
            args@.len() == i,
            forall|j: int|
                0 <= j < i ==> #[trigger] relabeled(
                    lty.args@[j],
                    child_origins(og, j),
                    args@[j],
                    descs@,
                    *adts,
                ),
        decreases lty.args@.len() - i,
    {
        let sub_origins = match origins {
            Some(t) => if i < t.args.len() {
                Some(&t.args[i])
            } else {
                None
            },
            None => None,
        };
        assert(decreases_to!(lty.args => lty.args[i as int]));
        let a = relabel_with_origins(&lty.args[i], sub_origins, descs, adts);
        assert(match sub_origins {
            Some(t) => Some(*t),
            None => None,
        } == child_origins(og, i as int));
        let ghost prev = args@;
        args.push(a);
        assert forall|j: int| 0 <= j < i + 1 implies #[trigger] relabeled(
            lty.args@[j],
            child_origins(og, j),
            args@[j],
            descs@,
            *adts,
        ) by {
            if j < i {
                assert(args@[j] == prev[j]);
            }
        }
        i = i + 1;
    }
    proof {
        lemma_relabeled_args(lty.args@, og, args@, descs@, *adts);
    }
    let lifetime = match origins {
        Some(t) => if t.label.len() == 1 {
            Some(copy_origin_arg(&t.label[0]))
        } else {
            None
        },
        None => None,
    };
    let label = create_rewrite_label(lty.label, &args, descs, lifetime, adts);
    RwLTy { kind: copy_kind(&lty.kind), args, label }
}

/// `lty` with each pointer position labelled by its decision in `descs`, and with no
/// explicit lifetimes.
pub fn relabel_rewrites(descs: &Vec<(Ownership, Quantity)>, lty: &LTy, adt_metadata: &AdtMetadataTable) -> (r: RwLTy)
    requires
        lty_wf(*lty, descs@.len()),
    ensures
        relabeled(*lty, None, r, descs@, *adt_metadata),
        rw_wf(r),
{
    let r = relabel_with_origins(lty, None, descs, adt_metadata);
    proof {
        lemma_relabeled_wf(*lty, None, r, descs@, *adt_metadata);
    }
    r
}

/// The text of a lifetime argument: its name, or `'h` and a number for a new one.
pub open spec fn origin_arg_text(o: OriginArg) -> Seq<char> {
    match o {
        OriginArg::Actual(name) => name@,
        OriginArg::Hypothetical(h) => "'h"@ + decimal(h as nat),
    }
}

/// The text of a lifetime parameter: its name, or `'h` and a number for a new one.
pub open spec fn origin_param_text(o: OriginParam) -> Seq<char> {
    match o {
        OriginParam::Actual(name) => name@,
        OriginParam::Hypothetical(h) => "'h"@ + decimal(h as nat),
    }
}

/// The texts of the lifetime parameters `ps`.
pub open spec fn param_texts(ps: Seq<OriginParam>) -> Seq<Seq<char>> {
    ps.map_values(|p: OriginParam| origin_param_text(p))
}

pub fn origin_arg_to_string(o: &OriginArg) -> (r: String)
    ensures
        r@ == origin_arg_text(*o),
{
    match o {
        OriginArg::Actual(name) => name.clone(),
        OriginArg::Hypothetical(h) => {
            let mut s = String::new();
            s.append("'h");
            push_decimal(&mut s, *h);
            s
        },
    }
}

pub fn origin_param_to_string(o: &OriginParam) -> (r: String)
    ensures
        r@ == origin_param_text(*o),
{
    match o {
        OriginParam::Actual(name) => name.clone(),
        OriginParam::Hypothetical(h) => {
            let mut s = String::new();
            s.append("'h");
            push_decimal(&mut s, *h);
            s
        },
    }
}

/// One edit of a written type, as planned.
pub enum TyEdit {
    /// The pointer or reference at `span` re-expressed under `(own, qty)`, keeping the
    /// written pointee at `pointee` in place.
    Pointer {
        span: Span,
        own: Ownership,
        qty: Quantity,
        lifetime: Option<OriginArg>,
        pointee: Span,
    },
    /// The written type at `span` replaced as a whole by `text`.
    Whole { span: Span, text: Seq<char> },
    /// The aggregate type at `span` reprinted as `name<lifetimes, $0, $1, ..., hidden>`: its
    /// lifetime parameters, then each written type argument kept in place through a
    /// placeholder for its range in `subs`, then the printed arguments that were not written.
    Ctor { span: Span, name: Seq<char>, lifetimes: Seq<Seq<char>>, subs: Seq<Span>, hidden: Seq<Seq<char>> },
    /// The generic parameter list at `span` replaced by `<args>`.
    Params { span: Span, args: Seq<Seq<char>> },
}

/// `rws` are one printed type for each of `texts`.
pub open spec fn printed_all(rws: Seq<Rewrite>, texts: Seq<Seq<char>>) -> bool {
    &&& rws.len() == texts.len()
    &&& forall|i: int|
        0 <= i < rws.len() ==> (#[trigger] rws[i] is PrintTy && rws[i]->PrintTy_0@ == texts[i])
}

/// `a` holds the printed `lifetimes`, then a placeholder `Sub(i, subs[i])` for each `i`, then
/// the printed `hidden` arguments.
pub open spec fn ctor_args_ok(a: Seq<Rewrite>, lifetimes: Seq<Seq<char>>, subs: Seq<Span>, hidden: Seq<Seq<char>>) -> bool {
    &&& a.len() == lifetimes.len() + subs.len() + hidden.len()
    &&& forall|i: int| 0 <= i < lifetimes.len() ==> (#[trigger] a[i] is PrintTy && a[i]->PrintTy_0@ == lifetimes[i])
    &&& forall|i: int| 0 <= i < subs.len() ==> #[trigger] a[lifetimes.len() + i] == Rewrite::Sub(i as usize, subs[i])
    &&& forall|i: int|
        0 <= i < hidden.len() ==> (#[trigger] a[lifetimes.len() + subs.len() + i] is PrintTy
            && a[lifetimes.len() + subs.len() + i]->PrintTy_0@ == hidden[i])
}

/// The ranges of the written types `hs`.
pub open spec fn spans_of(hs: Seq<HirTy>) -> Seq<Span> {
    hs.map_values(|h: HirTy| h.span)
}

/// `rw` is the pointee placeholder, wrapped in `Cell` when `own` asks for it.
pub open spec fn cell_ok(rw: Rewrite, own: Ownership, pointee: Span) -> bool {
    if own == Ownership::Cell {
        match rw {
            Rewrite::TyCtor(name, args) => name@ == "core::cell::Cell"@ && args@.len() == 1
                && args@[0] == Rewrite::Sub(0, pointee),
            _ => false,
        }
    } else {
        rw == Rewrite::Sub(0, pointee)
    }
}

/// `rw` is `cell_ok`, wrapped in a slice when `qty` asks for more than one element.
pub open spec fn quantity_ok(rw: Rewrite, own: Ownership, qty: Quantity, pointee: Span) -> bool {
    match qty {
        Quantity::Single => cell_ok(rw, own, pointee),
        Quantity::Slice | Quantity::OffsetPtr => match rw {
            Rewrite::TySlice(inner) => cell_ok(*inner, own, pointee),
            _ => false,
        },
    }
}

/// `l` is the lifetime written for `lt`: elided when there is none.
pub open spec fn lifetime_ok(l: LifetimeName, lt: Option<OriginArg>) -> bool {
    match lt {
        None => l == LifetimeName::Elided,
        Some(o) => match l {
            LifetimeName::Explicit(s) => s@ == origin_arg_text(o),
            LifetimeName::Elided => false,
        },
    }
}

/// `rw` re-expresses a pointer to the written type at `pointee` under `(own, qty)`.
pub open spec fn pointer_rewrite_ok(
    rw: Rewrite,
    own: Ownership,
    qty: Quantity,
    lt: Option<OriginArg>,
    pointee: Span,
) -> bool {
    match (own, rw) {
        (Ownership::Raw, Rewrite::TyPtr(inner, Mutability::Not)) => quantity_ok(*inner, own, qty, pointee),
        (Ownership::RawMut, Rewrite::TyPtr(inner, Mutability::Mut)) => quantity_ok(*inner, own, qty, pointee),
        (Ownership::Imm, Rewrite::TyRef(l, inner, Mutability::Not)) => lifetime_ok(l, lt) && quantity_ok(*inner, own, qty, pointee),
        (Ownership::Cell, Rewrite::TyRef(l, inner, Mutability::Not)) => lifetime_ok(l, lt) && quantity_ok(*inner, own, qty, pointee),
        (Ownership::Mut, Rewrite::TyRef(l, inner, Mutability::Mut)) => lifetime_ok(l, lt) && quantity_ok(*inner, own, qty, pointee),
        _ => false,
    }
}

/// The edit `e` carries out `plan`.
pub open spec fn realizes(e: (Span, Rewrite), plan: TyEdit) -> bool {
    match plan {
        TyEdit::Pointer { span, own, qty, lifetime, pointee } => e.0 == span && pointer_rewrite_ok(
            e.1,
            own,
            qty,
            lifetime,
            pointee,
        ),
        TyEdit::Whole { span, text } => e.0 == span && e.1 is PrintTy && e.1->PrintTy_0@ == text,
        TyEdit::Ctor { span, name, lifetimes, subs, hidden } => e.0 == span && match e.1 {
            Rewrite::TyCtor(n, a) => n@ == name && ctor_args_ok(a@, lifetimes, subs, hidden),
            _ => false,
        },
        TyEdit::Params { span, args } => e.0 == span && match e.1 {
            Rewrite::TyParams(a) => printed_all(a@, args),
            _ => false,
        },
    }
}

/// `edits` are `before` followed by edits that carry out `plan`, one for one.
pub open spec fn realizes_all(edits: Seq<(Span, Rewrite)>, before: Seq<(Span, Rewrite)>, plan: Seq<TyEdit>) -> bool {
    &&& edits.len() == before.len() + plan.len()
    &&& edits.take(before.len() as int) == before
    &&& forall|k: int| 0 <= k < plan.len() ==> realizes(#[trigger] edits[before.len() + k], plan[k])
}

pub proof fn lemma_realizes_trans(
    a: Seq<(Span, Rewrite)>,
    b: Seq<(Span, Rewrite)>,
    c: Seq<(Span, Rewrite)>,
    p: Seq<TyEdit>,
    q: Seq<TyEdit>,
)
    requires
        realizes_all(b, a, p),
        realizes_all(c, b, q),
    ensures
        realizes_all(c, a, p + q),
{
    assert(c.take(a.len() as int) =~= b.take(a.len() as int));
    assert forall|k: int| 0 <= k < (p + q).len() implies realizes(#[trigger] c[a.len() + k], (p + q)[k]) by {
        if k < p.len() {
            assert(c[a.len() + k] == c.take(b.len() as int)[a.len() + k]);
        } else {
            assert(c[a.len() + k] == c[b.len() + (k - p.len())]);
        }
    }
}

pub proof fn lemma_realizes_empty(a: Seq<(Span, Rewrite)>)
    ensures
        realizes_all(a, a, Seq::empty()),
{
    assert(a.take(a.len() as int) =~= a);
}

/// The edit that reprints the aggregate type `rw`, written at `h` with written type arguments
/// `hargs`, with its lifetime parameters; none when it is not one of the program's own
/// aggregates. The written arguments stay in place through placeholders, so that their own
/// edits are applied inside this one; arguments that were not written are printed as they are.
pub open spec fn adt_ctor_plan(rw: RwLTy, h: HirTy, hargs: Seq<HirTy>, adts: AdtMetadataTable) -> Result<Seq<TyEdit>, Ownership> {
    match rw.kind {
        TyKind::Adt(def) => match adt_metadata_of(rw.kind, adts) {
            Some(m) => match ty_texts(rw.args@, false) {
                Ok(ts) => Ok(
                    seq![TyEdit::Ctor {
                        span: h.span,
                        name: def.path@,
                        lifetimes: param_texts(m.lifetime_params@),
                        subs: spans_of(hargs),
                        hidden: ts.skip(hargs.len() as int),
                    }],
                ),
                Err(e) => Err(e),
            },
            None => Ok(Seq::empty()),
        },
        _ => Ok(Seq::empty()),
    }
}

/// The edit of the pointer `rw`, whose written arguments are `hargs`, at `span`.
pub open spec fn pointer_plan(rw: RwLTy, span: Span, hargs: Seq<HirTy>) -> Result<Seq<TyEdit>, Ownership> {
    match rw.label.ty_desc {
        None => Ok(Seq::empty()),
        Some((own, qty)) => if own == Ownership::Rc || own == Ownership::Box {
            Err(own)
        } else {
            Ok(
                seq![TyEdit::Pointer { span, own, qty, lifetime: rw.label.lifetime, pointee: hargs[0].span }],
            )
        },
    }
}

/// The edits that rewrite the written type `h` as the relabelled resolved type `rw` asks, or
/// the first ownership met that cannot be expressed yet.
///
/// Nothing is edited where neither the type nor a descendant needs it (aggregates are always
/// looked at). Where `h` has the shape of `rw`, a pointer is re-expressed in place around its
/// written pointee, an aggregate of the program is reprinted with its lifetime parameters, and
/// the arguments are handled one by one. Where the shapes differ, `h` is replaced as a whole by
/// the printed rewritten type.
pub open spec fn handle_plan(rw: RwLTy, h: HirTy, adts: AdtMetadataTable) -> Result<Seq<TyEdit>, Ownership>
    decreases rw, 1nat,
{
    if !(rw.kind is Adt) && rw.label.ty_desc is None && !rw.label.descendant_has_rewrite {
        Ok(Seq::empty())
    } else {
        match hir_args_spec(rw.kind, rw.args@.len(), h) {
            None => match ty_text(rw, true) {
                Ok(text) => Ok(seq![TyEdit::Whole { span: h.span, text }]),
                Err(e) => Err(e),
            },
            Some(hargs) => match pointer_plan(rw, h.span, hargs) {
                Err(e) => Err(e),
                Ok(e1) => match adt_ctor_plan(rw, h, hargs, adts) {
                    Err(e) => Err(e),
                    Ok(e2) => if rw.label.descendant_has_rewrite {
                        match handle_plans(rw.args@, hargs, adts) {
                            Err(e) => Err(e),
                            Ok(e3) => Ok(e1 + e2 + e3),
                        }
                    } else {
                        Ok(e1 + e2)
                    },
                },
            },
        }
    }
}

/// The edits of the pairs of `rws` and `hs`, position by position, as far as both go.
pub open spec fn handle_plans(rws: Seq<RwLTy>, hs: Seq<HirTy>, adts: AdtMetadataTable) -> Result<Seq<TyEdit>, Ownership>
    decreases rws, 0nat,
{
    let n = if rws.len() < hs.len() {
        rws.len()
    } else {
        hs.len()
    };
    if n == 0 {
        Ok(Seq::empty())
    } else {
        match handle_plans(rws.take(n - 1), hs.take(n - 1), adts) {
            Err(e) => Err(e),
            Ok(init) => match handle_plan(rws[n - 1], hs[n - 1], adts) {
                Err(e) => Err(e),
                Ok(last) => Ok(init + last),
            },
        }
    }
}

/// The edits of the whole `rws` and `hs` are those of their first `n` pairs, when `n` is
/// as far as both go.
proof fn lemma_plans_prefix(rws: Seq<RwLTy>, hs: Seq<HirTy>, adts: AdtMetadataTable, k: int)
    requires
        0 <= k <= rws.len(),
        k <= hs.len(),
        handle_plans(rws.take(k), hs.take(k), adts) is Err || k == rws.len() || k == hs.len(),
    ensures
        handle_plans(rws, hs, adts) == handle_plans(rws.take(k), hs.take(k), adts)
            || handle_plans(rws, hs, adts) is Err && handle_plans(rws.take(k), hs.take(k), adts) is Err
            && handle_plans(rws, hs, adts)->Err_0 == handle_plans(rws.take(k), hs.take(k), adts)->Err_0,
    decreases rws.len() - k,
{
    let n = if rws.len() < hs.len() { rws.len() } else { hs.len() };
    if k == n {
        if n > 0 {
            assert(rws.take(k).take(n - 1) =~= rws.take(n - 1));
            assert(hs.take(k).take(n - 1) =~= hs.take(n - 1));
            assert(rws.take(k)[n - 1] == rws[n - 1]);
            assert(hs.take(k)[n - 1] == hs[n - 1]);
        } else {
            assert(rws.take(k).len() == 0);
        }
    } else {
        assert(rws.take(k + 1).take(k) =~= rws.take(k));
        assert(hs.take(k + 1).take(k) =~= hs.take(k));
        lemma_plans_prefix(rws, hs, adts, k + 1);
    }
}

fn push_printed(out: &mut Vec<Rewrite>, parts: &Vec<String>)
    ensures
        final(out)@.len() == old(out)@.len() + parts@.len(),
        final(out)@.take(old(out)@.len() as int) == old(out)@,
        forall|i: int| 0 <= i < parts@.len() ==> (#[trigger] final(out)@[old(out)@.len() + i] is PrintTy
            && final(out)@[old(out)@.len() + i]->PrintTy_0@ == parts@[i]@),
{
    let ghost start = out@;
    let mut i: usize = 0;
    while i < parts.len()
        invariant
            i <= parts@.len(),
            out@.len() == start.len() + i,
            out@.take(start.len() as int) == start,
            forall|j: int| 0 <= j < i ==> (#[trigger] out@[start.len() + j] is PrintTy
                && out@[start.len() + j]->PrintTy_0@ == parts@[j]@),
        decreases parts@.len() - i,
    {
        let ghost prev = out@;
        out.push(Rewrite::PrintTy(parts[i].clone()));
        assert(out@.take(start.len() as int) =~= prev.take(start.len() as int));
        assert forall|j: int| 0 <= j < i + 1 implies (#[trigger] out@[start.len() + j] is PrintTy
            && out@[start.len() + j]->PrintTy_0@ == parts@[j]@) by {
            if j < i {
                assert(out@[start.len() + j] == prev[start.len() + j]);
            }
        }
        i = i + 1;
    }
}

/// The rewrite that re-expresses a pointer to the written type at `pointee` under
/// `(own, qty)`, with lifetime `lt`.
fn pointer_rewrite(own: Ownership, qty: Quantity, lt: &Option<OriginArg>, pointee: Span) -> (r: Rewrite)
    requires
        own != Ownership::Rc,
        own != Ownership::Box,
    ensures
        pointer_rewrite_ok(r, own, qty, *lt, pointee),
{
    let mut rw = Rewrite::Sub(0, pointee);
    if own == Ownership::Cell {
        rw = Rewrite::TyCtor(String::from_str("core::cell::Cell"), vec![rw]);
    }
    rw = match qty {
        Quantity::Single => rw,
        // Offset pointers are written as slices until a dedicated type exists.
        Quantity::Slice | Quantity::OffsetPtr => Rewrite::TySlice(Box::new(rw)),
    };
    let lifetime_type = match lt {
        Some(l) => LifetimeName::Explicit(origin_arg_to_string(l)),
        None => LifetimeName::Elided,
    };
    match own {
        Ownership::Raw => Rewrite::TyPtr(Box::new(rw), Mutability::Not),
        Ownership::RawMut => Rewrite::TyPtr(Box::new(rw), Mutability::Mut),
        Ownership::Imm | Ownership::Cell => Rewrite::TyRef(lifetime_type, Box::new(rw), Mutability::Not),
        _ => Rewrite::TyRef(lifetime_type, Box::new(rw), Mutability::Mut),
    }
}

/// Pushes onto `out` the edits that rewrite the written type `hir_ty` as the relabelled
/// resolved type `rw_lty` asks. Fails with the first ownership met that cannot be
/// expressed yet; what was pushed by then is unspecified.
pub fn handle_ty(
    rw_lty: &RwLTy,
    hir_ty: &HirTy,
    adt_metadata: &AdtMetadataTable,
    out: &mut Vec<(Span, Rewrite)>,
) -> (r: Result<(), Ownership>)
    requires
        rw_wf(*rw_lty),
    ensures
        match handle_plan(*rw_lty, *hir_ty, *adt_metadata) {
            Ok(p) => r is Ok && realizes_all(final(out)@, old(out)@, p),
            Err(e) => r == Err::<(), Ownership>(e),
        },
        rw_supported(*rw_lty) ==> r is Ok,
    decreases rw_lty, 1nat,
{
    proof {
        if rw_supported(*rw_lty) {
            lemma_plan_ok(*rw_lty, *hir_ty, *adt_metadata);
        }
    }
    let ghost start = out@;
    let ghost adts = *adt_metadata;
    if !matches!(rw_lty.kind, TyKind::Adt(..)) && rw_lty.label.ty_desc.is_none()
        && !rw_lty.label.descendant_has_rewrite {
        // No rewrites here or in any descendant of this written type.
        proof { lemma_realizes_empty(out@); }
        return Ok(());
    }
    let hir_args = match deconstruct_hir_ty(&rw_lty.kind, rw_lty.args.len(), hir_ty) {
        Some(x) => x,
        None => {
            // `hir_ty` does not have the expected structure (for example, a pointer type is
            // hidden behind an alias), so it is discarded and the rewritten type printed whole.
            let s = print_ty(rw_lty, true)?;
            let ghost prev = out@;
            out.push((hir_ty.span, Rewrite::PrintTy(s)));
            assert(out@.take(prev.len() as int) =~= prev);
            assert(out@[prev.len() + 0int] == out@[prev.len() as int]);
            return Ok(());
        },
    };
    let ghost hargs = deref_all(hir_args@);
    proof {
        lemma_rws_wf(rw_lty.args@);
        if !(rw_lty.kind is Adt) {
            lemma_decomposition_totality(rw_lty.kind, rw_lty.args@.len(), *hir_ty);
        }
    }
    // The pointer itself.
    let ghost ptr_edits = pointer_plan(*rw_lty, hir_ty.span, hargs);
    match rw_lty.label.ty_desc {
        Some((own, qty)) => {
            if own == Ownership::Rc || own == Ownership::Box {
                return Err(own);
            }
            assert(hargs[0] == *hir_args@[0]);
            let rw = pointer_rewrite(own, qty, &rw_lty.label.lifetime, hir_args[0].span);
            let ghost prev = out@;
            out.push((hir_ty.span, rw));
            assert(out@.take(prev.len() as int) =~= prev);
            assert(out@[prev.len() + 0int] == out@[prev.len() as int]);
        },
        None => {
            proof { lemma_realizes_empty(out@); }
        },
    }
    let ghost after_ptr = out@;
    assert(realizes_all(after_ptr, start, ptr_edits->Ok_0));
    // An aggregate of the program, reprinted with its lifetime parameters.
    let ghost adt_edits = adt_ctor_plan(*rw_lty, *hir_ty, hargs, adts);
    match (&rw_lty.kind, lookup_adt(&rw_lty.kind, adt_metadata)) {
        (TyKind::Adt(def), Some(m)) => {
            let names = param_strings(&m.lifetime_params);
            let others = print_tys(&rw_lty.args, false)?;
            proof {
                lemma_texts_len(rw_lty.args@, false);
            }
            let ghost lts = param_texts(m.lifetime_params@);
            let ghost subs = spans_of(hargs);
            let ghost hidden = texts(others).skip(hargs.len() as int);
            let mut ctor_args: Vec<Rewrite> = Vec::new();
            push_printed(&mut ctor_args, &names);
            let n_names = names.len();
            assert forall|j: int| 0 <= j < n_names implies (#[trigger] ctor_args@[j] is PrintTy && ctor_args@[j]->PrintTy_0@ == lts[j]) by {
                assert(ctor_args@[0 + j] == ctor_args@[j]);
                assert(texts(names)[j] == names@[j]@);
            }
            let mut i: usize = 0;
            while i < hir_args.len()
                invariant
                    i <= hir_args@.len(),
                    hargs == deref_all(hir_args@),
                    subs == spans_of(hargs),
                    n_names == lts.len(),
                    ctor_args@.len() == n_names + i,
                    forall|j: int| 0 <= j < n_names ==> (#[trigger] ctor_args@[j] is PrintTy && ctor_args@[j]->PrintTy_0@ == lts[j]),
                    forall|j: int| 0 <= j < i ==> #[trigger] ctor_args@[n_names + j] == Rewrite::Sub(j as usize, subs[j]),
                decreases hir_args@.len() - i,
            {
                let ghost prev = ctor_args@;
                assert(subs[i as int] == hir_args@[i as int].span);
                ctor_args.push(Rewrite::Sub(i, hir_args[i].span));
                assert forall|j: int| 0 <= j < n_names implies (#[trigger] ctor_args@[j] is PrintTy && ctor_args@[j]->PrintTy_0@ == lts[j]) by {
                    assert(ctor_args@[j] == prev[j]);
                }
                assert forall|j: int| 0 <= j < i + 1 implies #[trigger] ctor_args@[n_names + j] == Rewrite::Sub(j as usize, subs[j]) by {
                    if j < i {
                        assert(ctor_args@[n_names + j] == prev[n_names + j]);
                    }
                }
                i = i + 1;
            }
            let n_subs = hir_args.len();
            let mut k: usize = n_subs;
            while k < others.len()
                invariant
                    n_subs == hargs.len(),
                    n_subs <= k <= others@.len(),
                    hidden == texts(others).skip(n_subs as int),
                    n_names == lts.len(),
                    ctor_args@.len() == n_names + k,
                    forall|j: int| 0 <= j < n_names ==> (#[trigger] ctor_args@[j] is PrintTy && ctor_args@[j]->PrintTy_0@ == lts[j]),
                    forall|j: int| 0 <= j < n_subs ==> #[trigger] ctor_args@[n_names + j] == Rewrite::Sub(j as usize, subs[j]),
                    forall|j: int|
                        0 <= j < k - n_subs ==> (#[trigger] ctor_args@[n_names + n_subs + j] is PrintTy
                            && ctor_args@[n_names + n_subs + j]->PrintTy_0@ == hidden[j]),
                decreases others@.len() - k,
            {
                let ghost prev = ctor_args@;
                ctor_args.push(Rewrite::PrintTy(others[k].clone()));
                assert(hidden[k - n_subs] == others@[k as int]@);
                assert forall|j: int| 0 <= j < n_names implies (#[trigger] ctor_args@[j] is PrintTy && ctor_args@[j]->PrintTy_0@ == lts[j]) by {
                    assert(ctor_args@[j] == prev[j]);
                }
                assert forall|j: int| 0 <= j < n_subs implies #[trigger] ctor_args@[n_names + j] == Rewrite::Sub(j as usize, subs[j]) by {
                    assert(ctor_args@[n_names + j] == prev[n_names + j]);
                }
                assert forall|j: int|
                    0 <= j < k + 1 - n_subs implies (#[trigger] ctor_args@[n_names + n_subs + j] is PrintTy
                        && ctor_args@[n_names + n_subs + j]->PrintTy_0@ == hidden[j]) by {
                    if j < k - n_subs {
                        assert(ctor_args@[n_names + n_subs + j] == prev[n_names + n_subs + j]);
                    }
                }
                k = k + 1;
            }
            assert(ctor_args_ok(ctor_args@, lts, subs, hidden));
            let ghost prev = out@;
            out.push((hir_ty.span, Rewrite::TyCtor(def.path.clone(), ctor_args)));
            assert(out@.take(prev.len() as int) =~= prev);
            assert(out@[prev.len() + 0int] == out@[prev.len() as int]);
        },
        _ => {
            proof { lemma_realizes_empty(out@); }
        },
    }
    let ghost after_adt = out@;
    assert(realizes_all(after_adt, after_ptr, adt_edits->Ok_0));
    proof { lemma_realizes_trans(start, after_ptr, after_adt, ptr_edits->Ok_0, adt_edits->Ok_0); }
    if rw_lty.label.descendant_has_rewrite {
        let args = &rw_lty.args;
        let n: usize = if args.len() < hir_args.len() { args.len() } else { hir_args.len() };
        let mut i: usize = 0;
        proof {
            lemma_realizes_empty(out@);
            assert(args@.take(0).len() == 0);
        }
        let ghost whole = handle_plan(*rw_lty, *hir_ty, adts);
        assert(whole == match handle_plans(args@, hargs, adts) {
            Err(e) => Err(e),
            Ok(e3) => Ok(ptr_edits->Ok_0 + adt_edits->Ok_0 + e3),
        });
        while i < n
            invariant
                adts == *adt_metadata,
                whole == handle_plan(*rw_lty, *hir_ty, adts),
                rw_supported(*rw_lty) ==> whole is Ok,
                whole == match handle_plans(args@, hargs, adts) {
                    Err(e) => Err(e),
                    Ok(e3) => Ok(ptr_edits->Ok_0 + adt_edits->Ok_0 + e3),
                },
                realizes_all(after_adt, start, ptr_edits->Ok_0 + adt_edits->Ok_0),
                args == &rw_lty.args,
                n <= args@.len(),
                n <= hargs.len(),
                n == args@.len() || n == hargs.len(),
                hargs == deref_all(hir_args@),
                i <= n,
                forall|j: int| 0 <= j < args@.len() ==> #[trigger] rw_wf(args@[j]),
                handle_plans(args@.take(i as int), hargs.take(i as int), adts) is Ok,
                realizes_all(out@, after_adt, handle_plans(args@.take(i as int), hargs.take(i as int), adts)->Ok_0),
            decreases n - i,
        {
            let ghost prev = out@;
            assert(decreases_to!(rw_lty.args => rw_lty.args[i as int]));
            assert(hargs[i as int] == *hir_args@[i as int]);
            let res = handle_ty(&rw_lty.args[i], hir_args[i], adt_metadata, out);
            assert(args@.take(i + 1).take(i as int) =~= args@.take(i as int));
            assert(hargs.take(i + 1).take(i as int) =~= hargs.take(i as int));
            assert(args@.take(i + 1)[i as int] == args@[i as int]);
            assert(hargs.take(i + 1)[i as int] == hargs[i as int]);
            if res.is_err() {
                proof { lemma_plans_prefix(args@, hargs, adts, i + 1); }
                return res;
            }
            proof {
                lemma_realizes_trans(
                    after_adt,
                    prev,
                    out@,
                    handle_plans(args@.take(i as int), hargs.take(i as int), adts)->Ok_0,
                    handle_plan(args@[i as int], hargs[i as int], adts)->Ok_0,
                );
            }
            i = i + 1;
        }
        proof {
            lemma_plans_prefix(args@, hargs, adts, n as int);
            lemma_realizes_trans(start, after_adt, out@, ptr_edits->Ok_0 + adt_edits->Ok_0, handle_plans(args@, hargs, adts)->Ok_0);
        }
    }
    Ok(())
}

/// A generic parameter of a struct declaration.
#[derive(Debug)]
pub struct GenericParam {
    pub name: String,
    pub is_lifetime: bool,
}

/// The generic parameter list of a declaration and the source range of its text.
#[derive(Debug)]
pub struct Generics {
    pub params: Vec<GenericParam>,
    pub span: Span,
}

/// A named field: its written type, its resolved type, and the lifetimes inferred for the
/// positions of that type.
#[derive(Debug)]
pub struct FieldDef {
    pub ty: HirTy,
    pub lty: LTy,
    pub origin_args: OriginTree,
}

/// A struct with named fields; `adt` is its index in the metadata table.
#[derive(Debug)]
pub struct StructItem {
    pub adt: usize,
    pub generics: Generics,
    pub fields: Vec<FieldDef>,
}

/// A local variable of the function body: the source range of its pattern and its type.
#[derive(Debug)]
pub struct LocalDecl {
    pub span: Span,
    pub lty: LTy,
}

/// A `let` statement: the source range of its pattern and its written type, if any.
#[derive(Debug)]
pub struct LetStmt {
    pub pat_span: Span,
    pub ty: Option<HirTy>,
}

/// A function's written parameter and return types.
#[derive(Debug)]
pub struct FnDecl {
    pub inputs: Vec<HirTy>,
    pub output: Option<HirTy>,
}

/// A function's resolved parameter and return types.
#[derive(Debug)]
pub struct FnSig {
    pub inputs: Vec<LTy>,
    pub output: LTy,
}

pub open spec fn owned_origins(o: Option<&OriginTree>) -> Option<OriginTree> {
    match o {
        Some(t) => Some(*t),
        None => None,
    }
}

/// One step of the type rewriting of a function: a written type to match against a
/// resolved type, or a generic parameter list to replace.
pub enum TyUnit {
    Annot { lty: LTy, origins: Option<OriginTree>, hir: HirTy },
    Params { span: Span, args: Seq<Seq<char>> },
}

/// The edits `seg` carry out the unit `u`: for a written type, the plan of the relabelled
/// resolved type.
#[verifier::opaque]
pub open spec fn unit_ok(
    u: TyUnit,
    seg: Seq<(Span, Rewrite)>,
    descs: Seq<(Ownership, Quantity)>,
    adts: AdtMetadataTable,
) -> bool {
    match u {
        TyUnit::Annot { lty, origins, hir } => exists|rw: RwLTy|
            #[trigger] relabeled(lty, origins, rw, descs, adts) && handle_plan(rw, hir, adts) is Ok
                && realizes_all(seg, Seq::empty(), handle_plan(rw, hir, adts)->Ok_0),
        TyUnit::Params { span, args } => seg.len() == 1 && realizes(
            seg[0],
            TyEdit::Params { span, args },
        ),
    }
}

/// `edits` split at `bounds` into consecutive segments that carry out `us` in order.
pub open spec fn units_ok_at(
    us: Seq<TyUnit>,
    edits: Seq<(Span, Rewrite)>,
    bounds: Seq<int>,
    descs: Seq<(Ownership, Quantity)>,
    adts: AdtMetadataTable,
) -> bool {
    &&& bounds.len() == us.len() + 1
    &&& bounds[0] == 0
    &&& bounds.last() == edits.len()
    &&& forall|i: int| 0 <= i < us.len() ==> #[trigger] bounds[i] <= bounds[i + 1]
    &&& forall|i: int|
        0 <= i < us.len() ==> unit_ok(
            #[trigger] us[i],
            edits.subrange(bounds[i], bounds[i + 1]),
            descs,
            adts,
        )
}

/// `edits` carry out `us` in order.
pub open spec fn units_ok(
    us: Seq<TyUnit>,
    edits: Seq<(Span, Rewrite)>,
    descs: Seq<(Ownership, Quantity)>,
    adts: AdtMetadataTable,
) -> bool {
    exists|bounds: Seq<int>| #[trigger] units_ok_at(us, edits, bounds, descs, adts)
}

/// `e` is what a relabelled unit of `us` fails with.
pub open spec fn unit_fails_with(
    us: Seq<TyUnit>,
    e: Ownership,
    descs: Seq<(Ownership, Quantity)>,
    adts: AdtMetadataTable,
) -> bool {
    exists|j: int, rw: RwLTy|
        0 <= j < us.len() && #[trigger] us[j] is Annot && #[trigger] relabeled(
            us[j]->lty,
            us[j]->origins,
            rw,
            descs,
            adts,
        ) && handle_plan(rw, us[j]->hir, adts) == Err::<Seq<TyEdit>, Ownership>(e)
}

proof fn lemma_units_empty(descs: Seq<(Ownership, Quantity)>, adts: AdtMetadataTable)
    ensures
        units_ok_at(Seq::empty(), Seq::empty(), seq![0int], descs, adts),
{
}

proof fn lemma_bounds_le(
    us: Seq<TyUnit>,
    e1: Seq<(Span, Rewrite)>,
    bounds: Seq<int>,
    descs: Seq<(Ownership, Quantity)>,
    adts: AdtMetadataTable,
    i: int,
)
    requires
        units_ok_at(us, e1, bounds, descs, adts),
        0 <= i <= us.len(),
    ensures
        0 <= bounds[i] <= e1.len(),
    decreases us.len() - i,
{
    if i < us.len() {
        lemma_bounds_le(us, e1, bounds, descs, adts, i + 1);
        assert(bounds[i] <= bounds[i + 1]);
    }
    lemma_bounds_ge(us, e1, bounds, descs, adts, i);
}

proof fn lemma_bounds_ge(
    us: Seq<TyUnit>,
    e1: Seq<(Span, Rewrite)>,
    bounds: Seq<int>,
    descs: Seq<(Ownership, Quantity)>,
    adts: AdtMetadataTable,
    i: int,
)
    requires
        units_ok_at(us, e1, bounds, descs, adts),
        0 <= i <= us.len(),
    ensures
        0 <= bounds[i],
    decreases i,
{
    if i > 0 {
        lemma_bounds_ge(us, e1, bounds, descs, adts, i - 1);
        assert(bounds[i - 1] <= bounds[i]);
    }
}

/// Relabels `lty` with `origins` and pushes the edits that rewrite the written type `hir`
/// accordingly.
fn rewrite_annotation(
    lty: &LTy,
    origins: Option<&OriginTree>,
    hir: &HirTy,
    descs: &Vec<(Ownership, Quantity)>,
    adts: &AdtMetadataTable,
    out: &mut Vec<(Span, Rewrite)>,
) -> (r: Result<(), Ownership>)
    requires
        lty_wf(*lty, descs@.len()),
    ensures
        r is Ok ==> final(out)@.len() >= old(out)@.len() && final(out)@.take(old(out)@.len() as int)
            == old(out)@ && unit_ok(
            TyUnit::Annot {
                lty: *lty,
                origins: owned_origins(origins),
                hir: *hir,
            },
            final(out)@.skip(old(out)@.len() as int),
            descs@,
            *adts,
        ),
        r is Err ==> exists|rw: RwLTy|
            #[trigger] relabeled(
                *lty,
                owned_origins(origins),
                rw,
                descs@,
                *adts,
            ) && handle_plan(rw, *hir, *adts) == Err::<Seq<TyEdit>, Ownership>(r->Err_0),
        descs_supported(descs@) ==> r is Ok,
{
    let ghost og = match origins {
        Some(t) => Some(*t),
        None => None::<OriginTree>,
    };
    let rw = relabel_with_origins(lty, origins, descs, adts);
    proof {
        lemma_relabeled_wf(*lty, og, rw, descs@, *adts);
        if descs_supported(descs@) {
            lemma_relabeled_supported(*lty, og, rw, descs@, *adts);
        }
    }
    let ghost start = out@;
    let r = handle_ty(&rw, hir, adts, out);
    proof {
        reveal(unit_ok);
        if r is Ok {
            let p = handle_plan(rw, *hir, *adts)->Ok_0;
            let seg = out@.skip(start.len() as int);
            assert(seg.take(0) =~= Seq::<(Span, Rewrite)>::empty());
            assert forall|k: int| 0 <= k < p.len() implies realizes(#[trigger] seg[0 + k], p[k]) by {
                assert(seg[0 + k] == out@[start.len() + k]);
            }
            assert(realizes_all(seg, Seq::empty(), p));
            assert(relabeled(*lty, og, rw, descs@, *adts));
        } else {
            assert(relabeled(*lty, og, rw, descs@, *adts));
        }
    }
    r
}

/// The number of lifetime parameters among `ps`.
pub open spec fn count_lifetimes(ps: Seq<GenericParam>) -> nat
    decreases ps.len(),
{
    if ps.len() == 0 {
        0
    } else {
        count_lifetimes(ps.drop_last()) + if ps.last().is_lifetime {
            1nat
        } else {
            0nat
        }
    }
}

/// The names of the parameters among `ps` that are not lifetimes, in order.
pub open spec fn other_param_names(ps: Seq<GenericParam>) -> Seq<Seq<char>>
    decreases ps.len(),
{
    if ps.len() == 0 {
        Seq::empty()
    } else if ps.last().is_lifetime {
        other_param_names(ps.drop_last())
    } else {
        other_param_names(ps.drop_last()).push(ps.last().name@)
    }
}

/// The units of a struct declaration: its generic parameter list, when the number of its
/// lifetime parameters changes, then its fields.
///
/// The new list holds the rewritten lifetime parameters (those already declared, in their
/// order, then the new ones) followed by the other parameters in declaration order.
pub open spec fn struct_units(item: StructItem, adts: AdtMetadataTable) -> Seq<TyUnit> {
    let m = adts.table@[item.adt as int];
    let ps = item.generics.params@;
    let head = if m.lifetime_params@.len() != count_lifetimes(ps) {
        seq![TyUnit::Params {
            span: item.generics.span,
            args: param_texts(m.lifetime_params@) + other_param_names(ps),
        }]
    } else {
        Seq::empty()
    };
    head + field_units(item.fields@)
}

/// The units of the fields `fs`, in order.
pub open spec fn field_units(fs: Seq<FieldDef>) -> Seq<TyUnit> {
    fs.map_values(|f: FieldDef| TyUnit::Annot { lty: f.lty, origins: Some(f.origin_args), hir: f.ty })
}

/// The units of the struct declarations `items`, in order.
pub open spec fn items_units(items: Seq<StructItem>, adts: AdtMetadataTable) -> Seq<TyUnit>
    decreases items.len(),
{
    if items.len() == 0 {
        Seq::empty()
    } else {
        items_units(items.drop_last(), adts) + struct_units(items.last(), adts)
    }
}

/// The last local variable whose pattern lies at `span`.
pub open spec fn local_for_span(locals: Seq<LocalDecl>, span: Span) -> Option<int>
    decreases locals.len(),
{
    if locals.len() == 0 {
        None
    } else if locals.last().span == span {
        Some(locals.len() - 1)
    } else {
        local_for_span(locals.drop_last(), span)
    }
}

/// The units of the `let` statements `stmts`: each written type, matched against the type of
/// the local variable of its pattern.
pub open spec fn stmt_units(stmts: Seq<LetStmt>, locals: Seq<LocalDecl>) -> Seq<TyUnit>
    decreases stmts.len(),
{
    if stmts.len() == 0 {
        Seq::empty()
    } else {
        let init = stmt_units(stmts.drop_last(), locals);
        let s = stmts.last();
        match (s.ty, local_for_span(locals, s.pat_span)) {
            (Some(t), Some(i)) => init.push(
                TyUnit::Annot { lty: locals[i].lty, origins: None, hir: t },
            ),
            _ => init,
        }
    }
}

/// The units of a function signature: each parameter type, then the return type if written.
pub open spec fn sig_units(decl: FnDecl, sig: FnSig) -> Seq<TyUnit> {
    let ins = Seq::new(
        decl.inputs@.len(),
        |i: int| TyUnit::Annot { lty: sig.inputs@[i], origins: None, hir: decl.inputs@[i] },
    );
    match decl.output {
        Some(h) => ins.push(TyUnit::Annot { lty: sig.output, origins: None, hir: h }),
        None => ins,
    }
}

/// Everything that the type rewriting of one function goes through, in order: its signature,
/// the `let` statements of its body, and the struct declarations of the program.
pub open spec fn all_units(
    decl: FnDecl,
    sig: FnSig,
    locals: Seq<LocalDecl>,
    stmts: Seq<LetStmt>,
    items: Seq<StructItem>,
    adts: AdtMetadataTable,
) -> Seq<TyUnit> {
    sig_units(decl, sig) + stmt_units(stmts, locals) + items_units(items, adts)
}

/// `new` is `old` followed by edits that carry out `us` in order.
pub open spec fn seg_ok(
    us: Seq<TyUnit>,
    old: Seq<(Span, Rewrite)>,
    new: Seq<(Span, Rewrite)>,
    descs: Seq<(Ownership, Quantity)>,
    adts: AdtMetadataTable,
) -> bool {
    &&& new.len() >= old.len()
    &&& new.take(old.len() as int) == old
    &&& units_ok(us, new.skip(old.len() as int), descs, adts)
}

proof fn lemma_seg_empty(a: Seq<(Span, Rewrite)>, descs: Seq<(Ownership, Quantity)>, adts: AdtMetadataTable)
    ensures
        seg_ok(Seq::empty(), a, a, descs, adts),
{
    assert(a.take(a.len() as int) =~= a);
    assert(a.skip(a.len() as int) =~= Seq::empty());
    lemma_units_empty(descs, adts);
    assert(units_ok_at(Seq::empty(), Seq::empty(), seq![0int], descs, adts));
}

proof fn lemma_seg_unit(
    u: TyUnit,
    a: Seq<(Span, Rewrite)>,
    b: Seq<(Span, Rewrite)>,
    descs: Seq<(Ownership, Quantity)>,
    adts: AdtMetadataTable,
)
    requires
        b.len() >= a.len(),
        b.take(a.len() as int) == a,
        unit_ok(u, b.skip(a.len() as int), descs, adts),
    ensures
        seg_ok(seq![u], a, b, descs, adts),
{
    let seg = b.skip(a.len() as int);
    let bounds = seq![0int, seg.len() as int];
    assert(seq![u][0] == u);
    assert(seg.subrange(0, seg.len() as int) =~= seg);
    assert(units_ok_at(seq![u], seg, bounds, descs, adts));
}

proof fn lemma_units_concat(
    us1: Seq<TyUnit>,
    s1: Seq<(Span, Rewrite)>,
    b1: Seq<int>,
    us2: Seq<TyUnit>,
    s2: Seq<(Span, Rewrite)>,
    b2: Seq<int>,
    descs: Seq<(Ownership, Quantity)>,
    adts: AdtMetadataTable,
)
    requires
        units_ok_at(us1, s1, b1, descs, adts),
        units_ok_at(us2, s2, b2, descs, adts),
    ensures
        units_ok_at(us1 + us2, s1 + s2, b1 + b2.skip(1).map_values(|x: int| x + s1.len()), descs, adts),
{
    let off = s1.len() as int;
    let bs = b1 + b2.skip(1).map_values(|x: int| x + off);
    let s = s1 + s2;
    let us = us1 + us2;
    assert forall|i: int| 0 <= i <= us1.len() implies 0 <= #[trigger] b1[i] <= s1.len() by {
        lemma_bounds_le(us1, s1, b1, descs, adts, i);
    }
    assert forall|i: int| 0 <= i <= us2.len() implies 0 <= #[trigger] b2[i] <= s2.len() by {
        lemma_bounds_le(us2, s2, b2, descs, adts, i);
    }
    assert forall|i: int| 0 <= i <= us.len() implies #[trigger] bs[i] == if i <= us1.len() {
        b1[i]
    } else {
        b2[i - us1.len()] + off
    } by {
        if i == us1.len() {
            assert(b1[i] == off);
            assert(b2[0] == 0);
        }
    }
    assert forall|i: int| 0 <= i < us.len() implies #[trigger] bs[i] <= bs[i + 1] by {
        if i < us1.len() {
            assert(b1[i] <= b1[i + 1]);
        } else {
            let k = i - us1.len();
            assert(b2[k] <= b2[k + 1]);
        }
    }
    assert forall|i: int| 0 <= i < us.len() implies unit_ok(
        #[trigger] us[i],
        s.subrange(bs[i], bs[i + 1]),
        descs,
        adts,
    ) by {
        if i < us1.len() {
            assert(unit_ok(us1[i], s1.subrange(b1[i], b1[i + 1]), descs, adts));
            assert(s.subrange(bs[i], bs[i + 1]) =~= s1.subrange(b1[i], b1[i + 1]));
        } else {
            let k = i - us1.len();
            assert(unit_ok(us2[k], s2.subrange(b2[k], b2[k + 1]), descs, adts));
            assert(s.subrange(bs[i], bs[i + 1]) =~= s2.subrange(b2[k], b2[k + 1]));
        }
    }
}

#[verifier::spinoff_prover]
#[verifier::rlimit(60)]
proof fn lemma_seg_concat(
    us1: Seq<TyUnit>,
    us2: Seq<TyUnit>,
    a: Seq<(Span, Rewrite)>,
    b: Seq<(Span, Rewrite)>,
    c: Seq<(Span, Rewrite)>,
    descs: Seq<(Ownership, Quantity)>,
    adts: AdtMetadataTable,
)
    requires
        seg_ok(us1, a, b, descs, adts),
        seg_ok(us2, b, c, descs, adts),
    ensures
        seg_ok(us1 + us2, a, c, descs, adts),
{
    let s1 = b.skip(a.len() as int);
    let s2 = c.skip(b.len() as int);
    let b1 = choose|bounds: Seq<int>| #[trigger] units_ok_at(us1, s1, bounds, descs, adts);
    let b2 = choose|bounds: Seq<int>| #[trigger] units_ok_at(us2, s2, bounds, descs, adts);
    lemma_units_concat(us1, s1, b1, us2, s2, b2, descs, adts);
    assert forall|j: int| 0 <= j < b.len() implies #[trigger] c[j] == b[j] by {
        assert(c[j] == c.take(b.len() as int)[j]);
    }
    assert(c.take(a.len() as int) =~= a) by {
        assert forall|j: int| 0 <= j < a.len() implies c.take(a.len() as int)[j] == a[j] by {
            assert(b[j] == b.take(a.len() as int)[j]);
        }
    }
    assert(c.skip(a.len() as int) =~= s1 + s2);
    let bs = b1 + b2.skip(1).map_values(|x: int| x + s1.len());
    assert(units_ok_at(us1 + us2, c.skip(a.len() as int), bs, descs, adts));
}

proof fn lemma_fails_within(
    us1: Seq<TyUnit>,
    us2: Seq<TyUnit>,
    us3: Seq<TyUnit>,
    e: Ownership,
    descs: Seq<(Ownership, Quantity)>,
    adts: AdtMetadataTable,
)
    requires
        unit_fails_with(us2, e, descs, adts),
    ensures
        unit_fails_with(us1 + us2 + us3, e, descs, adts),
{
    let (j, rw) = choose|j: int, rw: RwLTy|
        0 <= j < us2.len() && #[trigger] us2[j] is Annot && #[trigger] relabeled(
            us2[j]->lty,
            us2[j]->origins,
            rw,
            descs,
            adts,
        ) && handle_plan(rw, us2[j]->hir, adts) == Err::<Seq<TyEdit>, Ownership>(e);
    let all = us1 + us2 + us3;
    assert(all[us1.len() + j] == us2[j]);
    assert(all[us1.len() + j] is Annot);
    assert(relabeled(all[us1.len() + j]->lty, all[us1.len() + j]->origins, rw, descs, adts));
}

proof fn lemma_unit_fails(
    u: TyUnit,
    rw: RwLTy,
    e: Ownership,
    descs: Seq<(Ownership, Quantity)>,
    adts: AdtMetadataTable,
)
    requires
        u is Annot,
        relabeled(u->lty, u->origins, rw, descs, adts),
        handle_plan(rw, u->hir, adts) == Err::<Seq<TyEdit>, Ownership>(e),
    ensures
        unit_fails_with(seq![u], e, descs, adts),
{
    assert(seq![u][0] == u);
}

/// The text of each of `params`.
fn param_strings(params: &Vec<OriginParam>) -> (r: Vec<String>)
    ensures
        texts(r) == param_texts(params@),
{
    let mut names: Vec<String> = Vec::new();
    let mut i: usize = 0;
    while i < params.len()
        invariant
            i <= params@.len(),
            texts(names) =~= param_texts(params@).take(i as int),
        decreases params@.len() - i,
    {
        let ghost prev = names;
        names.push(origin_param_to_string(&params[i]));
        assert(texts(names) =~= texts(prev).push(origin_param_text(params@[i as int])));
        i = i + 1;
    }
    assert(param_texts(params@).take(i as int) =~= param_texts(params@));
    names
}

/// Pushes the edits of a struct declaration: its generic parameter list when the number of
/// its lifetime parameters changes, then the type of each field.
fn visit_struct(
    item: &StructItem,
    descs: &Vec<(Ownership, Quantity)>,
    adts: &AdtMetadataTable,
    out: &mut Vec<(Span, Rewrite)>,
) -> (r: Result<(), Ownership>)
    requires
        item_ok(*item, descs@.len(), *adts),
    ensures
        r is Ok ==> seg_ok(struct_units(*item, *adts), old(out)@, final(out)@, descs@, *adts),
        r is Err ==> unit_fails_with(struct_units(*item, *adts), r->Err_0, descs@, *adts),
        descs_supported(descs@) ==> r is Ok,
{
    let ghost start = out@;
    let adt_metadata = &adts.table[item.adt];
    let updated = &adt_metadata.lifetime_params;
    let params = &item.generics.params;
    let mut original_lifetime_count: usize = 0;
    let mut other_params: Vec<String> = Vec::new();
    let mut i: usize = 0;
    while i < params.len()
        invariant
            i <= params@.len(),
            original_lifetime_count == count_lifetimes(params@.take(i as int)),
            original_lifetime_count <= i,
            texts(other_params) == other_param_names(params@.take(i as int)),
        decreases params@.len() - i,
    {
        assert(params@.take(i + 1).drop_last() =~= params@.take(i as int));
        if params[i].is_lifetime {
            original_lifetime_count = original_lifetime_count + 1;
        } else {
            let ghost prev = other_params;
            other_params.push(params[i].name.clone());
            assert(texts(other_params) =~= texts(prev).push(params@[i as int].name@));
        }
        i = i + 1;
    }
    assert(params@.take(i as int) =~= params@);
    let ghost head_units = if updated@.len() != count_lifetimes(params@) {
        seq![TyUnit::Params {
            span: item.generics.span,
            args: param_texts(updated@) + other_param_names(params@),
        }]
    } else {
        Seq::empty()
    };
    if updated.len() != original_lifetime_count {
        // Lifetimes already declared keep their places; new ones follow them, and the other
        // parameters come last in their declared order.
        let lifetimes = param_strings(updated);
        let mut new_params: Vec<Rewrite> = Vec::new();
        push_printed(&mut new_params, &lifetimes);
        let ghost c1 = new_params@;
        push_printed(&mut new_params, &other_params);
        let ghost all = param_texts(updated@) + other_param_names(params@);
        assert forall|j: int| 0 <= j < new_params@.len() implies (#[trigger] new_params@[j] is PrintTy
            && new_params@[j]->PrintTy_0@ == all[j]) by {
            if j < lifetimes@.len() {
                assert(new_params@[j] == new_params@.take(c1.len() as int)[j]);
                assert(c1[0 + j] == c1[j]);
                assert(texts(lifetimes)[j] == lifetimes@[j]@);
            } else {
                let k = j - lifetimes@.len();
                assert(new_params@[j] == new_params@[c1.len() + k]);
                assert(texts(other_params)[k] == other_params@[k]@);
            }
        }
        let ghost prev = out@;
        out.push((item.generics.span, Rewrite::TyParams(new_params)));
        proof {
            reveal(unit_ok);
            assert(out@.take(prev.len() as int) =~= prev);
            assert(out@.skip(prev.len() as int)[0] == out@[prev.len() as int]);
            lemma_seg_unit(head_units[0], prev, out@, descs@, *adts);
            assert(seq![head_units[0]] =~= head_units);
        }
    } else {
        proof { lemma_seg_empty(out@, descs@, *adts); }
    }
    let ghost after_head = out@;
    let fields = &item.fields;
    let ghost fus = field_units(fields@);
    let mut k: usize = 0;
    proof {
        lemma_seg_empty(out@, descs@, *adts);
        assert(fus.take(0) =~= Seq::<TyUnit>::empty());
    }
    while k < fields.len()
        invariant
            k <= fields@.len(),
            fus == field_units(fields@),
            head_units + fus == struct_units(*item, *adts),
            forall|j: int| 0 <= j < fields@.len() ==> lty_wf(#[trigger] fields@[j].lty, descs@.len()),
            seg_ok(head_units, start, after_head, descs@, *adts),
            seg_ok(fus.take(k as int), after_head, out@, descs@, *adts),
        decreases fields@.len() - k,
    {
        let f = &fields[k];
        let ghost before = out@;
        let res = rewrite_annotation(&f.lty, Some(&f.origin_args), &f.ty, descs, adts, out);
        let ghost u = fus[k as int];
        assert(u == TyUnit::Annot { lty: f.lty, origins: Some(f.origin_args), hir: f.ty });
        match res {
            Err(e) => {
                proof {
                    let rw = choose|rw: RwLTy| #[trigger] relabeled(f.lty, Some(f.origin_args), rw, descs@, *adts)
                        && handle_plan(rw, f.ty, *adts) == Err::<Seq<TyEdit>, Ownership>(e);
                    lemma_unit_fails(u, rw, e, descs@, *adts);
                    lemma_fails_within(head_units + fus.take(k as int), seq![u], fus.skip(k + 1), e, descs@, *adts);
                    assert(fus.take(k as int) + seq![u] + fus.skip(k + 1) =~= fus);
                    assert(head_units + fus.take(k as int) + seq![u] + fus.skip(k + 1) =~= head_units + fus);
                }
                return Err(e);
            },
            Ok(()) => {
                proof {
                    lemma_seg_unit(u, before, out@, descs@, *adts);
                    lemma_seg_concat(fus.take(k as int), seq![u], after_head, before, out@, descs@, *adts);
                    assert(fus.take(k as int) + seq![u] =~= fus.take(k + 1));
                }
            },
        }
        k = k + 1;
    }
    proof {
        assert(fus.take(k as int) =~= fus);
        lemma_seg_concat(head_units, fus, start, after_head, out@, descs@, *adts);
    }
    Ok(())
}

/// A struct declaration fits the metadata table: its entry exists and has at least as many
/// lifetime parameters as the declaration, and its field types are well formed.
pub open spec fn item_ok(item: StructItem, n_pointers: nat, adts: AdtMetadataTable) -> bool {
    &&& item.adt < adts.table@.len()
    &&& adts.table@[item.adt as int].lifetime_params@.len() >= count_lifetimes(item.generics.params@)
    &&& forall|j: int| 0 <= j < item.fields@.len() ==> lty_wf(#[trigger] item.fields@[j].lty, n_pointers)
}

proof fn lemma_fail_at(
    all: Seq<TyUnit>,
    k: int,
    u: TyUnit,
    e: Ownership,
    descs: Seq<(Ownership, Quantity)>,
    adts: AdtMetadataTable,
)
    requires
        0 <= k < all.len(),
        all[k] == u,
        unit_fails_with(seq![u], e, descs, adts),
    ensures
        unit_fails_with(all, e, descs, adts),
{
    lemma_fails_within(all.take(k), seq![u], all.skip(k + 1), e, descs, adts);
    assert(all.take(k) + seq![u] + all.skip(k + 1) =~= all);
}

proof fn lemma_stmt_units_prefix(stmts: Seq<LetStmt>, locals: Seq<LocalDecl>, j: int)
    requires
        0 <= j <= stmts.len(),
    ensures
        stmt_units(stmts.take(j), locals).len() <= stmt_units(stmts, locals).len(),
        stmt_units(stmts, locals).take(stmt_units(stmts.take(j), locals).len() as int) == stmt_units(
            stmts.take(j),
            locals,
        ),
    decreases stmts.len() - j,
{
    let p = stmt_units(stmts.take(j), locals);
    if j == stmts.len() {
        assert(stmts.take(j) =~= stmts);
        assert(p.take(p.len() as int) =~= p);
    } else {
        lemma_stmt_units_prefix(stmts, locals, j + 1);
        assert(stmts.take(j + 1).drop_last() =~= stmts.take(j));
        let q = stmt_units(stmts.take(j + 1), locals);
        let all = stmt_units(stmts, locals);
        assert(q.take(p.len() as int) =~= p);
        assert(all.take(p.len() as int) =~= q.take(p.len() as int));
    }
}

proof fn lemma_items_units_prefix(items: Seq<StructItem>, adts: AdtMetadataTable, j: int)
    requires
        0 <= j <= items.len(),
    ensures
        items_units(items.take(j), adts).len() <= items_units(items, adts).len(),
        items_units(items, adts).take(items_units(items.take(j), adts).len() as int) == items_units(
            items.take(j),
            adts,
        ),
    decreases items.len() - j,
{
    let p = items_units(items.take(j), adts);
    if j == items.len() {
        assert(items.take(j) =~= items);
        assert(p.take(p.len() as int) =~= p);
    } else {
        lemma_items_units_prefix(items, adts, j + 1);
        assert(items.take(j + 1).drop_last() =~= items.take(j));
        let q = items_units(items.take(j + 1), adts);
        let all = items_units(items, adts);
        assert(q.take(p.len() as int) =~= p);
        assert(all.take(p.len() as int) =~= q.take(p.len() as int));
    }
}

/// The local variable whose pattern lies at `span`; the last one where several do.
fn find_local(locals: &Vec<LocalDecl>, span: Span) -> (r: Option<usize>)
    ensures
        match local_for_span(locals@, span) {
            Some(i) => r == Some(i as usize),
            None => r is None,
        },
{
    let mut found: Option<usize> = None;
    let mut i: usize = 0;
    while i < locals.len()
        invariant
            i <= locals@.len(),
            match local_for_span(locals@.take(i as int), span) {
                Some(j) => found == Some(j as usize),
                None => found is None,
            },
        decreases locals@.len() - i,
    {
        assert(locals@.take(i + 1).drop_last() =~= locals@.take(i as int));
        if locals[i].span == span {
            found = Some(i);
        }
        i = i + 1;
    }
    assert(locals@.take(i as int) =~= locals@);
    found
}

proof fn lemma_local_for_span_bound(locals: Seq<LocalDecl>, span: Span)
    ensures
        local_for_span(locals, span) is Some ==> 0 <= local_for_span(locals, span)->Some_0 < locals.len(),
    decreases locals.len(),
{
    if locals.len() > 0 {
        lemma_local_for_span_bound(locals.drop_last(), span);
    }
}

/// Pushes the edits of a function signature: each parameter type, then the return type.
fn rewrite_sig(
    decl: &FnDecl,
    sig: &FnSig,
    descs: &Vec<(Ownership, Quantity)>,
    adts: &AdtMetadataTable,
    out: &mut Vec<(Span, Rewrite)>,
) -> (r: Result<(), Ownership>)
    requires
        sig_ok(*decl, *sig, descs@.len()),
    ensures
        r is Ok ==> seg_ok(sig_units(*decl, *sig), old(out)@, final(out)@, descs@, *adts),
        r is Err ==> unit_fails_with(sig_units(*decl, *sig), r->Err_0, descs@, *adts),
        descs_supported(descs@) ==> r is Ok,
{
    let ghost start = out@;
    let ghost a_units = sig_units(*decl, *sig);
    proof {
        lemma_seg_empty(out@, descs@, *adts);
        assert(a_units.take(0) =~= Seq::<TyUnit>::empty());
    }
    let mut i: usize = 0;
    while i < decl.inputs.len()
        invariant
            a_units == sig_units(*decl, *sig),
            sig_ok(*decl, *sig, descs@.len()),
            i <= decl.inputs@.len(),
            seg_ok(a_units.take(i as int), start, out@, descs@, *adts),
        decreases decl.inputs@.len() - i,
    {
        let ghost before = out@;
        let ghost u = TyUnit::Annot { lty: sig.inputs@[i as int], origins: None, hir: decl.inputs@[i as int] };
        assert(a_units[i as int] == u);
        let res = rewrite_annotation(&sig.inputs[i], None, &decl.inputs[i], descs, adts, out);
        match res {
            Err(e) => {
                proof {
                    let rw = choose|rw: RwLTy| #[trigger] relabeled(sig.inputs@[i as int], None, rw, descs@, *adts)
                        && handle_plan(rw, decl.inputs@[i as int], *adts) == Err::<Seq<TyEdit>, Ownership>(e);
                    lemma_unit_fails(u, rw, e, descs@, *adts);
                    lemma_fail_at(a_units, i as int, u, e, descs@, *adts);
                }
                return Err(e);
            },
            Ok(()) => {
                proof {
                    lemma_seg_unit(u, before, out@, descs@, *adts);
                    lemma_seg_concat(a_units.take(i as int), seq![u], start, before, out@, descs@, *adts);
                    assert(a_units.take(i as int) + seq![u] =~= a_units.take(i + 1));
                }
            },
        }
        i = i + 1;
    }
    if let Some(hir_out) = &decl.output {
        let ghost before = out@;
        let ghost u = TyUnit::Annot { lty: sig.output, origins: None, hir: *hir_out };
        assert(a_units[i as int] == u);
        let res = rewrite_annotation(&sig.output, None, hir_out, descs, adts, out);
        match res {
            Err(e) => {
                proof {
                    let rw = choose|rw: RwLTy| #[trigger] relabeled(sig.output, None, rw, descs@, *adts)
                        && handle_plan(rw, *hir_out, *adts) == Err::<Seq<TyEdit>, Ownership>(e);
                    lemma_unit_fails(u, rw, e, descs@, *adts);
                    lemma_fail_at(a_units, i as int, u, e, descs@, *adts);
                }
                return Err(e);
            },
            Ok(()) => {
                proof {
                    lemma_seg_unit(u, before, out@, descs@, *adts);
                    lemma_seg_concat(a_units.take(i as int), seq![u], start, before, out@, descs@, *adts);
                    assert(a_units.take(i as int) + seq![u] =~= a_units);
                }
            },
        }
    } else {
        assert(a_units.take(i as int) =~= a_units);
    }
    Ok(())
}

/// Pushes the edits of the annotated `let` statements `stmts`.
fn rewrite_stmts(
    locals: &Vec<LocalDecl>,
    stmts: &Vec<LetStmt>,
    descs: &Vec<(Ownership, Quantity)>,
    adts: &AdtMetadataTable,
    out: &mut Vec<(Span, Rewrite)>,
) -> (r: Result<(), Ownership>)
    requires
        forall|i: int| 0 <= i < locals@.len() ==> lty_wf(#[trigger] locals@[i].lty, descs@.len()),
    ensures
        r is Ok ==> seg_ok(stmt_units(stmts@, locals@), old(out)@, final(out)@, descs@, *adts),
        r is Err ==> unit_fails_with(stmt_units(stmts@, locals@), r->Err_0, descs@, *adts),
        descs_supported(descs@) ==> r is Ok,
{
    let ghost start = out@;
    let ghost s_units = stmt_units(stmts@, locals@);
    let mut j: usize = 0;
    proof {
        assert(stmts@.take(0) =~= Seq::<LetStmt>::empty());
        lemma_seg_empty(out@, descs@, *adts);
    }
    while j < stmts.len()
        invariant
            s_units == stmt_units(stmts@, locals@),
            forall|k: int| 0 <= k < locals@.len() ==> lty_wf(#[trigger] locals@[k].lty, descs@.len()),
            j <= stmts@.len(),
            seg_ok(stmt_units(stmts@.take(j as int), locals@), start, out@, descs@, *adts),
        decreases stmts@.len() - j,
    {
        let st = &stmts[j];
        let ghost done = stmt_units(stmts@.take(j as int), locals@);
        proof {
            assert(stmts@.take(j + 1).drop_last() =~= stmts@.take(j as int));
            assert(stmts@.take(j + 1).last() == stmts@[j as int]);
            lemma_local_for_span_bound(locals@, st.pat_span);
        }
        let found = find_local(locals, st.pat_span);
        if st.ty.is_some() && found.is_some() {
            let t = st.ty.as_ref().unwrap();
            let l = found.unwrap();
            let ghost before = out@;
            let ghost u = TyUnit::Annot { lty: locals@[l as int].lty, origins: None, hir: *t };
            assert(local_for_span(locals@, st.pat_span) is Some);
            let ghost li = local_for_span(locals@, st.pat_span)->Some_0;
            assert(0 <= li < locals@.len());
            assert(li < locals.len());
            assert(found == Some(li as usize));
            assert(l == found->Some_0);
            assert(l as int == li);
            assert(st.ty == Some(*t));
            assert(stmts@.take(j + 1).last() == *st);
            assert(stmt_units(stmts@.take(j + 1), locals@) == done.push(u));
            let res = rewrite_annotation(&locals[l].lty, None, t, descs, adts, out);
            match res {
                Err(e) => {
                    proof {
                        let rw = choose|rw: RwLTy| #[trigger] relabeled(locals@[l as int].lty, None, rw, descs@, *adts)
                            && handle_plan(rw, *t, *adts) == Err::<Seq<TyEdit>, Ownership>(e);
                        lemma_unit_fails(u, rw, e, descs@, *adts);
                        lemma_stmt_units_prefix(stmts@, locals@, j + 1);
                        assert(s_units[done.len() as int] == stmt_units(stmts@.take(j + 1), locals@)[done.len() as int]);
                        lemma_fail_at(s_units, done.len() as int, u, e, descs@, *adts);
                    }
                    return Err(e);
                },
                Ok(()) => {
                    proof {
                        lemma_seg_unit(u, before, out@, descs@, *adts);
                        lemma_seg_concat(done, seq![u], start, before, out@, descs@, *adts);
                        assert(done + seq![u] =~= done.push(u));
                    }
                },
            }
        } else {
            assert(stmt_units(stmts@.take(j + 1), locals@) == done);
        }
        j = j + 1;
    }
    assert(stmts@.take(j as int) =~= stmts@);
    Ok(())
}

/// Pushes the edits of the struct declarations `items`.
fn rewrite_items(
    items: &Vec<StructItem>,
    descs: &Vec<(Ownership, Quantity)>,
    adts: &AdtMetadataTable,
    out: &mut Vec<(Span, Rewrite)>,
) -> (r: Result<(), Ownership>)
    requires
        forall|i: int| 0 <= i < items@.len() ==> item_ok(#[trigger] items@[i], descs@.len(), *adts),
    ensures
        r is Ok ==> seg_ok(items_units(items@, *adts), old(out)@, final(out)@, descs@, *adts),
        r is Err ==> unit_fails_with(items_units(items@, *adts), r->Err_0, descs@, *adts),
        descs_supported(descs@) ==> r is Ok,
{
    let ghost start = out@;
    let ghost c_units = items_units(items@, *adts);
    let mut k: usize = 0;
    proof {
        assert(items@.take(0) =~= Seq::<StructItem>::empty());
        lemma_seg_empty(out@, descs@, *adts);
    }
    while k < items.len()
        invariant
            c_units == items_units(items@, *adts),
            forall|m: int| 0 <= m < items@.len() ==> item_ok(#[trigger] items@[m], descs@.len(), *adts),
            k <= items@.len(),
            seg_ok(items_units(items@.take(k as int), *adts), start, out@, descs@, *adts),
        decreases items@.len() - k,
    {
        let ghost before = out@;
        let ghost done = items_units(items@.take(k as int), *adts);
        let ghost su = struct_units(items@[k as int], *adts);
        proof {
            assert(items@.take(k + 1).drop_last() =~= items@.take(k as int));
            assert(items@.take(k + 1).last() == items@[k as int]);
        }
        let res = visit_struct(&items[k], descs, adts, out);
        match res {
            Err(e) => {
                proof {
                    lemma_items_units_prefix(items@, *adts, k + 1);
                    let q = items_units(items@.take(k + 1), *adts);
                    assert(q == done + su);
                    lemma_fails_within(done, su, c_units.skip(q.len() as int), e, descs@, *adts);
                    assert(c_units =~= c_units.take(q.len() as int) + c_units.skip(q.len() as int));
                    assert(done + su + c_units.skip(q.len() as int) =~= c_units);
                }
                return Err(e);
            },
            Ok(()) => {
                proof {
                    lemma_seg_concat(done, su, start, before, out@, descs@, *adts);
                }
            },
        }
        k = k + 1;
    }
    assert(items@.take(k as int) =~= items@);
    Ok(())
}

/// The resolved signature matches the written one parameter for parameter, and its types
/// are well formed.
pub open spec fn sig_ok(decl: FnDecl, sig: FnSig, n_pointers: nat) -> bool {
    &&& sig.inputs@.len() == decl.inputs@.len()
    &&& forall|i: int| 0 <= i < sig.inputs@.len() ==> lty_wf(#[trigger] sig.inputs@[i], n_pointers)
    &&& lty_wf(sig.output, n_pointers)
}

/// The edits that rewrite the written types of one function and of the program's struct
/// declarations: the parameter and return types of its signature, the annotated `let`
/// statements of its body (each matched against the type of the local variable of its
/// pattern), then each struct declaration in `items`.
///
/// On success the edits carry out, in order, every unit of `all_units`; on failure the error
/// is the ownership on which one of those units failed.
pub fn gen_ty_rewrites(
    decl: &FnDecl,
    sig: &FnSig,
    locals: &Vec<LocalDecl>,
    stmts: &Vec<LetStmt>,
    items: &Vec<StructItem>,
    descs: &Vec<(Ownership, Quantity)>,
    adt_metadata: &AdtMetadataTable,
) -> (r: Result<Vec<(Span, Rewrite)>, Ownership>)
    requires
        sig_ok(*decl, *sig, descs@.len()),
        forall|i: int| 0 <= i < locals@.len() ==> lty_wf(#[trigger] locals@[i].lty, descs@.len()),
        forall|i: int| 0 <= i < items@.len() ==> item_ok(#[trigger] items@[i], descs@.len(), *adt_metadata),
    ensures
        r is Ok ==> units_ok(
            all_units(*decl, *sig, locals@, stmts@, items@, *adt_metadata),
            r->Ok_0@,
            descs@,
            *adt_metadata,
        ),
        r is Err ==> unit_fails_with(
            all_units(*decl, *sig, locals@, stmts@, items@, *adt_metadata),
            r->Err_0,
            descs@,
            *adt_metadata,
        ),
        descs_supported(descs@) ==> r is Ok,
{
    let ghost adts = *adt_metadata;
    let ghost a_units = sig_units(*decl, *sig);
    let ghost s_units = stmt_units(stmts@, locals@);
    let ghost c_units = items_units(items@, adts);
    let mut out: Vec<(Span, Rewrite)> = Vec::new();
    let ghost e0 = out@;
    match rewrite_sig(decl, sig, descs, adt_metadata, &mut out) {
        Err(e) => {
            proof { lemma_fails_within(Seq::empty(), a_units, s_units + c_units, e, descs@, adts);
                assert(Seq::<TyUnit>::empty() + a_units + (s_units + c_units) =~= a_units + s_units + c_units); }
            return Err(e);
        },
        Ok(()) => {},
    }
    let ghost e1 = out@;
    match rewrite_stmts(locals, stmts, descs, adt_metadata, &mut out) {
        Err(e) => {
            proof { lemma_fails_within(a_units, s_units, c_units, e, descs@, adts); }
            return Err(e);
        },
        Ok(()) => {},
    }
    let ghost e2 = out@;
    match rewrite_items(items, descs, adt_metadata, &mut out) {
        Err(e) => {
            proof { lemma_fails_within(a_units + s_units, c_units, Seq::empty(), e, descs@, adts);
                assert(a_units + s_units + c_units + Seq::<TyUnit>::empty() =~= a_units + s_units + c_units); }
            return Err(e);
        },
        Ok(()) => {},
    }
    proof {
        lemma_seg_concat(a_units, s_units, e0, e1, e2, descs@, adts);
        lemma_seg_concat(a_units + s_units, c_units, e0, e2, out@, descs@, adts);
        assert(out@.skip(0) =~= out@);
    }
    Ok(out)
}

/// `text` is the printed rewritten type of the local variable `l`.
pub open spec fn local_ty_ok(l: LocalDecl, text: Seq<char>, descs: Seq<(Ownership, Quantity)>, adts: AdtMetadataTable) -> bool {
    exists|rw: RwLTy| #[trigger] relabeled(l.lty, None, rw, descs, adts) && ty_text(rw, true) == Ok::<Seq<char>, Ownership>(text)
}

/// The printed rewritten type of each local variable, in order; the error is the ownership on
/// which one of them failed.
pub fn rewritten_local_tys(
    locals: &Vec<LocalDecl>,
    descs: &Vec<(Ownership, Quantity)>,
    adt_metadata: &AdtMetadataTable,
) -> (r: Result<Vec<String>, Ownership>)
    requires
        forall|i: int| 0 <= i < locals@.len() ==> lty_wf(#[trigger] locals@[i].lty, descs@.len()),
    ensures
        r is Ok ==> r->Ok_0@.len() == locals@.len() && forall|i: int|
            0 <= i < locals@.len() ==> #[trigger] local_ty_ok(locals@[i], r->Ok_0@[i]@, descs@, *adt_metadata),
        r is Err ==> exists|i: int, rw: RwLTy|
            0 <= i < locals@.len() && #[trigger] relabeled(locals@[i].lty, None, rw, descs@, *adt_metadata)
                && ty_text(rw, true) == Err::<Seq<char>, Ownership>(r->Err_0),
        descs_supported(descs@) ==> r is Ok,
{
    let mut out: Vec<String> = Vec::new();
    let mut i: usize = 0;
    while i < locals.len()
        invariant
            i <= locals@.len(),
            forall|j: int| 0 <= j < locals@.len() ==> lty_wf(#[trigger] locals@[j].lty, descs@.len()),
            out@.len() == i,
            forall|j: int| 0 <= j < i ==> #[trigger] local_ty_ok(locals@[j], out@[j]@, descs@, *adt_metadata),
        decreases locals@.len() - i,
    {
        let rw = relabel_rewrites(descs, &locals[i].lty, adt_metadata);
        proof {
            if descs_supported(descs@) {
                lemma_relabeled_supported(locals@[i as int].lty, None, rw, descs@, *adt_metadata);
                lemma_text_ok(rw, true);
            }
        }
        match print_ty(&rw, true) {
            Err(e) => {
                assert(relabeled(locals@[i as int].lty, None, rw, descs@, *adt_metadata));
                return Err(e);
            },
            Ok(s) => {
                let ghost prev = out@;
                out.push(s);
                assert forall|j: int| 0 <= j < i + 1 implies #[trigger] local_ty_ok(locals@[j], out@[j]@, descs@, *adt_metadata) by {
                    if j < i {
                        assert(out@[j] == prev[j]);
                    } else {
                        assert(relabeled(locals@[j].lty, None, rw, descs@, *adt_metadata));
                    }
                }
            },
        }
        i = i + 1;
    }
    Ok(out)
}

/// A pointer written under another name (a type alias, a path that does not have the shape
/// of a pointer) and decided to become a unique borrow of one element is replaced as a
/// whole, by `&mut ` followed by the rewritten pointee type.
pub proof fn lemma_alias_fallback(rw: RwLTy, h: HirTy, adts: AdtMetadataTable)
    requires
        rw_wf(rw),
        rw.kind is RawPtr,
        rw.label.ty_desc == Some((Ownership::Mut, Quantity::Single)),
        h.kind is Path,
        ty_text(rw.args@[0], true) is Ok,
    ensures
        handle_plan(rw, h, adts) == Ok::<Seq<TyEdit>, Ownership>(
            seq![TyEdit::Whole { span: h.span, text: "&mut "@ + ty_text(rw.args@[0], true)->Ok_0 }],
        ),
{
    let args = rw.args@;
    assert(args.len() == 1);
    assert(args.drop_last() =~= Seq::<RwLTy>::empty());
    assert(args.last() == args[0]);
    assert(ty_texts(Seq::<RwLTy>::empty(), true) == Ok::<Seq<Seq<char>>, Ownership>(Seq::empty()));
    let t = ty_text(args[0], true)->Ok_0;
    assert(ty_texts(args, true) == Ok::<Seq<Seq<char>>, Ownership>(Seq::<Seq<char>>::empty().push(t)));
    assert(Seq::<Seq<char>>::empty().push(t)[0] == t);
}

/// A decision that the rewriting can express.
pub open spec fn desc_supported(d: (Ownership, Quantity)) -> bool {
    d.0 != Ownership::Rc && d.0 != Ownership::Box
}

/// Every decision of `descs` can be expressed.
pub open spec fn descs_supported(descs: Seq<(Ownership, Quantity)>) -> bool {
    forall|i: int| 0 <= i < descs.len() ==> desc_supported(#[trigger] descs[i])
}

/// Every decision in `t` can be expressed.
pub open spec fn rw_supported(t: RwLTy) -> bool
    decreases t, 1nat,
{
    &&& (t.label.ty_desc is Some ==> desc_supported(t.label.ty_desc->Some_0))
    &&& rws_supported(t.args@)
}

pub open spec fn rws_supported(ts: Seq<RwLTy>) -> bool
    decreases ts, 0nat,
{
    ts.len() > 0 ==> rws_supported(ts.drop_last()) && rw_supported(ts.last())
}

pub proof fn lemma_rws_supported(ts: Seq<RwLTy>)
    ensures
        rws_supported(ts) <==> forall|i: int| 0 <= i < ts.len() ==> #[trigger] rw_supported(ts[i]),
    decreases ts.len(),
{
    if ts.len() > 0 {
        let init = ts.drop_last();
        lemma_rws_supported(init);
        if rws_supported(ts) {
            assert forall|i: int| 0 <= i < ts.len() implies #[trigger] rw_supported(ts[i]) by {
                if i < ts.len() - 1 {
                    assert(init[i] == ts[i]);
                }
            }
        }
        if forall|i: int| 0 <= i < ts.len() ==> #[trigger] rw_supported(ts[i]) {
            assert forall|i: int| 0 <= i < init.len() implies #[trigger] rw_supported(init[i]) by {
                assert(init[i] == ts[i]);
            }
            assert(rw_supported(ts[ts.len() - 1]));
        }
    }
}

/// Relabelling with decisions that can all be expressed gives a type whose decisions can.
pub proof fn lemma_relabeled_supported(
    lty: LTy,
    origins: Option<OriginTree>,
    rw: RwLTy,
    descs: Seq<(Ownership, Quantity)>,
    adts: AdtMetadataTable,
)
    requires
        lty_wf(lty, descs.len()),
        relabeled(lty, origins, rw, descs, adts),
        descs_supported(descs),
    ensures
        rw_supported(rw),
    decreases lty,
{
    lemma_ltys_wf(lty.args@, descs.len());
    lemma_relabeled_args(lty.args@, origins, rw.args@, descs, adts);
    assert forall|i: int| 0 <= i < rw.args@.len() implies #[trigger] rw_supported(rw.args@[i]) by {
        assert(decreases_to!(lty => lty.args));
        assert(decreases_to!(lty.args => lty.args@));
        assert(decreases_to!(lty.args@ => lty.args@[i]));
        lemma_relabeled_supported(lty.args@[i], child_origins(origins, i), rw.args@[i], descs, adts);
    }
    lemma_rws_supported(rw.args@);
    if lty.label is Some {
        assert(desc_supported(descs[lty.label->Some_0 as int]));
    }
}

/// A type whose decisions can all be expressed prints.
pub proof fn lemma_text_ok(t: RwLTy, apply: bool)
    requires
        rw_wf(t),
        rw_supported(t),
    ensures
        ty_text(t, apply) is Ok,
    decreases t, 1nat,
{
    lemma_rws_wf(t.args@);
    lemma_rws_supported(t.args@);
    lemma_texts_ok(t.args@, apply);
    lemma_texts_len(t.args@, apply);
}

pub proof fn lemma_texts_ok(ts: Seq<RwLTy>, apply: bool)
    requires
        forall|i: int| 0 <= i < ts.len() ==> #[trigger] rw_wf(ts[i]) && rw_supported(ts[i]),
    ensures
        ty_texts(ts, apply) is Ok,
    decreases ts, 0nat,
{
    if ts.len() > 0 {
        let init = ts.drop_last();
        assert forall|i: int| 0 <= i < init.len() implies #[trigger] rw_wf(init[i]) && rw_supported(init[i]) by {
            assert(init[i] == ts[i]);
        }
        lemma_texts_ok(init, apply);
        assert(ts.last() == ts[ts.len() - 1]);
        assert(rw_wf(ts[ts.len() - 1]) && rw_supported(ts[ts.len() - 1]));
        lemma_text_ok(ts.last(), apply);
    }
}

/// A type whose decisions can all be expressed is rewritten without failure.
pub proof fn lemma_plan_ok(t: RwLTy, h: HirTy, adts: AdtMetadataTable)
    requires
        rw_wf(t),
        rw_supported(t),
    ensures
        handle_plan(t, h, adts) is Ok,
    decreases t, 1nat,
{
    lemma_text_ok(t, true);
    lemma_rws_wf(t.args@);
    lemma_rws_supported(t.args@);
    lemma_texts_ok(t.args@, false);
    match hir_args_spec(t.kind, t.args@.len(), h) {
        Some(hargs) => {
            lemma_plans_ok(t.args@, hargs, adts);
        },
        None => {},
    }
}

pub proof fn lemma_plans_ok(ts: Seq<RwLTy>, hs: Seq<HirTy>, adts: AdtMetadataTable)
    requires
        forall|i: int| 0 <= i < ts.len() ==> #[trigger] rw_wf(ts[i]) && rw_supported(ts[i]),
    ensures
        handle_plans(ts, hs, adts) is Ok,
    decreases ts, 0nat,
{
    let n = if ts.len() < hs.len() { ts.len() } else { hs.len() };
    if n > 0 {
        let init = ts.take(n - 1);
        assert forall|i: int| 0 <= i < init.len() implies #[trigger] rw_wf(init[i]) && rw_supported(init[i]) by {
            assert(init[i] == ts[i]);
        }
        lemma_plans_ok(init, hs.take(n - 1), adts);
        assert(rw_wf(ts[n - 1]) && rw_supported(ts[n - 1]));
        lemma_plan_ok(ts[n - 1], hs[n - 1], adts);
    }
}

/// The range that the edit `e` replaces.
pub open spec fn edit_span(e: TyEdit) -> Span {
    match e {
        TyEdit::Pointer { span, .. } => span,
        TyEdit::Whole { span, .. } => span,
        TyEdit::Ctor { span, .. } => span,
        TyEdit::Params { span, .. } => span,
    }
}

/// The edit `e` holds a placeholder for the range `s`.
pub open spec fn has_placeholder(e: TyEdit, s: Span) -> bool {
    match e {
        TyEdit::Pointer { pointee, .. } => pointee == s,
        TyEdit::Ctor { subs, .. } => subs.contains(s),
        _ => false,
    }
}

/// Where the written type `h` has the shape of `rw`, its edits are at most one edit at `h`
/// itself followed by the edits of its written arguments, and that edit holds a placeholder
/// for the range of each argument: every nested edit is reached through a placeholder of the
/// edit around it.
pub proof fn lemma_nested_edits_reached(rw: RwLTy, h: HirTy, adts: AdtMetadataTable)
    requires
        rw_wf(rw),
        handle_plan(rw, h, adts) is Ok,
        hir_args_spec(rw.kind, rw.args@.len(), h) is Some,
    ensures
        ({
            let hargs = hir_args_spec(rw.kind, rw.args@.len(), h)->Some_0;
            let own = pointer_plan(rw, h.span, hargs)->Ok_0 + adt_ctor_plan(rw, h, hargs, adts)->Ok_0;
            let nested = if rw.label.descendant_has_rewrite {
                handle_plans(rw.args@, hargs, adts)->Ok_0
            } else {
                Seq::empty()
            };
            &&& own.len() <= 1
            &&& handle_plan(rw, h, adts)->Ok_0 == own + nested
            &&& own.len() == 1 ==> edit_span(own[0]) == h.span
            &&& own.len() == 1 ==> forall|i: int|
                0 <= i < rw.args@.len() && 0 <= i < hargs.len() ==> has_placeholder(own[0], #[trigger] hargs[i].span)
        }),
{
    let hargs = hir_args_spec(rw.kind, rw.args@.len(), h)->Some_0;
    let e1 = pointer_plan(rw, h.span, hargs)->Ok_0;
    let e2 = adt_ctor_plan(rw, h, hargs, adts)->Ok_0;
    if !(rw.kind is Adt) && rw.label.ty_desc is None && !rw.label.descendant_has_rewrite {
        assert(e1 + e2 =~= Seq::<TyEdit>::empty());
        assert(Seq::<TyEdit>::empty() + Seq::<TyEdit>::empty() =~= Seq::<TyEdit>::empty());
    } else {
        if rw.label.ty_desc is Some {
            assert(e2 =~= Seq::<TyEdit>::empty());
            assert(e1 + e2 =~= e1);
        } else {
            assert(e1 + e2 =~= e2);
            if e2.len() == 1 {
                assert forall|i: int| 0 <= i < rw.args@.len() && 0 <= i < hargs.len() implies has_placeholder(
                    (e1 + e2)[0],
                    #[trigger] hargs[i].span,
                ) by {
                    assert(spans_of(hargs)[i] == hargs[i].span);
                }
            }
        }
        if !rw.label.descendant_has_rewrite {
            assert(e1 + e2 + Seq::<TyEdit>::empty() =~= e1 + e2);
        }
    }
}

/// A written `*mut T` whose pointer is decided to become a unique borrow of a slice, with no
/// lifetime and nothing to rewrite inside `T`, gets exactly one edit: at the written pointer,
/// `&mut [$0]` with the placeholder for the written `T`.
pub proof fn lemma_mut_slice_pointer(rw: RwLTy, h: HirTy, inner: HirTy, adts: AdtMetadataTable, e: (Span, Rewrite))
    requires
        rw_wf(rw),
        rw.kind == TyKind::RawPtr(Mutability::Mut),
        rw.label.ty_desc == Some((Ownership::Mut, Quantity::Slice)),
        rw.label.lifetime is None,
        !rw.label.descendant_has_rewrite,
        h.kind == HirTyKind::Ptr(Box::new(inner), Mutability::Mut),
    ensures
        handle_plan(rw, h, adts) == Ok::<Seq<TyEdit>, Ownership>(
            seq![TyEdit::Pointer { span: h.span, own: Ownership::Mut, qty: Quantity::Slice, lifetime: None, pointee: inner.span }],
        ),
        realizes(e, TyEdit::Pointer { span: h.span, own: Ownership::Mut, qty: Quantity::Slice, lifetime: None, pointee: inner.span })
            ==> e == (h.span, Rewrite::TyRef(
            LifetimeName::Elided,
            Box::new(Rewrite::TySlice(Box::new(Rewrite::Sub(0, inner.span)))),
            Mutability::Mut,
        )),
{
    let hargs = hir_args_spec(rw.kind, rw.args@.len(), h)->Some_0;
    assert(hargs == seq![inner]);
    assert(adt_ctor_plan(rw, h, hargs, adts) == Ok::<Seq<TyEdit>, Ownership>(Seq::empty()));
    let p = seq![TyEdit::Pointer { span: h.span, own: Ownership::Mut, qty: Quantity::Slice, lifetime: None, pointee: inner.span }];
    assert(p + Seq::<TyEdit>::empty() =~= p);
}

} // verus!
