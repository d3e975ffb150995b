//! The type model: resolved types labelled with pointer identifiers or rewrite decisions,
//! and the printing of a resolved type, with or without its rewrite decisions applied.
use vstd::prelude::*;

use crate::rewrite::{decimal, push_decimal, Mutability};

verus! {

broadcast use {vstd::std_specs::vec::group_vec_axioms, vstd::seq::group_seq_axioms};

#[derive(Clone, Copy, PartialEq, Eq, Debug, Structural)]
pub enum IntTy {
    Isize,
    I8,
    I16,
    I32,
    I64,
    I128,
}

#[derive(Clone, Copy, PartialEq, Eq, Debug, Structural)]
pub enum UintTy {
    Usize,
    U8,
    U16,
    U32,
    U64,
    U128,
}

#[derive(Clone, Copy, PartialEq, Eq, Debug, Structural)]
pub enum FloatTy {
    F32,
    F64,
}

/// A primitive type.
#[derive(Clone, Copy, PartialEq, Eq, Debug, Structural)]
pub enum PrimTy {
    Bool,
    Char,
    Int(IntTy),
    Uint(UintTy),
    Float(FloatTy),
    Str,
}

/// How a pointer-typed position should be expressed after rewriting.
#[derive(Clone, Copy, PartialEq, Eq, Debug, Structural)]
pub enum Ownership {
    /// `*const T`
    Raw,
    /// `*mut T`
    RawMut,
    /// `&T`
    Imm,
    /// `&Cell<T>`
    Cell,
    /// `&mut T`
    Mut,
    /// `Rc<T>`
    Rc,
    /// `Box<T>`
    Box,
}

/// How many elements a pointer-typed position addresses.
#[derive(Clone, Copy, PartialEq, Eq, Debug, Structural)]
pub enum Quantity {
    /// One element.
    Single,
    /// A contiguous run of known bounds.
    Slice,
    /// A run that supports pointer arithmetic; for now rewritten exactly like `Slice`.
    OffsetPtr,
}

/// A lifetime argument inferred for a pointer or reference position.
#[derive(Clone, PartialEq, Eq, Debug)]
pub enum OriginArg {
    /// A lifetime that the program already names, such as `'a`.
    Actual(String),
    /// A lifetime that the rewrite introduces, printed `'h0`, `'h1`, ...
    Hypothetical(usize),
}

/// A lifetime parameter of an aggregate type, after rewriting.
#[derive(Clone, PartialEq, Eq, Debug)]
pub enum OriginParam {
    Actual(String),
    Hypothetical(usize),
}

/// A struct, enum or union definition. `local` is its index in the metadata table when it
/// is defined in the program being rewritten.
#[derive(Clone, PartialEq, Eq, Debug)]
pub struct AdtDef {
    pub path: String,
    pub local: Option<usize>,
}

/// The outermost constructor of a resolved type. Its type arguments are held apart.
#[derive(Clone, PartialEq, Eq, Debug)]
pub enum TyKind {
    Prim(PrimTy),
    /// `[T; n]`
    Array(usize),
    /// `[T]`
    Slice,
    /// `*const T`, `*mut T`
    RawPtr(Mutability),
    /// `&T`, `&mut T`
    Ref(Mutability),
    /// `(A, B, ...)`
    Tuple,
    /// `Path<A, B, ...>`, with the type arguments only
    Adt(AdtDef),
    /// Any other type, printed as the text it carries.
    Other(String),
}

/// A resolved type whose pointer positions carry pointer identifiers.
#[derive(Debug)]
pub struct LTy {
    pub kind: TyKind,
    pub args: Vec<LTy>,
    pub label: Option<usize>,
}

/// The rewrite decision attached to one position of a resolved type.
#[derive(Debug)]
pub struct RewriteLabel {
    /// Rewrite a raw pointer, whose ownership and quantity have been inferred as indicated.
    pub ty_desc: Option<(Ownership, Quantity)>,
    /// Set when a child or other descendant of this type requires rewriting.
    pub descendant_has_rewrite: bool,
    /// An explicit lifetime for a pointer or reference.
    pub lifetime: Option<OriginArg>,
}

/// A resolved type annotated with rewrite decisions.
#[derive(Debug)]
pub struct RwLTy {
    pub kind: TyKind,
    pub args: Vec<RwLTy>,
    pub label: RewriteLabel,
}

/// The number of type arguments that a constructor takes, where it is fixed.
pub open spec fn kind_arity_ok(kind: TyKind, n: nat) -> bool {
    match kind {
        TyKind::Prim(_) | TyKind::Other(_) => n == 0,
        TyKind::Array(_) | TyKind::Slice | TyKind::RawPtr(_) | TyKind::Ref(_) => n == 1,
        TyKind::Tuple | TyKind::Adt(_) => true,
    }
}

/// Each constructor has its arity, and only pointers and references carry an identifier,
/// which is below `n_pointers`.
pub open spec fn lty_wf(t: LTy, n_pointers: nat) -> bool
    decreases t, 1nat,
{
    &&& kind_arity_ok(t.kind, t.args@.len())
    &&& (t.label is Some ==> {
        &&& t.label->Some_0 < n_pointers
        &&& (t.kind is RawPtr || t.kind is Ref)
    })
    &&& ltys_wf(t.args@, n_pointers)
}

/// Every type of `ts` is well formed.
pub open spec fn ltys_wf(ts: Seq<LTy>, n_pointers: nat) -> bool
    decreases ts, 0nat,
{
    ts.len() > 0 ==> ltys_wf(ts.drop_last(), n_pointers) && lty_wf(ts.last(), n_pointers)
}

/// Each constructor has its arity, and only pointers and references carry a decision.
pub open spec fn rw_wf(t: RwLTy) -> bool
    decreases t, 1nat,
{
    &&& kind_arity_ok(t.kind, t.args@.len())
    &&& (t.label.ty_desc is Some ==> (t.kind is RawPtr || t.kind is Ref))
    &&& rws_wf(t.args@)
}

/// Every type of `ts` is well formed.
pub open spec fn rws_wf(ts: Seq<RwLTy>) -> bool
    decreases ts, 0nat,
{
    ts.len() > 0 ==> rws_wf(ts.drop_last()) && rw_wf(ts.last())
}

pub proof fn lemma_ltys_wf(ts: Seq<LTy>, n_pointers: nat)
    ensures
        ltys_wf(ts, n_pointers) <==> forall|i: int| 0 <= i < ts.len() ==> #[trigger] lty_wf(ts[i], n_pointers),
    decreases ts.len(),
{
    if ts.len() > 0 {
        let init = ts.drop_last();
        lemma_ltys_wf(init, n_pointers);
        if ltys_wf(ts, n_pointers) {
            assert forall|i: int| 0 <= i < ts.len() implies #[trigger] lty_wf(ts[i], n_pointers) by {
                if i < ts.len() - 1 {
                    assert(init[i] == ts[i]);
                }
            }
        }
        if forall|i: int| 0 <= i < ts.len() ==> #[trigger] lty_wf(ts[i], n_pointers) {
            assert forall|i: int| 0 <= i < init.len() implies #[trigger] lty_wf(init[i], n_pointers) by {
                assert(init[i] == ts[i]);
            }
            assert(lty_wf(ts[ts.len() - 1], n_pointers));
        }
    }
}

pub proof fn lemma_rws_wf(ts: Seq<RwLTy>)
    ensures
        rws_wf(ts) <==> forall|i: int| 0 <= i < ts.len() ==> #[trigger] rw_wf(ts[i]),
    decreases ts.len(),
{
    if ts.len() > 0 {
        let init = ts.drop_last();
        lemma_rws_wf(init);
        if rws_wf(ts) {
            assert forall|i: int| 0 <= i < ts.len() implies #[trigger] rw_wf(ts[i]) by {
                if i < ts.len() - 1 {
                    assert(init[i] == ts[i]);
                }
            }
        }
        if forall|i: int| 0 <= i < ts.len() ==> #[trigger] rw_wf(ts[i]) {
            assert forall|i: int| 0 <= i < init.len() implies #[trigger] rw_wf(init[i]) by {
                assert(init[i] == ts[i]);
            }
            assert(rw_wf(ts[ts.len() - 1]));
        }
    }
}

pub open spec fn int_text(t: IntTy) -> Seq<char> {
    match t {
        IntTy::Isize => "isize"@,
        IntTy::I8 => "i8"@,
        IntTy::I16 => "i16"@,
        IntTy::I32 => "i32"@,
        IntTy::I64 => "i64"@,
        IntTy::I128 => "i128"@,
    }
}

pub open spec fn uint_text(t: UintTy) -> Seq<char> {
    match t {
        UintTy::Usize => "usize"@,
        UintTy::U8 => "u8"@,
        UintTy::U16 => "u16"@,
        UintTy::U32 => "u32"@,
        UintTy::U64 => "u64"@,
        UintTy::U128 => "u128"@,
    }
}

pub open spec fn prim_text(p: PrimTy) -> Seq<char> {
    match p {
        PrimTy::Bool => "bool"@,
        PrimTy::Char => "char"@,
        PrimTy::Int(t) => int_text(t),
        PrimTy::Uint(t) => uint_text(t),
        PrimTy::Float(FloatTy::F32) => "f32"@,
        PrimTy::Float(FloatTy::F64) => "f64"@,
        PrimTy::Str => "str"@,
    }
}

/// `parts` separated by `sep`.
pub open spec fn join(parts: Seq<Seq<char>>, sep: Seq<char>) -> Seq<char>
    decreases parts.len(),
{
    if parts.len() == 0 {
        Seq::empty()
    } else if parts.len() == 1 {
        parts[0]
    } else {
        join(parts.drop_last(), sep) + sep + parts.last()
    }
}

/// The text of a type with constructor `kind` and type arguments printed as `args`.
pub open spec fn kind_text(kind: TyKind, args: Seq<Seq<char>>) -> Seq<char> {
    match kind {
        TyKind::Prim(p) => prim_text(p),
        TyKind::Array(n) => "["@ + args[0] + "; "@ + decimal(n as nat) + "]"@,
        TyKind::Slice => "["@ + args[0] + "]"@,
        TyKind::RawPtr(Mutability::Not) => "*const "@ + args[0],
        TyKind::RawPtr(Mutability::Mut) => "*mut "@ + args[0],
        TyKind::Ref(Mutability::Not) => "&"@ + args[0],
        TyKind::Ref(Mutability::Mut) => "&mut "@ + args[0],
        TyKind::Tuple => "("@ + join(args, ", "@) + (if args.len() == 1 {
            ","@
        } else {
            Seq::empty()
        }) + ")"@,
        TyKind::Adt(def) => if args.len() == 0 {
            def.path@
        } else {
            def.path@ + "<"@ + join(args, ", "@) + ">"@
        },
        TyKind::Other(s) => s@,
    }
}

/// The text of the type that a pointer to `pointee` becomes under the decision `(own, qty)`,
/// or the ownership that cannot be synthesized yet.
pub open spec fn desc_text(own: Ownership, qty: Quantity, pointee: Seq<char>) -> Result<
    Seq<char>,
    Ownership,
> {
    let celled = if own == Ownership::Cell {
        "std::cell::Cell<"@ + pointee + ">"@
    } else {
        pointee
    };
    let counted = match qty {
        Quantity::Single => celled,
        Quantity::Slice | Quantity::OffsetPtr => "["@ + celled + "]"@,
    };
    match own {
        Ownership::Raw => Ok("*const "@ + counted),
        Ownership::RawMut => Ok("*mut "@ + counted),
        Ownership::Imm | Ownership::Cell => Ok("&"@ + counted),
        Ownership::Mut => Ok("&mut "@ + counted),
        Ownership::Box => Ok("std::boxed::Box<"@ + counted + ">"@),
        Ownership::Rc => Err(Ownership::Rc),
    }
}

/// The text of the type `t`; when `apply` holds, with every rewrite decision in it applied.
pub open spec fn ty_text(t: RwLTy, apply: bool) -> Result<Seq<char>, Ownership>
    decreases t, 1nat,
{
    match ty_texts(t.args@, apply) {
        Err(e) => Err(e),
        Ok(args) => if apply && t.label.ty_desc is Some {
            let (own, qty) = t.label.ty_desc->Some_0;
            desc_text(own, qty, args[0])
        } else {
            Ok(kind_text(t.kind, args))
        },
    }
}

/// The texts of the types `ts`, or the first ownership that cannot be synthesized.
pub open spec fn ty_texts(ts: Seq<RwLTy>, apply: bool) -> Result<Seq<Seq<char>>, Ownership>
    decreases ts, 0nat,
{
    if ts.len() == 0 {
        Ok(Seq::empty())
    } else {
        match ty_texts(ts.drop_last(), apply) {
            Err(e) => Err(e),
            Ok(init) => match ty_text(ts.last(), apply) {
                Err(e) => Err(e),
                Ok(s) => Ok(init.push(s)),
            },
        }
    }
}

/// The texts held by `v`.
pub open spec fn texts(v: Vec<String>) -> Seq<Seq<char>> {
    v@.map_values(|s: String| s@)
}

fn push_prim(out: &mut String, p: PrimTy)
    ensures
        final(out)@ == old(out)@ + prim_text(p),
{
    match p {
        PrimTy::Bool => out.append("bool"),
        PrimTy::Char => out.append("char"),
        PrimTy::Int(t) => match t {
            IntTy::Isize => out.append("isize"),
            IntTy::I8 => out.append("i8"),
            IntTy::I16 => out.append("i16"),
            IntTy::I32 => out.append("i32"),
            IntTy::I64 => out.append("i64"),
            IntTy::I128 => out.append("i128"),
        },
        PrimTy::Uint(t) => match t {
            UintTy::Usize => out.append("usize"),
            UintTy::U8 => out.append("u8"),
            UintTy::U16 => out.append("u16"),
            UintTy::U32 => out.append("u32"),
            UintTy::U64 => out.append("u64"),
            UintTy::U128 => out.append("u128"),
        },
        PrimTy::Float(FloatTy::F32) => out.append("f32"),
        PrimTy::Float(FloatTy::F64) => out.append("f64"),
        PrimTy::Str => out.append("str"),
    }
}

/// Appends `parts` separated by `sep` to `out`.
pub fn push_join(out: &mut String, parts: &Vec<String>, sep: &str)
    ensures
        final(out)@ == old(out)@ + join(texts(*parts), sep@),
{
    let ghost start = out@;
    let mut i: usize = 0;
    while i < parts.len()
        invariant
            i <= parts@.len(),
            out@ == start + join(texts(*parts).take(i as int), sep@),
        decreases parts@.len() - i,
    {
        assert(texts(*parts).take(i as int + 1).drop_last() =~= texts(*parts).take(i as int));
        if i > 0 {
            out.append(sep);
        }
        out.append(parts[i].as_str());
        i = i + 1;
        proof {
            if i == 1 {
                assert(join(texts(*parts).take(0), sep@) =~= Seq::empty());
            }
            assert(out@ =~= start + join(texts(*parts).take(i as int), sep@));
        }
    }
    assert(texts(*parts).take(i as int) =~= texts(*parts));
}

/// The text of a type with constructor `kind` whose type arguments print as `args`.
fn print_kind(kind: &TyKind, args: &Vec<String>) -> (r: String)
    requires
        kind_arity_ok(*kind, args@.len()),
    ensures
        r@ == kind_text(*kind, texts(*args)),
{
    let mut out = String::new();
    match kind {
        TyKind::Prim(p) => push_prim(&mut out, *p),
        TyKind::Array(n) => {
            out.append("[");
            out.append(args[0].as_str());
            out.append("; ");
            push_decimal(&mut out, *n);
            out.append("]");
        },
        TyKind::Slice => {
            out.append("[");
            out.append(args[0].as_str());
            out.append("]");
        },
        TyKind::RawPtr(Mutability::Not) => {
            out.append("*const ");
            out.append(args[0].as_str());
        },
        TyKind::RawPtr(Mutability::Mut) => {
            out.append("*mut ");
            out.append(args[0].as_str());
        },
        TyKind::Ref(Mutability::Not) => {
            out.append("&");
            out.append(args[0].as_str());
        },
        TyKind::Ref(Mutability::Mut) => {
            out.append("&mut ");
            out.append(args[0].as_str());
        },
        TyKind::Tuple => {
            out.append("(");
            push_join(&mut out, args, ", ");
            if args.len() == 1 {
                out.append(",");
            }
            out.append(")");
        },
        TyKind::Adt(def) => {
            out.append(def.path.as_str());
            if args.len() > 0 {
                out.append("<");
                push_join(&mut out, args, ", ");
                out.append(">");
            }
        },
        TyKind::Other(s) => out.append(s.as_str()),
    }
    assert(out@ =~= kind_text(*kind, texts(*args)));
    out
}

/// The text of the type that a pointer to `pointee` becomes under the decision `(own, qty)`.
fn print_desc(own: Ownership, qty: Quantity, pointee: &String) -> (r: Result<String, Ownership>)
    ensures
        match desc_text(own, qty, pointee@) {
            Ok(s) => r is Ok && r->Ok_0@ == s,
            Err(e) => r == Err::<String, Ownership>(e),
        },
{
    if own == Ownership::Rc {
        return Err(Ownership::Rc);
    }
    let mut celled = String::new();
    if own == Ownership::Cell {
        celled.append("std::cell::Cell<");
        celled.append(pointee.as_str());
        celled.append(">");
    } else {
        celled.append(pointee.as_str());
    }
    let mut counted = String::new();
    match qty {
        Quantity::Single => counted.append(celled.as_str()),
        // Offset pointers are written as slices until a dedicated type exists.
        Quantity::Slice | Quantity::OffsetPtr => {
            counted.append("[");
            counted.append(celled.as_str());
            counted.append("]");
        },
    }
    let mut out = String::new();
    match own {
        Ownership::Raw => out.append("*const "),
        Ownership::RawMut => out.append("*mut "),
        Ownership::Imm | Ownership::Cell => out.append("&"),
        Ownership::Mut => out.append("&mut "),
        Ownership::Box => out.append("std::boxed::Box<"),
        Ownership::Rc => {},
    }
    out.append(counted.as_str());
    if own == Ownership::Box {
        out.append(">");
    }
    assert(out@ =~= desc_text(own, qty, pointee@)->Ok_0);
    Ok(out)
}

/// The text of the type `t`; when `apply` holds, with every rewrite decision in it applied.
/// Fails with the first ownership met that cannot be synthesized yet.
pub fn print_ty(t: &RwLTy, apply: bool) -> (r: Result<String, Ownership>)
    requires
        rw_wf(*t),
    ensures
        match ty_text(*t, apply) {
            Ok(s) => r is Ok && r->Ok_0@ == s,
            Err(e) => r == Err::<String, Ownership>(e),
        },
    decreases t, 1nat,
{
    proof {
        lemma_rws_wf(t.args@);
    }
    let args = match print_tys(&t.args, apply) {
        Err(e) => return Err(e),
        Ok(a) => a,
    };
    proof {
        lemma_texts_len(t.args@, apply);
    }
    if apply && t.label.ty_desc.is_some() {
        let (own, qty) = t.label.ty_desc.unwrap();
        print_desc(own, qty, &args[0])
    } else {
        Ok(print_kind(&t.kind, &args))
    }
}

/// The texts of the types `ts`, or the first ownership met that cannot be synthesized yet.
pub fn print_tys(ts: &Vec<RwLTy>, apply: bool) -> (r: Result<Vec<String>, Ownership>)
    requires
        rws_wf(ts@),
    ensures
        match ty_texts(ts@, apply) {
            Ok(v) => r is Ok && texts(r->Ok_0) == v,
            Err(e) => r == Err::<Vec<String>, Ownership>(e),
        },
    decreases ts, 0nat,
{
    let mut out: Vec<String> = Vec::new();
    let mut i: usize = 0;
    assert(ts@.take(0) =~= Seq::<RwLTy>::empty());
    proof {
        lemma_rws_wf(ts@);
    }
    assert(texts(out) =~= Seq::<Seq<char>>::empty());
    while i < ts.len()
        invariant
            i <= ts@.len(),
            forall|j: int| 0 <= j < ts@.len() ==> #[trigger] rw_wf(ts@[j]),
            ty_texts(ts@.take(i as int), apply) == Ok::<Seq<Seq<char>>, Ownership>(texts(out)),
        decreases ts@.len() - i,
    {
        assert(ts@.take(i as int + 1).drop_last() =~= ts@.take(i as int));
        assert(ts@.take(i as int + 1).last() == ts@[i as int]);
        assert(decreases_to!(ts => ts[i as int]));
        let s = match print_ty(&ts[i], apply) {
            Err(e) => {
                proof { lemma_texts_err_extends(ts@, i as int + 1, apply); }
                return Err(e);
            },
            Ok(s) => s,
        };
        let ghost before = out;
        out.push(s);
        i = i + 1;
        assert(texts(out) =~= texts(before).push(s@));
    }
    assert(ts@.take(i as int) =~= ts@);
    assert(ty_texts(Seq::<RwLTy>::empty(), apply) == Ok::<Seq<Seq<char>>, Ownership>(Seq::empty()));
    Ok(out)
}

/// Printing types gives one text per type.
pub proof fn lemma_texts_len(ts: Seq<RwLTy>, apply: bool)
    ensures
        ty_texts(ts, apply) is Ok ==> ty_texts(ts, apply)->Ok_0.len() == ts.len(),
    decreases ts.len(),
{
    if ts.len() > 0 {
        lemma_texts_len(ts.drop_last(), apply);
    }
}

/// Once a prefix of `ts` fails to print, `ts` as a whole fails with the same ownership.
proof fn lemma_texts_err_extends(ts: Seq<RwLTy>, k: int, apply: bool)
    requires
        0 <= k <= ts.len(),
        ty_texts(ts.take(k), apply) is Err,
    ensures
        ty_texts(ts, apply) == ty_texts(ts.take(k), apply),
    decreases ts.len() - k,
{
    if k < ts.len() {
        assert(ts.take(k + 1).drop_last() =~= ts.take(k));
        lemma_texts_err_extends(ts, k + 1, apply);
    } else {
        assert(ts.take(k) =~= ts);
    }
}

/// Whether `t` is well formed, with pointer identifiers below `n_pointers`.
pub fn lty_is_wf(t: &LTy, n_pointers: usize) -> (r: bool)
    ensures
        r == lty_wf(*t, n_pointers as nat),
    decreases t,
{
    proof {
        lemma_ltys_wf(t.args@, n_pointers as nat);
    }
    let arity_ok = match &t.kind {
        TyKind::Prim(_) | TyKind::Other(_) => t.args.len() == 0,
        TyKind::Array(_) | TyKind::Slice | TyKind::RawPtr(_) | TyKind::Ref(_) => t.args.len() == 1,
        TyKind::Tuple | TyKind::Adt(_) => true,
    };
    let label_ok = match t.label {
        Some(p) => p < n_pointers && matches!(t.kind, TyKind::RawPtr(_) | TyKind::Ref(_)),
        None => true,
    };
    if !arity_ok || !label_ok {
        return false;
    }
    let mut i: usize = 0;
    while i < t.args.len()
        invariant
            i <= t.args@.len(),
            forall|j: int| 0 <= j < i ==> #[trigger] lty_wf(t.args@[j], n_pointers as nat),
        decreases t.args@.len() - i,
    {
        assert(decreases_to!(t.args => t.args[i as int]));
        if !lty_is_wf(&t.args[i], n_pointers) {
            proof {
                lemma_ltys_wf(t.args@, n_pointers as nat);
            }
            return false;
        }
        i = i + 1;
    }
    true
}

} // verus!
