//! Application of a file's edits to its source text, in one pass over the original text.
//!
//! Each outermost edit replaces the text of its range by the rendering of its rewrite tree.
//! In that rendering `Identity` stands for the text of the edit's own range and `Sub(_, s)`
//! for the text of the range `s`, each with the edits nested inside applied in turn.
use vstd::prelude::*;

use crate::rewrite::{borrow_prefix, paren_if, ty_ref_prefix, LifetimeName, Mutability, Rewrite, Span};

verus! {

broadcast use {vstd::std_specs::vec::group_vec_axioms, vstd::seq::group_seq_axioms};

/// Why a set of edits cannot be applied to a file.
#[derive(Clone, Copy, PartialEq, Eq, Debug, Structural)]
pub enum ApplyError {
    /// The edit at this index has a range that ends before it starts or past the text.
    BadRange(usize),
    /// The ranges of the edits at these indices overlap without one lying strictly inside
    /// the other, or are the same range.
    Overlap(usize, usize),
    /// A subexpression placeholder refers to a range outside its edit.
    BadSub,
}

/// A measure of the size of a rewrite tree.
pub open spec fn rw_size(rw: Rewrite) -> nat
    decreases rw,
{
    match rw {
        Rewrite::Ref(a, _) | Rewrite::AddrOf(a, _) | Rewrite::Deref(a) | Rewrite::Cast(a, _)
        | Rewrite::TyPtr(a, _) | Rewrite::TyRef(_, a, _) | Rewrite::TySlice(a) => 1 + rw_size(*a),
        Rewrite::Index(a, b) | Rewrite::SliceTail(a, b) => 1 + rw_size(*a) + rw_size(*b),
        Rewrite::Call(_, args) | Rewrite::TyCtor(_, args) | Rewrite::TyParams(args) => 1 + list_size(args@),
        Rewrite::MethodCall(_, r, args) => 1 + rw_size(*r) + list_size(args@),
        _ => 1,
    }
}

pub open spec fn list_size(items: Seq<Rewrite>) -> nat
    decreases items,
{
    if items.len() == 0 {
        0
    } else {
        list_size(items.drop_last()) + rw_size(items.last()) + 1
    }
}

/// The edit of the file `file` at index below `k` that starts at `pos`, ends after it and by
/// `hi`, is not the excluded range, and reaches furthest.
pub open spec fn best_at(
    edits: Seq<(Span, Rewrite)>,
    file: usize,
    pos: int,
    hi: int,
    exclude: Option<(int, int)>,
    k: int,
) -> Option<int>
    decreases k,
{
    if k <= 0 {
        None
    } else {
        let prev = best_at(edits, file, pos, hi, exclude, k - 1);
        let s = edits[k - 1].0;
        let fits = s.file == file && s.lo == pos && pos < s.hi <= hi && exclude != Some((s.lo as int, s.hi as int));
        if fits && (prev is None || s.hi > edits[prev->Some_0].0.hi) {
            Some(k - 1)
        } else {
            prev
        }
    }
}

pub open spec fn cat(a: Option<Seq<char>>, b: Option<Seq<char>>) -> Option<Seq<char>> {
    match (a, b) {
        (Some(x), Some(y)) => Some(x + y),
        _ => None,
    }
}

pub open spec fn paren_opt(cond: bool, s: Option<Seq<char>>) -> Option<Seq<char>> {
    match s {
        Some(x) => Some(paren_if(cond, x)),
        None => None,
    }
}

/// The insertion (an edit of an empty range) of the file `file` at index below `k` that lies
/// at `pos` and is not the excluded range.
pub open spec fn insertion_at(
    edits: Seq<(Span, Rewrite)>,
    file: usize,
    pos: int,
    exclude: Option<(int, int)>,
    k: int,
) -> Option<int>
    decreases k,
{
    if k <= 0 {
        None
    } else {
        let s = edits[k - 1].0;
        if s.file == file && s.lo == pos && s.hi == pos && exclude != Some((pos, pos)) {
            Some(k - 1)
        } else {
            insertion_at(edits, file, pos, exclude, k - 1)
        }
    }
}

/// The text of `[lo, hi)` from `pos` on, with each outermost edit inside it replaced by its
/// rendering; an insertion at a position of `[lo, hi]` is rendered there. With `strict`, an
/// edit whose range is exactly `[lo, hi)` is left out. `None` when a placeholder inside refers
/// to a range outside its edit.
pub open spec fn splice(
    text: Seq<char>,
    edits: Seq<(Span, Rewrite)>,
    file: usize,
    lo: int,
    hi: int,
    strict: bool,
    pos: int,
) -> Option<Seq<char>>
    decreases hi - lo, if strict { 0int } else { 3int }, hi - pos, 1int,
{
    if pos > hi || pos < lo {
        Some(Seq::empty())
    } else {
        cat(inserted(text, edits, file, lo, hi, strict, pos), splice_rest(text, edits, file, lo, hi, strict, pos))
    }
}

/// An insertion at `pos` is rendered by the scan of `[lo, hi)`: at the top level (the whole
/// text) every position belongs to it; inside a range, only the positions strictly inside it
/// do. An insertion at an end of an edited range thus lies outside that edit.
pub open spec fn insertion_belongs(text: Seq<char>, lo: int, hi: int, strict: bool, pos: int) -> bool {
    (lo < pos < hi) || (!strict && lo == 0 && hi == text.len())
}

/// The rendering of the insertion at `pos`, if there is one and it belongs to `[lo, hi)`.
pub open spec fn inserted(
    text: Seq<char>,
    edits: Seq<(Span, Rewrite)>,
    file: usize,
    lo: int,
    hi: int,
    strict: bool,
    pos: int,
) -> Option<Seq<char>>
    decreases hi - lo, if strict { 0int } else { 3int }, hi - pos, 0int,
{
    match insertion_at(edits, file, pos, if strict { Some((lo, hi)) } else { None }, edits.len() as int) {
        Some(k) => if !(0 <= k < edits.len() && edits[k].0.lo == pos && edits[k].0.hi == pos) {
            None
        } else if insertion_belongs(text, lo, hi, strict, pos) {
            render(text, edits, file, pos, pos, edits[k].1, 0)
        } else {
            Some(Seq::empty())
        },
        None => Some(Seq::empty()),
    }
}

/// `splice` from `pos` on, after the insertion at `pos`.
pub open spec fn splice_rest(
    text: Seq<char>,
    edits: Seq<(Span, Rewrite)>,
    file: usize,
    lo: int,
    hi: int,
    strict: bool,
    pos: int,
) -> Option<Seq<char>>
    decreases hi - lo, if strict { 0int } else { 3int }, hi - pos, 0int,
{
    if pos >= hi || pos < lo {
        Some(Seq::empty())
    } else {
        match best_at(edits, file, pos, hi, if strict { Some((lo, hi)) } else { None }, edits.len() as int) {
            Some(k) => {
                let s = edits[k].0;
                if 0 <= k < edits.len() && s.lo == pos && pos < s.hi <= hi && !(strict && s.lo == lo && s.hi == hi) {
                    cat(
                        render(text, edits, file, s.lo as int, s.hi as int, edits[k].1, 0),
                        splice(text, edits, file, lo, hi, strict, s.hi as int),
                    )
                } else {
                    None
                }
            },
            None => cat(Some(seq![text[pos]]), splice(text, edits, file, lo, hi, strict, pos + 1)),
        }
    }
}

/// The text that the placeholder for the range `s` stands for, inside the edit of `[elo, ehi)`.
pub open spec fn resolve(
    text: Seq<char>,
    edits: Seq<(Span, Rewrite)>,
    file: usize,
    elo: int,
    ehi: int,
    s: Span,
) -> Option<Seq<char>>
    decreases ehi - elo, 1int, 0int, 0int,
{
    if s.file != file || s.lo < elo || s.hi > ehi || s.lo > s.hi {
        None
    } else if s.lo == elo && s.hi == ehi {
        splice(text, edits, file, elo, ehi, true, elo)
    } else {
        splice(text, edits, file, s.lo as int, s.hi as int, false, s.lo as int)
    }
}

/// The rendering of `rw` as the edit of `[elo, ehi)`, in a context of precedence `prec`: as
/// `pretty_spec`, with `Identity` and `Sub` replaced by the text they stand for.
pub open spec fn render(
    text: Seq<char>,
    edits: Seq<(Span, Rewrite)>,
    file: usize,
    elo: int,
    ehi: int,
    rw: Rewrite,
    prec: nat,
) -> Option<Seq<char>>
    decreases ehi - elo, 2int, rw_size(rw), 0int,
{
    match rw {
        Rewrite::Identity => splice(text, edits, file, elo, ehi, true, elo),
        Rewrite::Sub(_, s) => resolve(text, edits, file, elo, ehi, s),
        Rewrite::Ref(inner, m) => paren_opt(
            prec > 2,
            cat(Some(borrow_prefix(m)), render(text, edits, file, elo, ehi, *inner, 2)),
        ),
        Rewrite::AddrOf(inner, m) => {
            let mac = match m {
                Mutability::Not => "core::ptr::addr_of!"@,
                Mutability::Mut => "core::ptr::addr_of_mut!"@,
            };
            cat(cat(Some(mac + "("@), render(text, edits, file, elo, ehi, *inner, 0)), Some(")"@))
        },
        Rewrite::Deref(inner) => paren_opt(prec > 2, cat(Some("*"@), render(text, edits, file, elo, ehi, *inner, 2))),
        Rewrite::Index(arr, idx) => paren_opt(
            prec > 3,
            cat(
                cat(cat(render(text, edits, file, elo, ehi, *arr, 3), Some("["@)), render(text, edits, file, elo, ehi, *idx, 0)),
                Some("]"@),
            ),
        ),
        Rewrite::SliceTail(arr, idx) => paren_opt(
            prec > 3,
            cat(
                cat(cat(render(text, edits, file, elo, ehi, *arr, 3), Some("["@)), render(text, edits, file, elo, ehi, *idx, 999)),
                Some(" ..]"@),
            ),
        ),
        Rewrite::Cast(inner, ty) => paren_opt(
            prec > 1,
            cat(render(text, edits, file, elo, ehi, *inner, 1), Some(" as "@ + ty@)),
        ),
        Rewrite::LitZero => Some("0"@),
        Rewrite::Call(func, args) => cat(
            cat(Some(func@ + "("@), render_list(text, edits, file, elo, ehi, args@, ","@)),
            Some(")"@),
        ),
        Rewrite::MethodCall(method, receiver, args) => cat(
            cat(
                cat(render(text, edits, file, elo, ehi, *receiver, 3), Some("."@ + method@ + "("@)),
                render_list(text, edits, file, elo, ehi, args@, ","@),
            ),
            Some(")"@),
        ),
        Rewrite::PrintTy(s) => Some(s@),
        Rewrite::TyPtr(inner, m) => {
            let head = match m {
                Mutability::Not => "*const "@,
                Mutability::Mut => "*mut "@,
            };
            cat(Some(head), render(text, edits, file, elo, ehi, *inner, 0))
        },
        Rewrite::TyRef(lt, inner, m) => cat(Some(ty_ref_prefix(lt, m)), render(text, edits, file, elo, ehi, *inner, 0)),
        Rewrite::TySlice(inner) => cat(cat(Some("["@), render(text, edits, file, elo, ehi, *inner, 0)), Some("]"@)),
        Rewrite::TyCtor(name, args) => cat(
            cat(Some(name@ + "<"@), render_list(text, edits, file, elo, ehi, args@, ", "@)),
            Some(">"@),
        ),
        Rewrite::TyParams(params) => cat(
            cat(Some("<"@), render_list(text, edits, file, elo, ehi, params@, ", "@)),
            Some(">"@),
        ),
        Rewrite::StaticMut(m, s) => {
            let head = match m {
                Mutability::Not => "static "@,
                Mutability::Mut => "static mut "@,
            };
            cat(Some(head), resolve(text, edits, file, elo, ehi, s))
        },
    }
}

/// The renderings of `items` at precedence 0, separated by `sep`.
pub open spec fn render_list(
    text: Seq<char>,
    edits: Seq<(Span, Rewrite)>,
    file: usize,
    elo: int,
    ehi: int,
    items: Seq<Rewrite>,
    sep: Seq<char>,
) -> Option<Seq<char>>
    decreases ehi - elo, 2int, list_size(items), 0int,
{
    if items.len() == 0 {
        Some(Seq::empty())
    } else if items.len() == 1 {
        render(text, edits, file, elo, ehi, items[0], 0)
    } else {
        cat(
            cat(render_list(text, edits, file, elo, ehi, items.drop_last(), sep), Some(sep)),
            render(text, edits, file, elo, ehi, items.last(), 0),
        )
    }
}

/// Every edit of `file` has a range within the text (an empty range is an insertion).
pub open spec fn ranges_ok(edits: Seq<(Span, Rewrite)>, file: usize, len: int) -> bool {
    forall|k: int| 0 <= k < edits.len() && (#[trigger] edits[k]).0.file == file ==> edits[k].0.lo <= edits[k].0.hi <= len
}

/// Two ranges are disjoint, or one lies strictly inside the other.
pub open spec fn laminar(a: Span, b: Span) -> bool {
    ||| a.hi <= b.lo
    ||| b.hi <= a.lo
    ||| (a.lo <= b.lo && b.hi <= a.hi && (a.lo, a.hi) != (b.lo, b.hi))
    ||| (b.lo <= a.lo && a.hi <= b.hi && (a.lo, a.hi) != (b.lo, b.hi))
}

/// Two ranges can both be edited: two insertions lie at different places, an insertion and a
/// non-empty range always can (an insertion at an end of the range lies outside it), and two
/// non-empty ranges are laminar.
pub open spec fn compatible(a: Span, b: Span) -> bool {
    if a.lo == a.hi && b.lo == b.hi {
        a.lo != b.lo
    } else if a.lo == a.hi || b.lo == b.hi {
        true
    } else {
        laminar(a, b)
    }
}

/// Any two edits of `file` have compatible ranges.
pub open spec fn no_overlap(edits: Seq<(Span, Rewrite)>, file: usize) -> bool {
    forall|i: int, j: int|
        0 <= i < j < edits.len() && (#[trigger] edits[i]).0.file == file && (#[trigger] edits[j]).0.file == file
            ==> compatible(edits[i].0, edits[j].0)
}

/// The new text of `file`: its text with each outermost edit applied.
pub open spec fn applied(text: Seq<char>, edits: Seq<(Span, Rewrite)>, file: usize) -> Option<Seq<char>> {
    splice(text, edits, file, 0, text.len() as int, false, 0)
}

/// Appends the characters of `s` to `out`.
pub fn push_str(out: &mut Vec<char>, s: &str)
    ensures
        final(out)@ == old(out)@ + s@,
{
    let ghost start = out@;
    let n = s.unicode_len();
    let mut i: usize = 0;
    while i < n
        invariant
            n == s@.len(),
            i <= n,
            out@ == start + s@.take(i as int),
        decreases n - i,
    {
        out.push(s.get_char(i));
        i = i + 1;
        assert(out@ =~= start + s@.take(i as int));
    }
    assert(s@.take(i as int) =~= s@);
}

pub open spec fn widen(e: Option<(usize, usize)>) -> Option<(int, int)> {
    match e {
        Some((a, b)) => Some((a as int, b as int)),
        None => None,
    }
}

/// The edit of `file` that starts at `pos`, ends by `hi`, is not the excluded range, and
/// reaches furthest.
fn best_edit(
    edits: &Vec<(Span, Rewrite)>,
    file: usize,
    pos: usize,
    hi: usize,
    exclude: Option<(usize, usize)>,
) -> (r: Option<usize>)
    ensures
        match best_at(edits@, file, pos as int, hi as int, widen(exclude), edits@.len() as int) {
            Some(k) => r == Some(k as usize) && 0 <= k < edits@.len(),
            None => r is None,
        },
        r is Some ==> r->Some_0 < edits@.len(),
        r is Some ==> best_at(edits@, file, pos as int, hi as int, widen(exclude), edits@.len() as int) == Some(r->Some_0 as int),
{
    let ghost ex = widen(exclude);
    let mut best: Option<usize> = None;
    let mut k: usize = 0;
    while k < edits.len()
        invariant
            k <= edits@.len(),
            ex == widen(exclude),
            match best_at(edits@, file, pos as int, hi as int, ex, k as int) {
                Some(j) => best == Some(j as usize),
                None => best is None,
            },
            best is Some ==> best->Some_0 < k,
            best is Some ==> best_at(edits@, file, pos as int, hi as int, ex, k as int) == Some(best->Some_0 as int),
            forall|j: int| #![auto] best_at(edits@, file, pos as int, hi as int, ex, k as int) == Some(j) ==> 0 <= j < k,
        decreases edits@.len() - k,
    {
        let s = edits[k].0;
        let excluded = match exclude {
            Some((a, b)) => s.lo == a && s.hi == b,
            None => false,
        };
        let fits = s.file == file && s.lo == pos && pos < s.hi && s.hi <= hi && !excluded;
        let better = match best {
            None => true,
            Some(b) => s.hi > edits[b].0.hi,
        };
        if fits && better {
            best = Some(k);
        }
        k = k + 1;
    }
    best
}

/// The insertion of `file` at `pos` that is not the excluded range.
fn insertion_edit(
    edits: &Vec<(Span, Rewrite)>,
    file: usize,
    pos: usize,
    exclude: Option<(usize, usize)>,
) -> (r: Option<usize>)
    ensures
        match insertion_at(edits@, file, pos as int, widen(exclude), edits@.len() as int) {
            Some(k) => r == Some(k as usize) && 0 <= k < edits@.len(),
            None => r is None,
        },
        r is Some ==> r->Some_0 < edits@.len(),
        r is Some ==> insertion_at(edits@, file, pos as int, widen(exclude), edits@.len() as int) == Some(r->Some_0 as int),
{
    let mut k: usize = edits.len();
    while k > 0
        invariant
            k <= edits@.len(),
            insertion_at(edits@, file, pos as int, widen(exclude), edits@.len() as int) == insertion_at(
                edits@,
                file,
                pos as int,
                widen(exclude),
                k as int,
            ),
        decreases k,
    {
        let s = edits[k - 1].0;
        let excluded = match exclude {
            Some((a, b)) => a == pos && b == pos,
            None => false,
        };
        if s.file == file && s.lo == pos && s.hi == pos && !excluded {
            return Some(k - 1);
        }
        k = k - 1;
    }
    None
}

/// Appends the rendering of the insertion at `pos` of `[lo, hi)`, if there is one, to `out`.
fn emit_insertion(
    text: &Vec<char>,
    edits: &Vec<(Span, Rewrite)>,
    file: usize,
    lo: usize,
    hi: usize,
    strict: bool,
    pos: usize,
    out: &mut Vec<char>,
) -> (ok: bool)
    requires
        lo <= pos <= hi <= text@.len(),
    ensures
        ok == inserted(text@, edits@, file, lo as int, hi as int, strict, pos as int) is Some,
        ok ==> final(out)@ == old(out)@ + inserted(text@, edits@, file, lo as int, hi as int, strict, pos as int)->Some_0,
    decreases hi - lo, if strict { 0int } else { 3int }, 0int, 0int,
{
    let exclude = if strict { Some((lo, hi)) } else { None };
    let ghost spec_exclude = if strict { Some((lo as int, hi as int)) } else { None::<(int, int)> };
    assert(spec_exclude == widen(exclude));
    match insertion_edit(edits, file, pos, exclude) {
        Some(k) => {
            let sp = edits[k].0;
            if !(sp.lo == pos && sp.hi == pos) {
                false
            } else if (lo < pos && pos < hi) || (!strict && lo == 0 && hi == text.len()) {
                render_exec(text, edits, file, pos, pos, &edits[k].1, 0, out)
            } else {
                assert(out@ =~= out@ + Seq::<char>::empty());
                true
            }
        },
        None => {
            assert(out@ =~= out@ + Seq::<char>::empty());
            true
        },
    }
}

/// Appends what `[lo, hi)` holds at `pos`, after its insertion: the rendering of the edit that
/// starts there, or its character. Returns the position after it; `None` when a placeholder
/// inside refers to a range outside its edit.
fn emit_step(
    text: &Vec<char>,
    edits: &Vec<(Span, Rewrite)>,
    file: usize,
    lo: usize,
    hi: usize,
    strict: bool,
    pos: usize,
    out: &mut Vec<char>,
) -> (r: Option<usize>)
    requires
        lo <= pos < hi <= text@.len(),
    ensures
        r is None ==> splice_rest(text@, edits@, file, lo as int, hi as int, strict, pos as int) is None,
        r is Some ==> {
            &&& pos < r->Some_0 <= hi
            &&& final(out)@.len() >= old(out)@.len()
            &&& final(out)@.take(old(out)@.len() as int) == old(out)@
            &&& splice_rest(text@, edits@, file, lo as int, hi as int, strict, pos as int) == cat(
                Some(final(out)@.skip(old(out)@.len() as int)),
                splice(text@, edits@, file, lo as int, hi as int, strict, r->Some_0 as int),
            )
        },
    decreases hi - lo, if strict { 0int } else { 3int }, 0int, 0int,
{
    let ghost start = out@;
    let exclude = if strict { Some((lo, hi)) } else { None };
    let ghost spec_exclude = if strict { Some((lo as int, hi as int)) } else { None::<(int, int)> };
    assert(spec_exclude == widen(exclude));
    match best_edit(edits, file, pos, hi, exclude) {
        Some(k) => {
            let s = edits[k].0;
            assert(best_at(edits@, file, pos as int, hi as int, spec_exclude, edits@.len() as int) == Some(k as int));
            if s.lo == pos && pos < s.hi && s.hi <= hi && !(strict && s.lo == lo && s.hi == hi) {
                if !render_exec(text, edits, file, s.lo, s.hi, &edits[k].1, 0, out) {
                    return None;
                }
                assert(out@.take(start.len() as int) =~= start);
                assert(out@.skip(start.len() as int) =~= render(text@, edits@, file, s.lo as int, s.hi as int, edits@[k as int].1, 0)->Some_0);
                Some(s.hi)
            } else {
                None
            }
        },
        None => {
            out.push(text[pos]);
            assert(out@.take(start.len() as int) =~= start);
            assert(out@.skip(start.len() as int) =~= seq![text@[pos as int]]);
            Some(pos + 1)
        },
    }
}

/// Appends the text of `[lo, hi)`, with its outermost edits applied, to `out`; false when a
/// placeholder inside refers to a range outside its edit.
fn splice_exec(
    text: &Vec<char>,
    edits: &Vec<(Span, Rewrite)>,
    file: usize,
    lo: usize,
    hi: usize,
    strict: bool,
    out: &mut Vec<char>,
) -> (ok: bool)
    requires
        lo <= hi <= text@.len(),
    ensures
        ok == splice(text@, edits@, file, lo as int, hi as int, strict, lo as int) is Some,
        ok ==> final(out)@ == old(out)@ + splice(text@, edits@, file, lo as int, hi as int, strict, lo as int)->Some_0,
    decreases hi - lo, if strict { 0int } else { 3int }, 0int, 1int,
{
    let ghost start = out@;
    let ghost total = splice(text@, edits@, file, lo as int, hi as int, strict, lo as int);
    let mut pos: usize = lo;
    assert(out@.skip(start.len() as int) =~= Seq::<char>::empty());
    loop
        invariant_except_break
            total == cat(Some(out@.skip(start.len() as int)), splice(text@, edits@, file, lo as int, hi as int, strict, pos as int)),
        invariant
            lo <= pos <= hi <= text@.len(),
            out@.len() >= start.len(),
            out@.take(start.len() as int) == start,
            total == splice(text@, edits@, file, lo as int, hi as int, strict, lo as int),
        ensures
            total == Some(out@.skip(start.len() as int)),
        decreases hi - pos,
    {
        let ghost acc = out@.skip(start.len() as int);
        let ghost before = out@;
        let ghost ins = inserted(text@, edits@, file, lo as int, hi as int, strict, pos as int);
        let ghost rest = splice_rest(text@, edits@, file, lo as int, hi as int, strict, pos as int);
        assert(total == cat(Some(acc), cat(ins, rest)));
        if !emit_insertion(text, edits, file, lo, hi, strict, pos, out) {
            return false;
        }
        let ghost acc2 = out@.skip(start.len() as int);
        proof {
            assert(out@.take(start.len() as int) =~= before.take(start.len() as int));
            assert(acc2 =~= acc + ins->Some_0);
            if rest is Some {
                assert(acc + ins->Some_0 + rest->Some_0 =~= acc + (ins->Some_0 + rest->Some_0));
            }
        }
        if pos == hi {
            assert(acc2 + Seq::<char>::empty() =~= acc2);
            break;
        }
        let ghost mid = out@;
        match emit_step(text, edits, file, lo, hi, strict, pos, out) {
            None => {
                return false;
            },
            Some(next) => {
                proof {
                    let x = out@.skip(mid.len() as int);
                    assert(out@.take(start.len() as int) =~= mid.take(start.len() as int));
                    assert(out@.skip(start.len() as int) =~= acc2 + x);
                    let after = splice(text@, edits@, file, lo as int, hi as int, strict, next as int);
                    if after is Some {
                        assert(acc2 + x + after->Some_0 =~= acc2 + (x + after->Some_0));
                    }
                }
                pos = next;
            },
        }
    }
    proof {
        assert(out@ =~= start + out@.skip(start.len() as int));
    }
    true
}

/// Appends the text that the placeholder for `s` stands for, inside the edit of
/// `[elo, ehi)`, to `out`.
fn resolve_exec(
    text: &Vec<char>,
    edits: &Vec<(Span, Rewrite)>,
    file: usize,
    elo: usize,
    ehi: usize,
    s: Span,
    out: &mut Vec<char>,
) -> (ok: bool)
    requires
        elo <= ehi <= text@.len(),
    ensures
        ok == resolve(text@, edits@, file, elo as int, ehi as int, s) is Some,
        ok ==> final(out)@ == old(out)@ + resolve(text@, edits@, file, elo as int, ehi as int, s)->Some_0,
    decreases ehi - elo, 1int, 0int, 0int,
{
    if s.file != file || s.lo < elo || s.hi > ehi || s.lo > s.hi {
        false
    } else if s.lo == elo && s.hi == ehi {
        splice_exec(text, edits, file, elo, ehi, true, out)
    } else {
        splice_exec(text, edits, file, s.lo, s.hi, false, out)
    }
}

/// Appends the rendering of `rw`, as the edit of `[elo, ehi)` and in a context of
/// precedence `prec`, to `out`.
fn render_exec(
    text: &Vec<char>,
    edits: &Vec<(Span, Rewrite)>,
    file: usize,
    elo: usize,
    ehi: usize,
    rw: &Rewrite,
    prec: usize,
    out: &mut Vec<char>,
) -> (ok: bool)
    requires
        elo <= ehi <= text@.len(),
    ensures
        ok == render(text@, edits@, file, elo as int, ehi as int, *rw, prec as nat) is Some,
        ok ==> final(out)@ == old(out)@ + render(text@, edits@, file, elo as int, ehi as int, *rw, prec as nat)->Some_0,
    decreases ehi - elo, 2int, rw_size(*rw), 1int,
{
    match rw {
        Rewrite::Identity => splice_exec(text, edits, file, elo, ehi, true, out),
        Rewrite::Sub(_, s) => resolve_exec(text, edits, file, elo, ehi, *s, out),
        Rewrite::Ref(..) | Rewrite::AddrOf(..) | Rewrite::Deref(..) | Rewrite::Cast(..) => render_prefix_ops(
            text,
            edits,
            file,
            elo,
            ehi,
            rw,
            prec,
            out,
        ),
        Rewrite::Index(..) | Rewrite::SliceTail(..) => render_index_ops(text, edits, file, elo, ehi, rw, prec, out),
        Rewrite::Call(..) | Rewrite::MethodCall(..) | Rewrite::TyCtor(..) | Rewrite::TyParams(..) => render_call_ops(
            text,
            edits,
            file,
            elo,
            ehi,
            rw,
            prec,
            out,
        ),
        _ => render_type_ops(text, edits, file, elo, ehi, rw, prec, out),
    }
}

fn render_prefix_ops(
    text: &Vec<char>,
    edits: &Vec<(Span, Rewrite)>,
    file: usize,
    elo: usize,
    ehi: usize,
    rw: &Rewrite,
    prec: usize,
    out: &mut Vec<char>,
) -> (ok: bool)
    requires
        elo <= ehi <= text@.len(),
        rw is Ref || rw is AddrOf || rw is Deref || rw is Cast,
    ensures
        ok == render(text@, edits@, file, elo as int, ehi as int, *rw, prec as nat) is Some,
        ok ==> final(out)@ == old(out)@ + render(text@, edits@, file, elo as int, ehi as int, *rw, prec as nat)->Some_0,
    decreases ehi - elo, 2int, rw_size(*rw), 0int,
{
    let ghost start = out@;
    let ok = match rw {
        Rewrite::Ref(inner, m) => {
            if prec > 2 {
                push_str(out, "(");
            }
            match m {
                Mutability::Not => push_str(out, "&"),
                Mutability::Mut => push_str(out, "&mut "),
            }
            let ok = render_exec(text, edits, file, elo, ehi, inner, 2, out);
            if ok && prec > 2 {
                push_str(out, ")");
            }
            ok
        },
        Rewrite::AddrOf(inner, m) => {
            match m {
                Mutability::Not => push_str(out, "core::ptr::addr_of!"),
                Mutability::Mut => push_str(out, "core::ptr::addr_of_mut!"),
            }
            push_str(out, "(");
            let ok = render_exec(text, edits, file, elo, ehi, inner, 0, out);
            if ok {
                push_str(out, ")");
            }
            ok
        },
        Rewrite::Deref(inner) => {
            if prec > 2 {
                push_str(out, "(");
            }
            push_str(out, "*");
            let ok = render_exec(text, edits, file, elo, ehi, inner, 2, out);
            if ok && prec > 2 {
                push_str(out, ")");
            }
            ok
        },
        Rewrite::Cast(inner, ty) => {
            if prec > 1 {
                push_str(out, "(");
            }
            let ok = render_exec(text, edits, file, elo, ehi, inner, 1, out);
            if ok {
                push_str(out, " as ");
                push_str(out, ty.as_str());
                if prec > 1 {
                    push_str(out, ")");
                }
            }
            ok
        },
        _ => false,
    };
    proof {
        if ok {
            assert(out@ =~= start + render(text@, edits@, file, elo as int, ehi as int, *rw, prec as nat)->Some_0);
        }
    }
    ok
}

fn render_index_ops(
    text: &Vec<char>,
    edits: &Vec<(Span, Rewrite)>,
    file: usize,
    elo: usize,
    ehi: usize,
    rw: &Rewrite,
    prec: usize,
    out: &mut Vec<char>,
) -> (ok: bool)
    requires
        elo <= ehi <= text@.len(),
        rw is Index || rw is SliceTail,
    ensures
        ok == render(text@, edits@, file, elo as int, ehi as int, *rw, prec as nat) is Some,
        ok ==> final(out)@ == old(out)@ + render(text@, edits@, file, elo as int, ehi as int, *rw, prec as nat)->Some_0,
    decreases ehi - elo, 2int, rw_size(*rw), 0int,
{
    let ghost start = out@;
    let ok = match rw {
        Rewrite::Index(arr, idx) => {
            if prec > 3 {
                push_str(out, "(");
            }
            let ok1 = render_exec(text, edits, file, elo, ehi, arr, 3, out);
            if ok1 {
                push_str(out, "[");
                let ok2 = render_exec(text, edits, file, elo, ehi, idx, 0, out);
                if ok2 {
                    push_str(out, "]");
                    if prec > 3 {
                        push_str(out, ")");
                    }
                }
                ok2
            } else {
                false
            }
        },
        Rewrite::SliceTail(arr, idx) => {
            if prec > 3 {
                push_str(out, "(");
            }
            let ok1 = render_exec(text, edits, file, elo, ehi, arr, 3, out);
            if ok1 {
                push_str(out, "[");
                let ok2 = render_exec(text, edits, file, elo, ehi, idx, 999, out);
                if ok2 {
                    push_str(out, " ..]");
                    if prec > 3 {
                        push_str(out, ")");
                    }
                }
                ok2
            } else {
                false
            }
        },
        _ => false,
    };
    proof {
        if ok {
            assert(out@ =~= start + render(text@, edits@, file, elo as int, ehi as int, *rw, prec as nat)->Some_0);
        }
    }
    ok
}

fn render_call_ops(
    text: &Vec<char>,
    edits: &Vec<(Span, Rewrite)>,
    file: usize,
    elo: usize,
    ehi: usize,
    rw: &Rewrite,
    prec: usize,
    out: &mut Vec<char>,
) -> (ok: bool)
    requires
        elo <= ehi <= text@.len(),
        rw is Call || rw is MethodCall || rw is TyCtor || rw is TyParams,
    ensures
        ok == render(text@, edits@, file, elo as int, ehi as int, *rw, prec as nat) is Some,
        ok ==> final(out)@ == old(out)@ + render(text@, edits@, file, elo as int, ehi as int, *rw, prec as nat)->Some_0,
    decreases ehi - elo, 2int, rw_size(*rw), 0int,
{
    let ghost start = out@;
    let ok = match rw {
        Rewrite::Call(func, args) => {
            push_str(out, func.as_str());
            push_str(out, "(");
            let ok = render_list_exec(text, edits, file, elo, ehi, args, ",", out);
            if ok {
                push_str(out, ")");
            }
            ok
        },
        Rewrite::MethodCall(method, receiver, args) => {
            let ok1 = render_exec(text, edits, file, elo, ehi, receiver, 3, out);
            if ok1 {
                push_str(out, ".");
                push_str(out, method.as_str());
                push_str(out, "(");
                let ok2 = render_list_exec(text, edits, file, elo, ehi, args, ",", out);
                if ok2 {
                    push_str(out, ")");
                }
                ok2
            } else {
                false
            }
        },
        Rewrite::TyCtor(name, args) => {
            push_str(out, name.as_str());
            push_str(out, "<");
            let ok = render_list_exec(text, edits, file, elo, ehi, args, ", ", out);
            if ok {
                push_str(out, ">");
            }
            ok
        },
        Rewrite::TyParams(params) => {
            push_str(out, "<");
            let ok = render_list_exec(text, edits, file, elo, ehi, params, ", ", out);
            if ok {
                push_str(out, ">");
            }
            ok
        },
        _ => false,
    };
    proof {
        if ok {
            assert(out@ =~= start + render(text@, edits@, file, elo as int, ehi as int, *rw, prec as nat)->Some_0);
        }
    }
    ok
}

fn render_type_ops(
    text: &Vec<char>,
    edits: &Vec<(Span, Rewrite)>,
    file: usize,
    elo: usize,
    ehi: usize,
    rw: &Rewrite,
    prec: usize,
    out: &mut Vec<char>,
) -> (ok: bool)
    requires
        elo <= ehi <= text@.len(),
        rw is LitZero || rw is PrintTy || rw is TyPtr || rw is TyRef || rw is TySlice || rw is StaticMut,
    ensures
        ok == render(text@, edits@, file, elo as int, ehi as int, *rw, prec as nat) is Some,
        ok ==> final(out)@ == old(out)@ + render(text@, edits@, file, elo as int, ehi as int, *rw, prec as nat)->Some_0,
    decreases ehi - elo, 2int, rw_size(*rw), 0int,
{
    let ghost start = out@;
    let ok = match rw {
        Rewrite::LitZero => {
            push_str(out, "0");
            true
        },
        Rewrite::PrintTy(s) => {
            push_str(out, s.as_str());
            true
        },
        Rewrite::TyPtr(inner, m) => {
            match m {
                Mutability::Not => push_str(out, "*const "),
                Mutability::Mut => push_str(out, "*mut "),
            }
            render_exec(text, edits, file, elo, ehi, inner, 0, out)
        },
        Rewrite::TyRef(lt, inner, m) => {
            match lt {
                LifetimeName::Elided => push_str(out, "&"),
                LifetimeName::Explicit(name) => {
                    push_str(out, "&");
                    push_str(out, name.as_str());
                    push_str(out, " ");
                },
            }
            match m {
                Mutability::Not => {},
                Mutability::Mut => push_str(out, "mut "),
            }
            render_exec(text, edits, file, elo, ehi, inner, 0, out)
        },
        Rewrite::TySlice(inner) => {
            push_str(out, "[");
            let ok = render_exec(text, edits, file, elo, ehi, inner, 0, out);
            if ok {
                push_str(out, "]");
            }
            ok
        },
        Rewrite::StaticMut(m, s) => {
            match m {
                Mutability::Not => push_str(out, "static "),
                Mutability::Mut => push_str(out, "static mut "),
            }
            resolve_exec(text, edits, file, elo, ehi, *s, out)
        },
        _ => false,
    };
    proof {
        if ok {
            assert(out@ =~= start + render(text@, edits@, file, elo as int, ehi as int, *rw, prec as nat)->Some_0);
        }
    }
    ok
}

/// Appends the renderings of `items`, separated by `sep`, to `out`.
fn render_list_exec(
    text: &Vec<char>,
    edits: &Vec<(Span, Rewrite)>,
    file: usize,
    elo: usize,
    ehi: usize,
    items: &Vec<Rewrite>,
    sep: &str,
    out: &mut Vec<char>,
) -> (ok: bool)
    requires
        elo <= ehi <= text@.len(),
    ensures
        ok == render_list(text@, edits@, file, elo as int, ehi as int, items@, sep@) is Some,
        ok ==> final(out)@ == old(out)@ + render_list(text@, edits@, file, elo as int, ehi as int, items@, sep@)->Some_0,
    decreases ehi - elo, 2int, list_size(items@), 0int,
{
    let ghost start = out@;
    let mut i: usize = 0;
    assert(items@.take(0) =~= Seq::<Rewrite>::empty());
    while i < items.len()
        invariant
            elo <= ehi <= text@.len(),
            i <= items@.len(),
            out@.len() >= start.len(),
            render_list(text@, edits@, file, elo as int, ehi as int, items@.take(i as int), sep@) == Some(out@.skip(start.len() as int)),
            out@.take(start.len() as int) == start,
        decreases items@.len() - i,
    {
        assert(items@.take(i as int + 1).drop_last() =~= items@.take(i as int));
        assert(items@.take(i as int + 1).last() == items@[i as int]);
        proof { lemma_list_size_elem(items@, i as int); }
        let ghost acc = out@.skip(start.len() as int);
        let ghost before = out@;
        if i > 0 {
            push_str(out, sep);
        }
        let ok = render_exec(text, edits, file, elo, ehi, &items[i], 0, out);
        if !ok {
            proof { lemma_render_list_fails(text@, edits@, file, elo as int, ehi as int, items@, sep@, i as int + 1); }
            return false;
        }
        proof {
            assert(out@.take(start.len() as int) =~= before.take(start.len() as int));
            if i == 0 {
                assert(out@.skip(start.len() as int) =~= render(text@, edits@, file, elo as int, ehi as int, items@[0], 0)->Some_0);
            } else {
                assert(out@.skip(start.len() as int) =~= acc + sep@ + render(text@, edits@, file, elo as int, ehi as int, items@[i as int], 0)->Some_0);
            }
        }
        i = i + 1;
    }
    proof {
        assert(items@.take(i as int) =~= items@);
        assert(out@ =~= start + out@.skip(start.len() as int));
    }
    true
}

proof fn lemma_list_size_elem(items: Seq<Rewrite>, i: int)
    requires
        0 <= i < items.len(),
    ensures
        rw_size(items[i]) < list_size(items),
    decreases items.len(),
{
    if i < items.len() - 1 {
        lemma_list_size_elem(items.drop_last(), i);
        assert(items.drop_last()[i] == items[i]);
    }
}

proof fn lemma_render_list_fails(
    text: Seq<char>,
    edits: Seq<(Span, Rewrite)>,
    file: usize,
    elo: int,
    ehi: int,
    items: Seq<Rewrite>,
    sep: Seq<char>,
    k: int,
)
    requires
        1 <= k <= items.len(),
        render(text, edits, file, elo, ehi, items[k - 1], 0) is None,
    ensures
        render_list(text, edits, file, elo, ehi, items, sep) is None,
    decreases items.len() - k,
{
    if k < items.len() {
        lemma_render_list_fails(text, edits, file, elo, ehi, items.drop_last(), sep, k);
        assert(items.drop_last()[k - 1] == items[k - 1]);
    } else {
        lemma_render_list_prefix_none(text, edits, file, elo, ehi, items, sep);
    }
}

proof fn lemma_render_list_prefix_none(
    text: Seq<char>,
    edits: Seq<(Span, Rewrite)>,
    file: usize,
    elo: int,
    ehi: int,
    items: Seq<Rewrite>,
    sep: Seq<char>,
)
    requires
        items.len() >= 1,
        render(text, edits, file, elo, ehi, items.last(), 0) is None,
    ensures
        render_list(text, edits, file, elo, ehi, items, sep) is None,
{
    assert(items[items.len() - 1] == items.last());
}

/// Checks that every edit of `file` has a range (possibly empty) within a text of `len`
/// characters, and that the ranges of any two of them are `compatible`.
fn check_edits(len: usize, edits: &Vec<(Span, Rewrite)>, file: usize) -> (r: Result<(), ApplyError>)
    ensures
        r is Ok <==> ranges_ok(edits@, file, len as int) && no_overlap(edits@, file),
        match r {
            Err(ApplyError::BadRange(k)) => k < edits@.len() && edits@[k as int].0.file == file && !(
            edits@[k as int].0.lo <= edits@[k as int].0.hi <= len),
            Err(ApplyError::Overlap(i, j)) => i < j < edits@.len() && edits@[i as int].0.file == file
                && edits@[j as int].0.file == file && !compatible(edits@[i as int].0, edits@[j as int].0),
            Err(ApplyError::BadSub) => false,
            Ok(()) => true,
        },
{
    let mut k: usize = 0;
    while k < edits.len()
        invariant
            k <= edits@.len(),
            forall|m: int| 0 <= m < k && (#[trigger] edits@[m]).0.file == file ==> edits@[m].0.lo <= edits@[m].0.hi <= len,
        decreases edits@.len() - k,
    {
        let s = edits[k].0;
        if s.file == file && !(s.lo <= s.hi && s.hi <= len) {
            return Err(ApplyError::BadRange(k));
        }
        k = k + 1;
    }
    let mut i: usize = 0;
    while i < edits.len()
        invariant
            ranges_ok(edits@, file, len as int),
            i <= edits@.len(),
            forall|a: int, b: int|
                0 <= a < i && a < b < edits@.len() && (#[trigger] edits@[a]).0.file == file && (#[trigger] edits@[b]).0.file == file
                    ==> compatible(edits@[a].0, edits@[b].0),
        decreases edits@.len() - i,
    {
        let mut j: usize = i + 1;
        while j < edits.len()
            invariant
                ranges_ok(edits@, file, len as int),
                i < edits@.len(),
                i + 1 <= j <= edits@.len(),
                forall|a: int, b: int|
                    0 <= a < i && a < b < edits@.len() && (#[trigger] edits@[a]).0.file == file && (#[trigger] edits@[b]).0.file == file
                        ==> compatible(edits@[a].0, edits@[b].0),
                forall|b: int|
                    i < b < j && edits@[i as int].0.file == file && (#[trigger] edits@[b]).0.file == file
                        ==> compatible(edits@[i as int].0, edits@[b].0),
            decreases edits@.len() - j,
        {
            let a = edits[i].0;
            let b = edits[j].0;
            if a.file == file && b.file == file {
                let ok = if a.lo == a.hi && b.lo == b.hi {
                    a.lo != b.lo
                } else if a.lo == a.hi || b.lo == b.hi {
                    true
                } else {
                    a.hi <= b.lo || b.hi <= a.lo || (a.lo <= b.lo && b.hi <= a.hi && !(a.lo == b.lo
                        && a.hi == b.hi)) || (b.lo <= a.lo && a.hi <= b.hi && !(a.lo == b.lo && a.hi == b.hi))
                };
                if !ok {
                    return Err(ApplyError::Overlap(i, j));
                }
            }
            j = j + 1;
        }
        i = i + 1;
    }
    Ok(())
}

/// The new text of file `file`: its text `text` with the edits of `rewrites` that belong to
/// it applied, each outermost edit replacing the text of its range by the rendering of its
/// tree, and all characters outside edited ranges kept in order.
///
/// An edit of an empty range inserts its rendering at that place; one at an end of an edited
/// range lies outside that edit. Fails when an edit of the file has a range that is reversed
/// or past the text, when two of its ranges are not `compatible` (they overlap without one
/// lying strictly inside the other, or are the same), or when a placeholder refers to a range
/// outside its edit.
pub fn apply_rewrites(text: &Vec<char>, file: usize, rewrites: &Vec<(Span, Rewrite)>) -> (r: Result<Vec<char>, ApplyError>)
    ensures
        r is Ok <==> ranges_ok(rewrites@, file, text@.len() as int) && no_overlap(rewrites@, file) && applied(
            text@,
            rewrites@,
            file,
        ) is Some,
        r is Ok ==> r->Ok_0@ == applied(text@, rewrites@, file)->Some_0,
        match r {
            Err(ApplyError::BadRange(k)) => k < rewrites@.len() && rewrites@[k as int].0.file == file && !(
            rewrites@[k as int].0.lo <= rewrites@[k as int].0.hi <= text@.len()),
            Err(ApplyError::Overlap(i, j)) => i < j < rewrites@.len() && rewrites@[i as int].0.file == file
                && rewrites@[j as int].0.file == file && !compatible(rewrites@[i as int].0, rewrites@[j as int].0),
            Err(ApplyError::BadSub) => ranges_ok(rewrites@, file, text@.len() as int) && no_overlap(rewrites@, file),
            Ok(_) => true,
        },
{
    check_edits(text.len(), rewrites, file)?;
    let mut out: Vec<char> = Vec::new();
    if splice_exec(text, rewrites, file, 0, text.len(), false, &mut out) {
        assert(out@ =~= applied(text@, rewrites@, file)->Some_0);
        Ok(out)
    } else {
        Err(ApplyError::BadSub)
    }
}

proof fn lemma_best_at(
    edits: Seq<(Span, Rewrite)>,
    file: usize,
    pos: int,
    hi: int,
    exclude: Option<(int, int)>,
    k: int,
)
    ensures
        best_at(edits, file, pos, hi, exclude, k) is Some ==> {
            let j = best_at(edits, file, pos, hi, exclude, k)->Some_0;
            &&& 0 <= j < k
            &&& edits[j].0.file == file
            &&& edits[j].0.lo == pos
            &&& pos < edits[j].0.hi <= hi
            &&& exclude != Some((edits[j].0.lo as int, edits[j].0.hi as int))
        },
    decreases k,
{
    if k > 0 {
        lemma_best_at(edits, file, pos, hi, exclude, k - 1);
    }
}

/// Every edit of `file` keeps its original text.
pub open spec fn all_identity(edits: Seq<(Span, Rewrite)>, file: usize) -> bool {
    forall|k: int| 0 <= k < edits.len() && (#[trigger] edits[k]).0.file == file ==> edits[k].1 is Identity
}

proof fn lemma_insertion_at(edits: Seq<(Span, Rewrite)>, file: usize, pos: int, exclude: Option<(int, int)>, k: int)
    ensures
        insertion_at(edits, file, pos, exclude, k) is Some ==> {
            let j = insertion_at(edits, file, pos, exclude, k)->Some_0;
            &&& 0 <= j < k
            &&& edits[j].0.file == file
            &&& edits[j].0.lo == pos
            &&& edits[j].0.hi == pos
            &&& exclude != Some((pos, pos))
        },
    decreases k,
{
    if k > 0 {
        lemma_insertion_at(edits, file, pos, exclude, k - 1);
    }
}

proof fn lemma_identity_splice(
    text: Seq<char>,
    edits: Seq<(Span, Rewrite)>,
    file: usize,
    lo: int,
    hi: int,
    strict: bool,
    pos: int,
)
    requires
        0 <= lo <= pos <= hi <= text.len(),
        ranges_ok(edits, file, text.len() as int),
        all_identity(edits, file),
    ensures
        splice(text, edits, file, lo, hi, strict, pos) == Some(text.subrange(pos, hi)),
    decreases hi - lo, if strict { 0int } else { 3int }, hi - pos, 1int,
{
    lemma_identity_inserted(text, edits, file, lo, hi, strict, pos);
    lemma_identity_rest(text, edits, file, lo, hi, strict, pos);
    assert(Seq::<char>::empty() + text.subrange(pos, hi) =~= text.subrange(pos, hi));
}

proof fn lemma_identity_inserted(
    text: Seq<char>,
    edits: Seq<(Span, Rewrite)>,
    file: usize,
    lo: int,
    hi: int,
    strict: bool,
    pos: int,
)
    requires
        0 <= lo <= pos <= hi <= text.len(),
        ranges_ok(edits, file, text.len() as int),
        all_identity(edits, file),
    ensures
        inserted(text, edits, file, lo, hi, strict, pos) == Some(Seq::<char>::empty()),
    decreases hi - lo, if strict { 0int } else { 3int }, hi - pos, 0int,
{
    let ex = if strict { Some((lo, hi)) } else { None };
    lemma_insertion_at(edits, file, pos, ex, edits.len() as int);
    match insertion_at(edits, file, pos, ex, edits.len() as int) {
        Some(k) => {
            if insertion_belongs(text, lo, hi, strict, pos) {
                assert(edits[k].1 is Identity);
                lemma_identity_splice(text, edits, file, pos, pos, true, pos);
                assert(text.subrange(pos, pos) =~= Seq::<char>::empty());
            }
        },
        None => {},
    }
}

proof fn lemma_identity_rest(
    text: Seq<char>,
    edits: Seq<(Span, Rewrite)>,
    file: usize,
    lo: int,
    hi: int,
    strict: bool,
    pos: int,
)
    requires
        0 <= lo <= pos <= hi <= text.len(),
        ranges_ok(edits, file, text.len() as int),
        all_identity(edits, file),
    ensures
        splice_rest(text, edits, file, lo, hi, strict, pos) == Some(text.subrange(pos, hi)),
    decreases hi - lo, if strict { 0int } else { 3int }, hi - pos, 0int,
{
    if pos < hi {
        let ex = if strict { Some((lo, hi)) } else { None };
        lemma_best_at(edits, file, pos, hi, ex, edits.len() as int);
        match best_at(edits, file, pos, hi, ex, edits.len() as int) {
            Some(k) => {
                let s = edits[k].0;
                assert(edits[k].1 is Identity);
                assert(!(strict && s.lo == lo && s.hi == hi));
                lemma_identity_splice(text, edits, file, s.lo as int, s.hi as int, true, s.lo as int);
                assert(render(text, edits, file, s.lo as int, s.hi as int, edits[k].1, 0) == Some(text.subrange(pos, s.hi as int)));
                lemma_identity_splice(text, edits, file, lo, hi, strict, s.hi as int);
                assert(text.subrange(pos, s.hi as int) + text.subrange(s.hi as int, hi) =~= text.subrange(pos, hi));
            },
            None => {
                lemma_identity_splice(text, edits, file, lo, hi, strict, pos + 1);
                assert(seq![text[pos]] + text.subrange(pos + 1, hi) =~= text.subrange(pos, hi));
            },
        }
    } else {
        assert(text.subrange(pos, hi) =~= Seq::<char>::empty());
    }
}

/// Edits that all keep their original text leave the text as it was.
pub proof fn lemma_identity_edits_keep_text(text: Seq<char>, edits: Seq<(Span, Rewrite)>, file: usize)
    requires
        ranges_ok(edits, file, text.len() as int),
        all_identity(edits, file),
    ensures
        applied(text, edits, file) == Some(text),
{
    lemma_identity_splice(text, edits, file, 0, text.len() as int, false, 0);
    assert(text.subrange(0, text.len() as int) =~= text);
}

/// The first index at or after `i` where `pat` occurs in `s`.
pub open spec fn find_from(s: Seq<char>, pat: Seq<char>, i: int) -> Option<int>
    decreases s.len() + 1 - i,
{
    if i < 0 || i + pat.len() > s.len() {
        None
    } else if s.subrange(i, i + pat.len()) == pat {
        Some(i)
    } else {
        find_from(s, pat, i + 1)
    }
}

/// The line as shown in the debug rendering of a rewritten file: from a `// CHECK` marker
/// on, a test directive would match its own text, so that part is replaced by a note.
pub open spec fn shown_line(line: Seq<char>) -> Seq<char> {
    match find_from(line, "// CHECK"@, 0) {
        Some(i) => line.take(i) + "// (FileCheck directive omitted)"@,
        None => line,
    }
}

fn occurs_at(s: &str, pat: &str, i: usize) -> (r: bool)
    requires
        i + pat@.len() <= s@.len(),
        s@.len() <= usize::MAX,
    ensures
        r == (s@.subrange(i as int, i + pat@.len()) == pat@),
{
    let m = pat.unicode_len();
    let mut j: usize = 0;
    while j < m
        invariant
            m == pat@.len(),
            i + m <= s@.len(),
            s@.len() <= usize::MAX,
            j <= m,
            forall|k: int| 0 <= k < j ==> s@[i + k] == pat@[k],
        decreases m - j,
    {
        if s.get_char(i + j) != pat.get_char(j) {
            assert(s@.subrange(i as int, i + m)[j as int] != pat@[j as int]);
            return false;
        }
        j = j + 1;
    }
    assert(s@.subrange(i as int, i + m) =~= pat@);
    true
}

/// The line as shown in the debug rendering of a rewritten file.
pub fn elide_check_directive(line: &str) -> (r: String)
    ensures
        r@ == shown_line(line@),
{
    let marker = "// CHECK";
    proof {
        reveal_strlit("// CHECK");
    }
    let n = line.unicode_len();
    let m = marker.unicode_len();
    let mut i: usize = 0;
    while m <= n && i <= n - m
        invariant
            n == line@.len(),
            m == marker@.len(),
            m == 8,
            marker@ == "// CHECK"@,
            find_from(line@, marker@, 0) == find_from(line@, marker@, i as int),
        decreases n + 1 - i,
    {
        if occurs_at(line, marker, i) {
            let mut r = String::from_str(line.substring_char(0, i));
            r.append("// (FileCheck directive omitted)");
            assert(line@.subrange(0, i as int) == line@.take(i as int));
            assert(find_from(line@, marker@, i as int) == Some(i as int));
            assert(marker@ == "// CHECK"@);
            assert(find_from(line@, "// CHECK"@, 0) == Some(i as int));
            assert(r@ == line@.take(i as int) + "// (FileCheck directive omitted)"@);
            return r;
        }
        i = i + 1;
    }
    assert(find_from(line@, marker@, i as int) is None);
    String::from_str(line)
}

} // verus!
