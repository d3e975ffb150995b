//! Rewrite operation trees: a description of an edit to an expression, a type or a
//! mutability qualifier, independent of concrete syntax, and a precedence-aware renderer.
use vstd::prelude::*;

verus! {

broadcast use {vstd::std_specs::vec::group_vec_axioms, vstd::seq::group_seq_axioms};

/// Whether a borrow, pointer or static is shared or mutable.
#[derive(Clone, Copy, PartialEq, Eq, Debug, Structural)]
pub enum Mutability {
    Not,
    Mut,
}

/// A half-open range `[lo, hi)` of character offsets within one source file.
#[derive(Clone, Copy, PartialEq, Eq, Debug, Structural)]
pub struct Span {
    pub file: usize,
    pub lo: usize,
    pub hi: usize,
}

/// The lifetime written on a reference type: none, or an explicit name such as `'a`.
#[derive(Clone, PartialEq, Eq, Debug)]
pub enum LifetimeName {
    Elided,
    Explicit(String),
}

#[derive(Debug)]
pub enum Rewrite {
    /// Take the original expression unchanged.
    Identity,
    /// Extract the subexpression at the given index.
    Sub(usize, Span),
    // Expression builders
    /// `&e`, `&mut e`
    Ref(Box<Rewrite>, Mutability),
    /// `core::ptr::addr_of!(e)`, `core::ptr::addr_of_mut!(e)`
    AddrOf(Box<Rewrite>, Mutability),
    /// `*e`
    Deref(Box<Rewrite>),
    /// `arr[idx]`
    Index(Box<Rewrite>, Box<Rewrite>),
    /// `arr[idx..]`
    SliceTail(Box<Rewrite>, Box<Rewrite>),
    /// `e as T`
    Cast(Box<Rewrite>, String),
    /// The integer literal `0`.
    LitZero,
    /// `f(a, b)`
    Call(String, Vec<Rewrite>),
    /// `e.m(a, b)`
    MethodCall(String, Box<Rewrite>, Vec<Rewrite>),
    // Type builders
    /// Emit a complete pretty-printed type, discarding the original annotation.
    PrintTy(String),
    /// `*const T`, `*mut T`
    TyPtr(Box<Rewrite>, Mutability),
    /// `&T`, `&mut T`, `&'a T`, `&'a mut T`
    TyRef(LifetimeName, Box<Rewrite>, Mutability),
    /// `[T]`
    TySlice(Box<Rewrite>),
    /// `Foo<T1, T2>`
    TyCtor(String, Vec<Rewrite>),
    /// A generic parameter list `<'a, 'b, T>`
    TyParams(Vec<Rewrite>),
    // `static` builders
    /// `static` mutability (`static` <-> `static mut`)
    StaticMut(Mutability, Span),
}

/// `s` wrapped in parentheses when `cond` holds.
pub open spec fn paren_if(cond: bool, s: Seq<char>) -> Seq<char> {
    if cond {
        "("@ + s + ")"@
    } else {
        s
    }
}

/// The text of one decimal digit.
pub open spec fn digit_text(d: nat) -> Seq<char> {
    if d == 0 {
        "0"@
    } else if d == 1 {
        "1"@
    } else if d == 2 {
        "2"@
    } else if d == 3 {
        "3"@
    } else if d == 4 {
        "4"@
    } else if d == 5 {
        "5"@
    } else if d == 6 {
        "6"@
    } else if d == 7 {
        "7"@
    } else if d == 8 {
        "8"@
    } else {
        "9"@
    }
}

/// The decimal notation of `n`, without leading zeros.
pub open spec fn decimal(n: nat) -> Seq<char>
    decreases n,
{
    if n < 10 {
        digit_text(n)
    } else {
        decimal(n / 10) + digit_text(n % 10)
    }
}

/// `&` or `&mut `.
pub open spec fn borrow_prefix(m: Mutability) -> Seq<char> {
    match m {
        Mutability::Not => "&"@,
        Mutability::Mut => "&mut "@,
    }
}

/// `&`, `&mut `, `&'a ` or `&'a mut `.
pub open spec fn ty_ref_prefix(lt: LifetimeName, m: Mutability) -> Seq<char> {
    let head = match lt {
        LifetimeName::Elided => "&"@,
        LifetimeName::Explicit(name) => "&"@ + name@ + " "@,
    };
    match m {
        Mutability::Not => head,
        Mutability::Mut => head + "mut "@,
    }
}

/// The rendering of a rewrite tree in a context that requires precedence `prec`.
///
/// Precedences: index and slice-tail 3, borrow and dereference 2, cast 1. An operator is
/// parenthesized exactly when its precedence is lower than that of its context; atoms, calls
/// and type builders never are. A method call's receiver is rendered in a context of
/// precedence 3, so that an operator there is parenthesized. `Identity` renders as `$e` and
/// `Sub(i, _)` as `$i`.
pub open spec fn pretty_spec(rw: Rewrite, prec: nat) -> Seq<char>
    decreases rw,
{
    match rw {
        Rewrite::Identity => "$e"@,
        Rewrite::Sub(i, _) => "$"@ + decimal(i as nat),
        Rewrite::Ref(inner, m) => paren_if(prec > 2, borrow_prefix(m) + pretty_spec(*inner, 2)),
        Rewrite::AddrOf(inner, m) => {
            let mac = match m {
                Mutability::Not => "core::ptr::addr_of!"@,
                Mutability::Mut => "core::ptr::addr_of_mut!"@,
            };
            mac + "("@ + pretty_spec(*inner, 0) + ")"@
        },
        Rewrite::Deref(inner) => paren_if(prec > 2, "*"@ + pretty_spec(*inner, 2)),
        Rewrite::Index(arr, idx) => paren_if(
            prec > 3,
            pretty_spec(*arr, 3) + "["@ + pretty_spec(*idx, 0) + "]"@,
        ),
        Rewrite::SliceTail(arr, idx) => paren_if(
            prec > 3,
            pretty_spec(*arr, 3) + "["@ + pretty_spec(*idx, 999) + " ..]"@,
        ),
        Rewrite::Cast(inner, ty) => paren_if(prec > 1, pretty_spec(*inner, 1) + " as "@ + ty@),
        Rewrite::LitZero => "0"@,
        Rewrite::Call(func, args) => func@ + "("@ + pretty_list(args@, ","@) + ")"@,
        Rewrite::MethodCall(method, receiver, args) => pretty_spec(*receiver, 3) + "."@ + method@
            + "("@ + pretty_list(args@, ","@) + ")"@,
        Rewrite::PrintTy(s) => s@,
        Rewrite::TyPtr(inner, m) => {
            let head = match m {
                Mutability::Not => "*const "@,
                Mutability::Mut => "*mut "@,
            };
            head + pretty_spec(*inner, 0)
        },
        Rewrite::TyRef(lt, inner, m) => ty_ref_prefix(lt, m) + pretty_spec(*inner, 0),
        Rewrite::TySlice(inner) => "["@ + pretty_spec(*inner, 0) + "]"@,
        Rewrite::TyCtor(name, args) => name@ + "<"@ + pretty_list(args@, ", "@) + ">"@,
        Rewrite::TyParams(params) => "<"@ + pretty_list(params@, ", "@) + ">"@,
        Rewrite::StaticMut(m, _) => match m {
            Mutability::Not => "static (-mut) $s"@,
            Mutability::Mut => "static (+mut) $s"@,
        },
    }
}

/// The renderings of `items` at precedence 0, separated by `sep`.
pub open spec fn pretty_list(items: Seq<Rewrite>, sep: Seq<char>) -> Seq<char>
    decreases items,
{
    if items.len() == 0 {
        Seq::empty()
    } else if items.len() == 1 {
        pretty_spec(items[0], 0)
    } else {
        pretty_list(items.drop_last(), sep) + sep + pretty_spec(items.last(), 0)
    }
}

fn push_digit(out: &mut String, d: usize)
    requires
        d < 10,
    ensures
        final(out)@ == old(out)@ + digit_text(d as nat),
{
    if d == 0 {
        out.append("0");
    } else if d == 1 {
        out.append("1");
    } else if d == 2 {
        out.append("2");
    } else if d == 3 {
        out.append("3");
    } else if d == 4 {
        out.append("4");
    } else if d == 5 {
        out.append("5");
    } else if d == 6 {
        out.append("6");
    } else if d == 7 {
        out.append("7");
    } else if d == 8 {
        out.append("8");
    } else {
        out.append("9");
    }
}

/// Appends the decimal notation of `n` to `out`.
pub fn push_decimal(out: &mut String, n: usize)
    ensures
        final(out)@ == old(out)@ + decimal(n as nat),
    decreases n,
{
    if n < 10 {
        push_digit(out, n);
    } else {
        push_decimal(out, n / 10);
        push_digit(out, n % 10);
        assert(final(out)@ =~= old(out)@ + decimal(n as nat));
    }
}

/// Appends the renderings of `items` at precedence 0, separated by `sep`.
fn pretty_items(items: &Vec<Rewrite>, sep: &str, out: &mut String)
    ensures
        final(out)@ == old(out)@ + pretty_list(items@, sep@),
    decreases items,
{
    let ghost start = out@;
    let mut i: usize = 0;
    while i < items.len()
        invariant
            i <= items@.len(),
            out@ == start + pretty_list(items@.take(i as int), sep@),
        decreases items@.len() - i,
    {
        assert(items@.take(i as int + 1).drop_last() =~= items@.take(i as int));
        assert(decreases_to!(items => items[i as int]));
        if i > 0 {
            out.append(sep);
        }
        items[i].pretty(out, 0);
        i = i + 1;
        proof {
            if i == 1 {
                assert(pretty_list(items@.take(0), sep@) =~= Seq::empty());
            }
            assert(out@ =~= start + pretty_list(items@.take(i as int), sep@));
        }
    }
    assert(items@.take(i as int) =~= items@);
}

impl Rewrite {
    /// Appends the rendering of this rewrite, in a context of precedence `prec`, to `out`.
    pub fn pretty(&self, out: &mut String, prec: usize)
        ensures
            final(out)@ == old(out)@ + pretty_spec(*self, prec as nat),
        decreases self,
    {
        let ghost start = out@;
        match self {
            Rewrite::Identity => {
                out.append("$e");
            },
            Rewrite::Sub(i, _) => {
                out.append("$");
                push_decimal(out, *i);
            },
            Rewrite::Ref(inner, m) => {
                if prec > 2 {
                    out.append("(");
                }
                match m {
                    Mutability::Not => out.append("&"),
                    Mutability::Mut => out.append("&mut "),
                }
                inner.pretty(out, 2);
                if prec > 2 {
                    out.append(")");
                }
            },
            Rewrite::AddrOf(inner, m) => {
                match m {
                    Mutability::Not => out.append("core::ptr::addr_of!"),
                    Mutability::Mut => out.append("core::ptr::addr_of_mut!"),
                }
                out.append("(");
                inner.pretty(out, 0);
                out.append(")");
            },
            Rewrite::Deref(inner) => {
                if prec > 2 {
                    out.append("(");
                }
                out.append("*");
                inner.pretty(out, 2);
                if prec > 2 {
                    out.append(")");
                }
            },
            Rewrite::Index(arr, idx) => {
                if prec > 3 {
                    out.append("(");
                }
                arr.pretty(out, 3);
                out.append("[");
                idx.pretty(out, 0);
                out.append("]");
                if prec > 3 {
                    out.append(")");
                }
            },
            Rewrite::SliceTail(arr, idx) => {
                if prec > 3 {
                    out.append("(");
                }
                arr.pretty(out, 3);
                out.append("[");
                // Rather than work out the precedence of `..`, always parenthesize here.
                idx.pretty(out, 999);
                out.append(" ..]");
                if prec > 3 {
                    out.append(")");
                }
            },
            Rewrite::Cast(inner, ty) => {
                if prec > 1 {
                    out.append("(");
                }
                inner.pretty(out, 1);
                out.append(" as ");
                out.append(ty.as_str());
                if prec > 1 {
                    out.append(")");
                }
            },
            Rewrite::LitZero => {
                out.append("0");
            },
            Rewrite::Call(func, args) => {
                out.append(func.as_str());
                out.append("(");
                pretty_items(args, ",", out);
                out.append(")");
            },
            Rewrite::MethodCall(method, receiver, args) => {
                receiver.pretty(out, 3);
                out.append(".");
                out.append(method.as_str());
                out.append("(");
                pretty_items(args, ",", out);
                out.append(")");
            },
            Rewrite::PrintTy(s) => {
                out.append(s.as_str());
            },
            Rewrite::TyPtr(inner, m) => {
                match m {
                    Mutability::Not => out.append("*const "),
                    Mutability::Mut => out.append("*mut "),
                }
                inner.pretty(out, 0);
            },
            Rewrite::TyRef(lt, inner, m) => {
                match lt {
                    LifetimeName::Elided => out.append("&"),
                    LifetimeName::Explicit(name) => {
                        out.append("&");
                        out.append(name.as_str());
                        out.append(" ");
                    },
                }
                match m {
                    Mutability::Not => {},
                    Mutability::Mut => out.append("mut "),
                }
                inner.pretty(out, 0);
            },
            Rewrite::TySlice(inner) => {
                out.append("[");
                inner.pretty(out, 0);
                out.append("]");
            },
            Rewrite::TyCtor(name, args) => {
                out.append(name.as_str());
                out.append("<");
                pretty_items(args, ", ", out);
                out.append(">");
            },
            Rewrite::TyParams(params) => {
                out.append("<");
                pretty_items(params, ", ", out);
                out.append(">");
            },
            Rewrite::StaticMut(m, _) => match m {
                Mutability::Not => out.append("static (-mut) $s"),
                Mutability::Mut => out.append("static (+mut) $s"),
            },
        }
        assert(out@ =~= start + pretty_spec(*self, prec as nat));
    }

    /// The rendering of this rewrite in a context that needs no parentheses.
    pub fn to_string(&self) -> (s: String)
        ensures
            s@ == pretty_spec(*self, 0),
    {
        let mut s = String::new();
        self.pretty(&mut s, 0);
        assert(s@ =~= pretty_spec(*self, 0));
        s
    }
}

/// The precedence of the operator at the root of `rw`: index and slice-tail 3, borrow and
/// dereference 2, cast 1; `None` for nodes that are never parenthesized.
pub open spec fn op_prec(rw: Rewrite) -> Option<nat> {
    match rw {
        Rewrite::Index(..) | Rewrite::SliceTail(..) => Some(3),
        Rewrite::Ref(..) | Rewrite::Deref(..) => Some(2),
        Rewrite::Cast(..) => Some(1),
        _ => None,
    }
}

/// An operator is rendered in parentheses exactly when the context asks for a higher
/// precedence than its own, and otherwise as in a context of its own precedence; any other
/// node renders the same in every context.
pub proof fn lemma_parens_exactly_when_needed(rw: Rewrite, prec: nat)
    ensures
        match op_prec(rw) {
            Some(p) => pretty_spec(rw, prec) == paren_if(prec > p, pretty_spec(rw, p)),
            None => pretty_spec(rw, prec) == pretty_spec(rw, 0),
        },
{
}

} // verus!
