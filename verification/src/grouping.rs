//! The text of a program stands for the program with its sums and
//! products grouped to the left.

use vstd::prelude::*;
use crate::aexp::AExpView;
use crate::ast::AtomView;
use crate::bexp::BExpView;
use crate::grammar::{ParseErrorView, parsed};
use crate::round_trip::{Place, canon, canon_aexp, canon_atom, canon_atoms, canon_bexp, is_name,
    lemma_parse_text, lemma_place};
use crate::text::{aexp_text, atom_text, bexp_text, factor_text, prog_text};

verus! {

/// The sum of `a` and `b`, grouped to the left: the summands of `b` are
/// added to `a` one after the other.
pub open spec fn sum_left(a: AExpView, b: AExpView) -> AExpView
    decreases b,
{
    match b {
        AExpView::Add(l, r) => AExpView::Add(Box::new(sum_left(a, *l)), r),
        _ => AExpView::Add(Box::new(a), Box::new(b)),
    }
}

/// The product of `a` and `b`, grouped to the left: `a` is multiplied by
/// the factors of `b` one after the other.
pub open spec fn product_left(a: AExpView, b: AExpView) -> AExpView
    decreases b,
{
    match b {
        AExpView::Mul(l, r) => AExpView::Mul(Box::new(product_left(a, *l)), r),
        _ => AExpView::Mul(Box::new(a), Box::new(b)),
    }
}

/// The expression with every sum of sums and every product of products
/// in it grouped to the left.
pub open spec fn left_grouped(e: AExpView) -> AExpView
    decreases e,
{
    match e {
        AExpView::Add(l, r) => sum_left(left_grouped(*l), left_grouped(*r)),
        AExpView::Mul(l, r) => product_left(left_grouped(*l), left_grouped(*r)),
        _ => e,
    }
}

/// Whether the literals of an expression are not negative and its names
/// are letters.
pub open spec fn printable(e: AExpView) -> bool
    decreases e,
{
    match e {
        AExpView::Num(n) => n >= 0,
        AExpView::Var(x) => is_name(x),
        AExpView::Add(l, r) => printable(*l) && printable(*r),
        AExpView::Mul(l, r) => printable(*l) && printable(*r),
    }
}

/// Whether an arithmetic expression is a negative literal, or has no
/// negative literal and only letters in its names.
pub open spec fn printable_aexp(e: AExpView) -> bool {
    (e matches AExpView::Num(n) && n < 0) || printable(e)
}

/// The arithmetic expression with its sums and products grouped to the
/// left.
pub open spec fn grouped_aexp(e: AExpView) -> AExpView {
    left_grouped(e)
}

/// Whether the arithmetic expressions of a boolean expression are
/// printable, and the left side of every `&&` and `||` is a comparison.
pub open spec fn printable_bexp(b: BExpView) -> bool
    decreases b,
{
    match b {
        BExpView::LessEq(l, r) => printable_aexp(l) && printable_aexp(r),
        BExpView::Neg(c) => printable_bexp(*c),
        BExpView::And(l, r) => *l is LessEq && printable_bexp(*l) && printable_bexp(*r),
        BExpView::Or(l, r) => *l is LessEq && printable_bexp(*l) && printable_bexp(*r),
    }
}

/// The boolean expression with the sums and products of its arithmetic
/// expressions grouped to the left.
pub open spec fn grouped_bexp(b: BExpView) -> BExpView
    decreases b,
{
    match b {
        BExpView::LessEq(l, r) => BExpView::LessEq(grouped_aexp(l), grouped_aexp(r)),
        BExpView::Neg(c) => BExpView::Neg(Box::new(grouped_bexp(*c))),
        BExpView::And(l, r) => BExpView::And(Box::new(grouped_bexp(*l)), Box::new(grouped_bexp(*r))),
        BExpView::Or(l, r) => BExpView::Or(Box::new(grouped_bexp(*l)), Box::new(grouped_bexp(*r))),
    }
}

/// Whether the expressions of the statements of a program are printable,
/// and the programs in them not empty.
pub open spec fn printable_atoms(p: Seq<AtomView>) -> bool
    decreases p, 0int,
{
    if p.len() == 0 {
        true
    } else {
        printable_atoms(p.drop_last()) && printable_atom(p.last())
    }
}

/// Whether the expressions of a statement are printable, the programs in
/// it not empty, and the variable that it assigns to not `skip`.
pub open spec fn printable_atom(a: AtomView) -> bool
    decreases a, 1int,
{
    match a {
        AtomView::Skip => true,
        AtomView::Assign(x, e) => is_name(x) && x != "skip"@ && printable_aexp(e),
        AtomView::Cond(b, p, q) => printable_bexp(b) && p.len() > 0 && printable_atoms(p) && q.len() > 0
            && printable_atoms(q),
        AtomView::While(b, p) => printable_bexp(b) && p.len() > 0 && printable_atoms(p),
    }
}

/// The program with the sums and products of its expressions grouped to
/// the left.
pub open spec fn grouped_prog(p: Seq<AtomView>) -> Seq<AtomView>
    decreases p, 0int,
{
    if p.len() == 0 {
        Seq::empty()
    } else {
        grouped_prog(p.drop_last()).push(grouped_atom(p.last()))
    }
}

/// The statement with the sums and products of its expressions grouped to
/// the left.
pub open spec fn grouped_atom(a: AtomView) -> AtomView
    decreases a, 1int,
{
    match a {
        AtomView::Skip => a,
        AtomView::Assign(x, e) => AtomView::Assign(x, grouped_aexp(e)),
        AtomView::Cond(b, p, q) => AtomView::Cond(grouped_bexp(b), grouped_prog(p), grouped_prog(q)),
        AtomView::While(b, p) => AtomView::While(grouped_bexp(b), grouped_prog(p)),
    }
}

/// A sum that is grouped to the left has the text of the sum.
proof fn lemma_sum_left(a: AExpView, b: AExpView)
    ensures
        sum_left(a, b) is Add,
        aexp_text(sum_left(a, b)) == aexp_text(a) + " + "@ + aexp_text(b),
        canon(a, Place::Sum) && canon(b, Place::Sum) ==> canon(sum_left(a, b), Place::Sum),
    decreases b,
{
    match b {
        AExpView::Add(l, r) => {
            lemma_sum_left(a, *l);
            let left = sum_left(a, *l);
            assert(aexp_text(b) == aexp_text(*l) + " + "@ + aexp_text(*r));
            assert(aexp_text(sum_left(a, b)) == aexp_text(left) + " + "@ + aexp_text(*r));
            assert(aexp_text(a) + " + "@ + aexp_text(*l) + " + "@ + aexp_text(*r) =~= aexp_text(a) + " + "@ + (
            aexp_text(*l) + " + "@ + aexp_text(*r)));
        },
        _ => {
            if canon(b, Place::Sum) {
                lemma_place(b, Place::Sum, Place::Term);
            }
        },
    }
}

/// A product that is grouped to the left has the text of the product.
proof fn lemma_product_left(a: AExpView, b: AExpView)
    ensures
        product_left(a, b) is Mul,
        aexp_text(product_left(a, b)) == factor_text(a) + "*"@ + factor_text(b),
        canon(a, Place::Left) && canon(b, Place::Left) ==> canon(product_left(a, b), Place::Left),
    decreases b,
{
    match b {
        AExpView::Mul(l, r) => {
            lemma_product_left(a, *l);
            let left = product_left(a, *l);
            assert(factor_text(left) == aexp_text(left));
            assert(factor_text(b) == aexp_text(b));
            assert(aexp_text(b) == factor_text(*l) + "*"@ + factor_text(*r));
            assert(aexp_text(product_left(a, b)) == factor_text(left) + "*"@ + factor_text(*r));
            assert(factor_text(a) + "*"@ + factor_text(*l) + "*"@ + factor_text(*r) =~= factor_text(a) + "*"@ + (
            factor_text(*l) + "*"@ + factor_text(*r)));
        },
        _ => {
            if canon(b, Place::Left) {
                lemma_place(b, Place::Left, Place::Right);
            }
        },
    }
}

/// An expression that is grouped to the left has the text of the
/// expression, and is read back as it is written if it is printable.
proof fn lemma_left_grouped(e: AExpView)
    ensures
        aexp_text(left_grouped(e)) == aexp_text(e),
        factor_text(left_grouped(e)) == factor_text(e),
        left_grouped(e) is Add <==> e is Add,
        printable(e) ==> canon(left_grouped(e), Place::Sum),
    decreases e,
{
    match e {
        AExpView::Add(l, r) => {
            lemma_left_grouped(*l);
            lemma_left_grouped(*r);
            lemma_sum_left(left_grouped(*l), left_grouped(*r));
        },
        AExpView::Mul(l, r) => {
            lemma_left_grouped(*l);
            lemma_left_grouped(*r);
            lemma_product_left(left_grouped(*l), left_grouped(*r));
            if printable(e) {
                lemma_place(left_grouped(*l), Place::Sum, Place::Left);
                lemma_place(left_grouped(*r), Place::Sum, Place::Left);
                lemma_place(left_grouped(e), Place::Left, Place::Sum);
            }
        },
        _ => {},
    }
}

/// A grouped arithmetic expression has the text of the expression, and is
/// read back as it is written if the expression is printable.
proof fn lemma_grouped_aexp(e: AExpView)
    ensures
        aexp_text(grouped_aexp(e)) == aexp_text(e),
        printable_aexp(e) ==> canon_aexp(grouped_aexp(e)),
{
    lemma_left_grouped(e);
}

/// A grouped boolean expression has the text of the expression, and is
/// read back as it is written if the expression is printable.
proof fn lemma_grouped_bexp(b: BExpView)
    ensures
        bexp_text(grouped_bexp(b)) == bexp_text(b),
        grouped_bexp(b) is LessEq <==> b is LessEq,
        printable_bexp(b) ==> canon_bexp(grouped_bexp(b)),
    decreases b,
{
    match b {
        BExpView::LessEq(l, r) => {
            lemma_grouped_aexp(l);
            lemma_grouped_aexp(r);
        },
        BExpView::Neg(c) => {
            lemma_grouped_bexp(*c);
        },
        BExpView::And(l, r) => {
            lemma_grouped_bexp(*l);
            lemma_grouped_bexp(*r);
        },
        BExpView::Or(l, r) => {
            lemma_grouped_bexp(*l);
            lemma_grouped_bexp(*r);
        },
    }
}

/// A grouped statement has the text of the statement, and is read back as
/// it is written if the statement is printable.
proof fn lemma_grouped_atom(a: AtomView)
    ensures
        atom_text(grouped_atom(a)) == atom_text(a),
        printable_atom(a) ==> canon_atom(grouped_atom(a)),
    decreases a, 1int,
{
    match a {
        AtomView::Skip => {},
        AtomView::Assign(x, e) => {
            lemma_grouped_aexp(e);
        },
        AtomView::Cond(b, p, q) => {
            lemma_grouped_bexp(b);
            lemma_grouped_prog(p);
            lemma_grouped_prog(q);
        },
        AtomView::While(b, p) => {
            lemma_grouped_bexp(b);
            lemma_grouped_prog(p);
        },
    }
}

/// A grouped program has the text of the program and as many statements,
/// and they are read back as they are written if the program is
/// printable.
proof fn lemma_grouped_prog(p: Seq<AtomView>)
    ensures
        prog_text(grouped_prog(p)) == prog_text(p),
        grouped_prog(p).len() == p.len(),
        printable_atoms(p) ==> canon_atoms(grouped_prog(p)),
    decreases p, 0int,
{
    if p.len() > 0 {
        lemma_grouped_prog(p.drop_last());
        lemma_grouped_atom(p.last());
        let g = grouped_prog(p);
        assert(g.drop_last() =~= grouped_prog(p.drop_last()));
        assert(g.last() == grouped_atom(p.last()));
        if p.len() == 1 {
            assert(g[0] == grouped_atom(p[0]));
        }
    }
}

/// Parsing the text of a program gives the program up to the grouping of
/// its sums and products: for every program whose expressions are
/// printable, the text stands for the program with its sums and products
/// grouped to the left.
pub proof fn lemma_parse_text_grouped(p: Seq<AtomView>)
    requires
        p.len() > 0,
        printable_atoms(p),
    ensures
        parsed(vstd::utf8::encode_utf8(prog_text(p))) == Ok::<Seq<AtomView>, ParseErrorView>(grouped_prog(p)),
{
    lemma_grouped_prog(p);
    lemma_parse_text(grouped_prog(p));
}

} // verus!
