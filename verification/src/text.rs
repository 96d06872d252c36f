//! The texts of the values of the library.

use vstd::prelude::*;
use vstd::string::StringExecFns;
use crate::aexp::{AExp, AExpView};
use crate::ast::{AtomView, Prog, ProgAtom};
use crate::bexp::{BExp, BExpView};
use crate::cfg::{AnnotNode, Edge, Node, NodeView, RawAnnot};
use crate::common::VarName;

verus! {

/// `String::push` of std: the character is appended to the string.
pub assume_specification[ String::push ](s: &mut String, c: char)
    ensures
        final(s)@ == old(s)@.push(c),
;

/// A value that has a text.
pub trait Show {
    /// The text of the value.
    spec fn text(&self) -> Seq<char>;

    /// Appends the text of the value to `out`.
    fn show(&self, out: &mut String)
        ensures
            final(out)@ == old(out)@ + self.text(),
    ;
}

/// The character of the decimal digit `d`.
pub open spec fn digit_char(d: int) -> char {
    (48 + d) as char
}

/// The decimal digits of a number.
pub open spec fn nat_text(n: nat) -> Seq<char>
    decreases n,
{
    if n < 10 {
        seq![digit_char(n as int)]
    } else {
        nat_text(n / 10).push(digit_char((n % 10) as int))
    }
}

/// The decimal text of a number, with a minus sign if it is negative.
pub open spec fn int_text(i: int) -> Seq<char> {
    if i < 0 {
        seq!['-'] + nat_text((-i) as nat)
    } else {
        nat_text(i as nat)
    }
}

/// Appends the decimal digits of `n` to `out`.
fn show_nat(n: u64, out: &mut String)
    ensures
        final(out)@ == old(out)@ + nat_text(n as nat),
    decreases n,
{
    if n >= 10 {
        show_nat(n / 10, out);
    }
    let d: u8 = (n % 10) as u8;
    out.push((48u8 + d) as char);
    proof {
        if n >= 10 {
            assert(final(out)@ =~= old(out)@ + nat_text(n as nat));
        } else {
            assert(final(out)@ =~= old(out)@ + nat_text(n as nat));
        }
    }
}

/// Appends the decimal text of `i` to `out`.
pub fn show_int(i: i32, out: &mut String)
    ensures
        final(out)@ == old(out)@ + int_text(i as int),
{
    if i < 0 {
        out.push('-');
        show_nat((-(i as i64)) as u64, out);
        proof {
            assert(final(out)@ =~= old(out)@ + int_text(i as int));
        }
    } else {
        show_nat(i as u64, out);
    }
}

/// The text of an arithmetic expression: sums are written with ` + `,
/// products with `*`, and a sum that is a factor stands in parentheses.
pub open spec fn aexp_text(a: AExpView) -> Seq<char>
    decreases a, 1int,
{
    match a {
        AExpView::Num(n) => int_text(n as int),
        AExpView::Var(x) => x,
        AExpView::Add(l, r) => aexp_text(*l) + " + "@ + aexp_text(*r),
        AExpView::Mul(l, r) => factor_text(*l) + "*"@ + factor_text(*r),
    }
}

/// The text of an arithmetic expression as a factor of a product.
pub open spec fn factor_text(a: AExpView) -> Seq<char>
    decreases a, 2int,
{
    match a {
        AExpView::Add(_, _) => "("@ + aexp_text(a) + ")"@,
        _ => aexp_text(a),
    }
}

/// The text of a boolean expression.
pub open spec fn bexp_text(b: BExpView) -> Seq<char>
    decreases b,
{
    match b {
        BExpView::LessEq(l, r) => aexp_text(l) + " <= "@ + aexp_text(r),
        BExpView::Neg(c) => "!"@ + bexp_text(*c),
        BExpView::And(l, r) => bexp_text(*l) + " && "@ + bexp_text(*r),
        BExpView::Or(l, r) => bexp_text(*l) + " || "@ + bexp_text(*r),
    }
}

/// The text of a statement.
pub open spec fn atom_text(a: AtomView) -> Seq<char>
    decreases a,
{
    match a {
        AtomView::Skip => "skip"@,
        AtomView::Assign(x, e) => x + " := "@ + aexp_text(e),
        AtomView::Cond(b, p, q) => "if "@ + bexp_text(b) + " then "@ + prog_text(p) + " else "@ + prog_text(q)
            + " end"@,
        AtomView::While(b, p) => "while "@ + bexp_text(b) + " do "@ + prog_text(p) + " end"@,
    }
}

/// The text of a program: its statements, separated by `; `.
pub open spec fn prog_text(p: Seq<AtomView>) -> Seq<char>
    decreases p,
{
    if p.len() == 0 {
        Seq::empty()
    } else if p.len() == 1 {
        atom_text(p[0])
    } else {
        prog_text(p.drop_last()) + "; "@ + atom_text(p.last())
    }
}

/// The text of a node's operation.
pub open spec fn node_text(n: NodeView) -> Seq<char> {
    match n {
        NodeView::Init => "init"@,
        NodeView::Terminal => "terminal"@,
        NodeView::Skip => "skip"@,
        NodeView::Assign(x, e) => x + " := "@ + aexp_text(e),
        NodeView::Branch(b) => bexp_text(b),
    }
}

/// The text of an edge's label.
pub open spec fn edge_text(e: Edge) -> Seq<char> {
    match e {
        Edge::Plain => ""@,
        Edge::True => "tt"@,
        Edge::False => "ff"@,
    }
}

impl Show for VarName {
    open spec fn text(&self) -> Seq<char> {
        self@
    }

    fn show(&self, out: &mut String) {
        self.write_text(out);
    }
}

impl VarName {
    /// Appends the spelling of the variable to `out`.
    pub fn write_text(&self, out: &mut String)
        ensures
            final(out)@ == old(out)@ + self@,
    {
        out.append(self.name());
    }
}

impl Show for AExp {
    open spec fn text(&self) -> Seq<char> {
        aexp_text(self@)
    }

    fn show(&self, out: &mut String) {
        self.write_text(out);
    }
}

impl AExp {
    /// Appends the text of the expression to `out`.
    pub fn write_text(&self, out: &mut String)
        ensures
            final(out)@ == old(out)@ + aexp_text(self@),
        decreases self, 1int,
    {
        match self {
            AExp::Num(n) => {
                show_int(*n, out);
            },
            AExp::Var(v) => {
                v.write_text(out);
            },
            AExp::Add(left, right) => {
                left.write_text(out);
                out.append(" + ");
                right.write_text(out);
                proof {
                    assert(final(out)@ =~= old(out)@ + aexp_text(self@));
                }
            },
            AExp::Mul(left, right) => {
                left.write_factor(out);
                out.append("*");
                right.write_factor(out);
                proof {
                    assert(final(out)@ =~= old(out)@ + aexp_text(self@));
                }
            },
        }
    }

    /// Appends the text of the expression as a factor of a product.
    fn write_factor(&self, out: &mut String)
        ensures
            final(out)@ == old(out)@ + factor_text(self@),
        decreases self, 2int,
    {
        match self {
            AExp::Add(_, _) => {
                out.append("(");
                self.write_text(out);
                out.append(")");
                proof {
                    assert(final(out)@ =~= old(out)@ + factor_text(self@));
                }
            },
            _ => {
                self.write_text(out);
            },
        }
    }

    /// The text of the expression.
    pub fn to_string(&self) -> (r: String)
        ensures
            r@ == aexp_text(self@),
    {
        let mut out = String::new();
        self.write_text(&mut out);
        proof {
            assert(out@ =~= aexp_text(self@));
        }
        out
    }
}

impl Show for BExp {
    open spec fn text(&self) -> Seq<char> {
        bexp_text(self@)
    }

    fn show(&self, out: &mut String) {
        self.write_text(out);
    }
}

impl BExp {
    /// Appends the text of the value to `out`.
    pub fn write_text(&self, out: &mut String)
        ensures
            final(out)@ == old(out)@ + bexp_text(self@),
        decreases self,
    {
        match self {
            BExp::LessEq(left, right) => {
                left.write_text(out);
                out.append(" <= ");
                right.write_text(out);
            },
            BExp::Neg(b) => {
                out.append("!");
                b.write_text(out);
            },
            BExp::And(left, right) => {
                left.write_text(out);
                out.append(" && ");
                right.write_text(out);
            },
            BExp::Or(left, right) => {
                left.write_text(out);
                out.append(" || ");
                right.write_text(out);
            },
        }
        proof {
            assert(final(out)@ =~= old(out)@ + bexp_text(self@));
        }
    }
}

impl BExp {
    /// The text of the expression.
    pub fn to_string(&self) -> (r: String)
        ensures
            r@ == bexp_text(self@),
    {
        let mut out = String::new();
        self.write_text(&mut out);
        proof {
            assert(out@ =~= bexp_text(self@));
        }
        out
    }
}

impl Show for Prog {
    open spec fn text(&self) -> Seq<char> {
        prog_text(self@)
    }

    fn show(&self, out: &mut String) {
        self.write_text(out);
    }
}

impl Prog {
    /// Appends the text of the value to `out`.
    pub fn write_text(&self, out: &mut String)
        ensures
            final(out)@ == old(out)@ + prog_text(self@),
        decreases self,
    {
        let Prog::Prog(ps) = self;
        let mut i: usize = 0;
        proof {
            assert(self@.take(0) =~= Seq::<AtomView>::empty());
            assert(out@ =~= old(out)@ + prog_text(self@.take(0)));
        }
        while i < ps.len()
            invariant
                i <= ps.len(),
                *self == Prog::Prog(*ps),
                out@ == old(out)@ + prog_text(self@.take(i as int)),
            decreases ps.len() - i,
        {
            let ghost before = out@;
            if i > 0 {
                out.append("; ");
            }
            ps[i].write_text(out);
            proof {
                let next = self@.take(i + 1);
                assert(next.drop_last() =~= self@.take(i as int));
                assert(next.last() == ps[i as int]@);
                assert(out@ =~= old(out)@ + prog_text(next));
            }
            i += 1;
        }
        proof {
            assert(self@.take(i as int) =~= self@);
        }
    }
}

impl Prog {
    /// The text of the program.
    pub fn to_string(&self) -> (r: String)
        ensures
            r@ == prog_text(self@),
    {
        let mut out = String::new();
        self.write_text(&mut out);
        proof {
            assert(out@ =~= prog_text(self@));
        }
        out
    }
}

impl Show for ProgAtom {
    open spec fn text(&self) -> Seq<char> {
        atom_text(self@)
    }

    fn show(&self, out: &mut String) {
        self.write_text(out);
    }
}

impl ProgAtom {
    /// Appends the text of the value to `out`.
    pub fn write_text(&self, out: &mut String)
        ensures
            final(out)@ == old(out)@ + atom_text(self@),
        decreases self,
    {
        match self {
            ProgAtom::Skip => {
                out.append("skip");
            },
            ProgAtom::Assign(v, aexp) => {
                v.write_text(out);
                out.append(" := ");
                aexp.write_text(out);
            },
            ProgAtom::Cond(bexp, p_tt, p_ff) => {
                out.append("if ");
                bexp.write_text(out);
                out.append(" then ");
                p_tt.write_text(out);
                out.append(" else ");
                p_ff.write_text(out);
                out.append(" end");
            },
            ProgAtom::While(bexp, p) => {
                out.append("while ");
                bexp.write_text(out);
                out.append(" do ");
                p.write_text(out);
                out.append(" end");
            },
        }
        proof {
            assert(final(out)@ =~= old(out)@ + atom_text(self@));
        }
    }
}

impl ProgAtom {
    /// The text of the statement.
    pub fn to_string(&self) -> (r: String)
        ensures
            r@ == atom_text(self@),
    {
        let mut out = String::new();
        self.write_text(&mut out);
        proof {
            assert(out@ =~= atom_text(self@));
        }
        out
    }
}

impl Show for Node {
    open spec fn text(&self) -> Seq<char> {
        node_text(self@)
    }

    fn show(&self, out: &mut String) {
        self.write_text(out);
    }
}

impl Node {
    /// Appends the text of the value to `out`.
    pub fn write_text(&self, out: &mut String)
        ensures
            final(out)@ == old(out)@ + node_text(self@),
    {
        match self {
            Node::Init => {
                out.append("init");
            },
            Node::Terminal => {
                out.append("terminal");
            },
            Node::Skip => {
                out.append("skip");
            },
            Node::Assign(v, aexp) => {
                v.write_text(out);
                out.append(" := ");
                aexp.write_text(out);
            },
            Node::Branch(bexp) => {
                bexp.write_text(out);
            },
        }
        proof {
            assert(final(out)@ =~= old(out)@ + node_text(self@));
        }
    }
}

impl Node {
    /// The text of the operation.
    pub fn to_string(&self) -> (r: String)
        ensures
            r@ == node_text(self@),
    {
        let mut out = String::new();
        self.write_text(&mut out);
        proof {
            assert(out@ =~= node_text(self@));
        }
        out
    }
}

impl Show for Edge {
    open spec fn text(&self) -> Seq<char> {
        edge_text(*self)
    }

    fn show(&self, out: &mut String) {
        self.write_text(out);
    }
}

impl Edge {
    /// Appends the text of the value to `out`.
    pub fn write_text(&self, out: &mut String)
        ensures
            final(out)@ == old(out)@ + edge_text(*self),
    {
        match self {
            Edge::Plain => {
                out.append("");
            },
            Edge::True => {
                out.append("tt");
            },
            Edge::False => {
                out.append("ff");
            },
        }
    }
}

impl Edge {
    /// The text of the label.
    pub fn to_string(&self) -> (r: String)
        ensures
            r@ == edge_text(*self),
    {
        let mut out = String::new();
        self.write_text(&mut out);
        proof {
            assert(out@ =~= edge_text(*self));
        }
        out
    }
}

impl Show for RawAnnot {
    open spec fn text(&self) -> Seq<char> {
        Seq::empty()
    }

    fn show(&self, out: &mut String) {
        proof {
            assert(out@ =~= out@ + Seq::<char>::empty());
        }
    }
}

impl RawAnnot {
    /// The text of the annotation: nothing.
    pub fn to_string(&self) -> (r: String)
        ensures
            r@ == Seq::<char>::empty(),
    {
        String::new()
    }
}

impl<T: Show> AnnotNode<T> {
    /// The text of the node and, in a line of its own, of its annotation if
    /// that has a text.
    pub fn to_string(&self) -> (r: String)
        ensures
            r@ == self.text(),
    {
        let mut out = String::new();
        self.show(&mut out);
        proof {
            assert(out@ =~= self.text());
        }
        out
    }
}

impl VarName {
    /// The text of the variable: its spelling.
    pub fn to_string(&self) -> (r: String)
        ensures
            r@ == self@,
    {
        let mut out = String::new();
        self.write_text(&mut out);
        proof {
            assert(out@ =~= self@);
        }
        out
    }
}

impl<T: Show> Show for AnnotNode<T> {
    open spec fn text(&self) -> Seq<char> {
        if self.annot.text().len() == 0 {
            node_text(self.node@)
        } else {
            node_text(self.node@) + "\n"@ + self.annot.text()
        }
    }

    fn show(&self, out: &mut String) {
        self.node.write_text(out);
        let mut annot_output = String::new();
        self.annot.show(&mut annot_output);
        proof {
            assert(annot_output@ =~= self.annot.text());
        }
        if !annot_output.as_str().is_empty() {
            out.append("\n");
            out.append(annot_output.as_str());
            proof {
                assert(final(out)@ =~= old(out)@ + self.text());
            }
        }
    }
}

} // verus!
