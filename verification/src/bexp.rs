use vstd::prelude::*;
use crate::aexp::{AExp, AExpView};
use crate::exp_set::ExpSet;

verus! {

/// The mathematical value of a boolean expression.
pub enum BExpView {
    LessEq(AExpView, AExpView),
    Neg(Box<BExpView>),
    And(Box<BExpView>, Box<BExpView>),
    Or(Box<BExpView>, Box<BExpView>),
}

/// Boolean expression.
#[derive(Debug, PartialEq, Eq, Hash)]
pub enum BExp {
    LessEq(Box<AExp>, Box<AExp>),
    Neg(Box<BExp>),
    And(Box<BExp>, Box<BExp>),
    Or(Box<BExp>, Box<BExp>),
}

impl BExp {
    /// The mathematical value of the expression.
    pub open spec fn model(self) -> BExpView
        decreases self,
    {
        match self {
            BExp::LessEq(l, r) => BExpView::LessEq(l.model(), r.model()),
            BExp::Neg(b) => BExpView::Neg(Box::new(b.model())),
            BExp::And(l, r) => BExpView::And(Box::new(l.model()), Box::new(r.model())),
            BExp::Or(l, r) => BExpView::Or(Box::new(l.model()), Box::new(r.model())),
        }
    }
}

impl View for BExp {
    type V = BExpView;

    open spec fn view(&self) -> BExpView {
        self.model()
    }
}

impl BExpView {
    /// The arithmetic subexpressions of both sides of every comparison.
    pub open spec fn subterms(self) -> Set<AExpView>
        decreases self,
    {
        match self {
            BExpView::LessEq(l, r) => l.subterms().union(r.subterms()),
            BExpView::Neg(b) => b.subterms(),
            BExpView::And(l, r) => l.subterms().union(r.subterms()),
            BExpView::Or(l, r) => l.subterms().union(r.subterms()),
        }
    }
}

impl BExp {
    /// Whether the two expressions are written alike.
    pub fn same(&self, other: &BExp) -> (r: bool)
        ensures
            r == (self@ == other@),
        decreases self,
    {
        match (self, other) {
            (BExp::LessEq(a1, a2), BExp::LessEq(b1, b2)) => a1.same(b1) && a2.same(b2),
            (BExp::Neg(a), BExp::Neg(b)) => a.same(b),
            (BExp::And(a1, a2), BExp::And(b1, b2)) => a1.same(b1) && a2.same(b2),
            (BExp::Or(a1, a2), BExp::Or(b1, b2)) => a1.same(b1) && a2.same(b2),
            _ => false,
        }
    }

    /// The arithmetic subexpressions of both sides of every comparison.
    pub fn sub_aexps(&self) -> (r: ExpSet)
        ensures
            r.wf(),
            r@ == self@.subterms(),
        decreases self,
    {
        match self {
            BExp::LessEq(a1, a2) => {
                let mut set = a1.sub_aexps();
                set.union_with(&a2.sub_aexps());
                set
            },
            BExp::Neg(b) => b.sub_aexps(),
            BExp::And(b1, b2) => {
                let mut set = b1.sub_aexps();
                set.union_with(&b2.sub_aexps());
                set
            },
            BExp::Or(b1, b2) => {
                let mut set = b1.sub_aexps();
                set.union_with(&b2.sub_aexps());
                set
            },
        }
    }
}

impl Clone for BExp {
    fn clone(&self) -> (r: BExp)
        ensures
            r == *self,
        decreases self,
    {
        match self {
            BExp::LessEq(l, r) => BExp::LessEq(Box::new((**l).clone()), Box::new((**r).clone())),
            BExp::Neg(b) => BExp::Neg(Box::new((**b).clone())),
            BExp::And(l, r) => BExp::And(Box::new((**l).clone()), Box::new((**r).clone())),
            BExp::Or(l, r) => BExp::Or(Box::new((**l).clone()), Box::new((**r).clone())),
        }
    }
}

} // verus!
