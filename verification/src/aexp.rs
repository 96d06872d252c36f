use vstd::prelude::*;
use vstd::std_specs::cmp::PartialEqSpecImpl;
use crate::common::{Name, VarName};
use crate::exp_set::ExpSet;

verus! {

/// The mathematical value of an arithmetic expression.
pub enum AExpView {
    Num(i32),
    Var(Name),
    Add(Box<AExpView>, Box<AExpView>),
    Mul(Box<AExpView>, Box<AExpView>),
}

/// Arithmetic expression.
#[derive(Debug, Eq, Hash)]
pub enum AExp {
    Num(i32),
    Var(VarName),
    Add(Box<AExp>, Box<AExp>),
    Mul(Box<AExp>, Box<AExp>),
}

impl AExp {
    /// The mathematical value of the expression.
    pub open spec fn model(self) -> AExpView
        decreases self,
    {
        match self {
            AExp::Num(n) => AExpView::Num(n),
            AExp::Var(v) => AExpView::Var(v@),
            AExp::Add(l, r) => AExpView::Add(Box::new(l.model()), Box::new(r.model())),
            AExp::Mul(l, r) => AExpView::Mul(Box::new(l.model()), Box::new(r.model())),
        }
    }
}

impl View for AExp {
    type V = AExpView;

    open spec fn view(&self) -> AExpView {
        self.model()
    }
}

impl AExpView {
    /// Whether the variable `x` occurs in the expression.
    pub open spec fn mentions(self, x: Name) -> bool
        decreases self,
    {
        match self {
            AExpView::Num(_) => false,
            AExpView::Var(v) => v == x,
            AExpView::Add(l, r) => l.mentions(x) || r.mentions(x),
            AExpView::Mul(l, r) => l.mentions(x) || r.mentions(x),
        }
    }

    /// The subexpressions of the expression, itself included.
    pub open spec fn subterms(self) -> Set<AExpView>
        decreases self,
    {
        match self {
            AExpView::Num(_) => set![self],
            AExpView::Var(_) => set![self],
            AExpView::Add(l, r) => l.subterms().union(r.subterms()).insert(self),
            AExpView::Mul(l, r) => l.subterms().union(r.subterms()).insert(self),
        }
    }
}

impl Clone for AExp {
    fn clone(&self) -> (r: AExp)
        ensures
            r == *self,
        decreases self,
    {
        match self {
            AExp::Num(n) => AExp::Num(*n),
            AExp::Var(v) => AExp::Var(v.clone()),
            AExp::Add(l, r) => AExp::Add(Box::new((**l).clone()), Box::new((**r).clone())),
            AExp::Mul(l, r) => AExp::Mul(Box::new((**l).clone()), Box::new((**r).clone())),
        }
    }
}

impl PartialEq for AExp {
    fn eq(&self, other: &AExp) -> (r: bool) {
        self.same(other)
    }
}

impl PartialEqSpecImpl for AExp {
    open spec fn obeys_eq_spec() -> bool {
        true
    }

    open spec fn eq_spec(&self, other: &AExp) -> bool {
        self@ == other@
    }
}

impl AExp {
    /// Whether the two expressions are written alike.
    pub fn same(&self, other: &AExp) -> (r: bool)
        ensures
            r == (self@ == other@),
        decreases self,
    {
        match (self, other) {
            (AExp::Num(a), AExp::Num(b)) => *a == *b,
            (AExp::Var(a), AExp::Var(b)) => a.same(b),
            (AExp::Add(a1, a2), AExp::Add(b1, b2)) => a1.same(b1) && a2.same(b2),
            (AExp::Mul(a1, a2), AExp::Mul(b1, b2)) => a1.same(b1) && a2.same(b2),
            _ => false,
        }
    }

    /// Whether the variable `x` occurs somewhere in the expression.
    pub fn contains_var(&self, x: &VarName) -> (r: bool)
        ensures
            r == self@.mentions(x@),
        decreases self,
    {
        match self {
            AExp::Num(_) => false,
            AExp::Var(name) => x.same(name),
            AExp::Add(left, right) => left.contains_var(x) || right.contains_var(x),
            AExp::Mul(left, right) => left.contains_var(x) || right.contains_var(x),
        }
    }

    /// The subexpressions of the expression, itself included.
    pub fn sub_aexps(&self) -> (r: ExpSet)
        ensures
            r.wf(),
            r@ == self@.subterms(),
        decreases self,
    {
        match self {
            AExp::Num(_) => {
                let mut set = ExpSet::new();
                set.insert(self.clone());
                assert(set@ =~= self@.subterms());
                set
            },
            AExp::Var(_) => {
                let mut set = ExpSet::new();
                set.insert(self.clone());
                assert(set@ =~= self@.subterms());
                set
            },
            AExp::Add(a1, a2) => {
                let mut set = a1.sub_aexps();
                let sub_aexps2 = a2.sub_aexps();
                set.union_with(&sub_aexps2);
                set.insert(self.clone());
                set
            },
            AExp::Mul(a1, a2) => {
                let mut set = a1.sub_aexps();
                let sub_aexps2 = a2.sub_aexps();
                set.union_with(&sub_aexps2);
                set.insert(self.clone());
                set
            },
        }
    }
}

} // verus!
