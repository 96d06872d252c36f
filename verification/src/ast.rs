use vstd::prelude::*;
use crate::aexp::{AExp, AExpView};
use crate::bexp::{BExp, BExpView};
use crate::common::{Name, VarName};

verus! {

/// The mathematical value of a statement; a program is a sequence of them.
pub enum AtomView {
    Skip,
    Assign(Name, AExpView),
    Cond(BExpView, Seq<AtomView>, Seq<AtomView>),
    While(BExpView, Seq<AtomView>),
}

/// A program: statements executed one after the other.
#[derive(Debug, PartialEq)]
pub enum Prog {
    Prog(Vec<ProgAtom>),
}

/// A single statement of a program.
#[derive(Debug, PartialEq)]
pub enum ProgAtom {
    Skip,
    Assign(VarName, Box<AExp>),
    Cond(Box<BExp>, Box<Prog>, Box<Prog>),
    While(Box<BExp>, Box<Prog>),
}

impl Prog {
    /// The mathematical value of the program.
    pub open spec fn model(self) -> Seq<AtomView>
        decreases self,
    {
        match self {
            Prog::Prog(atoms) => Seq::new(
                atoms.len() as nat,
                |i: int|
                    if 0 <= i < atoms.len() {
                        atoms[i].model()
                    } else {
                        AtomView::Skip
                    },
            ),
        }
    }

    /// The statements of the program.
    pub open spec fn atoms(self) -> Seq<ProgAtom> {
        match self {
            Prog::Prog(atoms) => atoms@,
        }
    }
}

impl ProgAtom {
    /// The mathematical value of the statement.
    pub open spec fn model(self) -> AtomView
        decreases self,
    {
        match self {
            ProgAtom::Skip => AtomView::Skip,
            ProgAtom::Assign(x, a) => AtomView::Assign(x@, a.model()),
            ProgAtom::Cond(b, p, q) => AtomView::Cond(b.model(), p.model(), q.model()),
            ProgAtom::While(b, p) => AtomView::While(b.model(), p.model()),
        }
    }
}

impl View for Prog {
    type V = Seq<AtomView>;

    open spec fn view(&self) -> Seq<AtomView> {
        self.model()
    }
}

impl View for ProgAtom {
    type V = AtomView;

    open spec fn view(&self) -> AtomView {
        self.model()
    }
}

/// The number of statements in a program, nested ones included.
pub open spec fn atom_count(p: Seq<AtomView>) -> nat
    decreases p,
{
    if p.len() == 0 {
        0
    } else {
        atom_size(p[0]) + atom_count(p.drop_first())
    }
}

/// The number of statements in a statement, itself included.
pub open spec fn atom_size(a: AtomView) -> nat
    decreases a,
{
    match a {
        AtomView::Skip => 1,
        AtomView::Assign(_, _) => 1,
        AtomView::Cond(_, p, q) => 1 + atom_count(p) + atom_count(q),
        AtomView::While(_, p) => 1 + atom_count(p),
    }
}

} // verus!
