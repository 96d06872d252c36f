use vstd::prelude::*;
use vstd::std_specs::cmp::PartialEqSpecImpl;
use crate::aexp::AExpView;
use crate::bexp::BExpView;
use crate::cfg::{Node, NodeView, node_views};
use crate::common::{Name, VarName};
use crate::exp_set::{ExpSet, list_text};
use crate::flow_analysis::common::{FlowSemantics, SemiLat};
use crate::text::Show;

verus! {

/// The arithmetic expressions that a node computes.
pub open spec fn node_terms(n: NodeView) -> Set<AExpView> {
    match n {
        NodeView::Assign(_, a) => a.subterms(),
        NodeView::Branch(b) => b.subterms(),
        _ => Set::empty(),
    }
}

/// The arithmetic expressions that the nodes `nodes` compute.
pub open spec fn universe(nodes: Seq<NodeView>) -> Set<AExpView>
    decreases nodes.len(),
{
    if nodes.len() == 0 {
        Set::empty()
    } else {
        universe(nodes.drop_last()).union(node_terms(nodes.last()))
    }
}

/// The expressions of `s` in which the variable `x` does not occur.
pub open spec fn without_var(s: Set<AExpView>, x: Name) -> Set<AExpView> {
    s.filter(|e: AExpView| !e.mentions(x))
}

/// The effect of a node on the available expressions: a guard makes its
/// arithmetic subexpressions available; an assignment makes those of its
/// expression available and then takes away every expression in which
/// its variable occurs; any other node changes nothing.
pub open spec fn transfer_avail(n: NodeView, s: Set<AExpView>) -> Set<AExpView> {
    match n {
        NodeView::Assign(x, a) => without_var(s.union(a.subterms()), x),
        NodeView::Branch(b) => s.union(b.subterms()),
        _ => s,
    }
}

/// An expression has finitely many subexpressions.
proof fn lemma_subterms_finite(a: AExpView)
    ensures
        a.subterms().finite(),
    decreases a,
{
    match a {
        AExpView::Num(_) => {},
        AExpView::Var(_) => {},
        AExpView::Add(l, r) => {
            lemma_subterms_finite(*l);
            lemma_subterms_finite(*r);
        },
        AExpView::Mul(l, r) => {
            lemma_subterms_finite(*l);
            lemma_subterms_finite(*r);
        },
    }
}

/// A boolean expression has finitely many arithmetic subexpressions.
proof fn lemma_guard_terms_finite(b: BExpView)
    ensures
        b.subterms().finite(),
    decreases b,
{
    match b {
        BExpView::LessEq(l, r) => {
            lemma_subterms_finite(l);
            lemma_subterms_finite(r);
        },
        BExpView::Neg(c) => {
            lemma_guard_terms_finite(*c);
        },
        BExpView::And(l, r) => {
            lemma_guard_terms_finite(*l);
            lemma_guard_terms_finite(*r);
        },
        BExpView::Or(l, r) => {
            lemma_guard_terms_finite(*l);
            lemma_guard_terms_finite(*r);
        },
    }
}

/// A node computes finitely many expressions.
proof fn lemma_node_terms_finite(n: NodeView)
    ensures
        node_terms(n).finite(),
{
    match n {
        NodeView::Assign(_, a) => {
            lemma_subterms_finite(a);
        },
        NodeView::Branch(b) => {
            lemma_guard_terms_finite(b);
        },
        _ => {},
    }
}

/// The nodes compute finitely many expressions.
proof fn lemma_universe_finite(nodes: Seq<NodeView>)
    ensures
        universe(nodes).finite(),
    decreases nodes.len(),
{
    if nodes.len() > 0 {
        lemma_node_terms_finite(nodes.last());
        lemma_universe_finite(nodes.drop_last());
    }
}

/// The expressions of each node are among those of all nodes.
proof fn lemma_universe(nodes: Seq<NodeView>, i: int)
    requires
        0 <= i < nodes.len(),
    ensures
        node_terms(nodes[i]).subset_of(universe(nodes)),
    decreases nodes.len(),
{
    if i < nodes.len() - 1 {
        lemma_universe(nodes.drop_last(), i);
    }
}

/// The arithmetic expressions that are available: the values that the
/// analysis of available expressions lets flow through a graph.
///
/// A value is below another if it has all expressions of the other and
/// maybe more: the analysis starts every node but the entry from all
/// expressions that the nodes of the graph compute, starts the entry from
/// the empty set, and lets the sets shrink. Where flows meet, an
/// expression stays available only if it is available on each of them. So
/// the solver reaches the greatest sets that solve the equations.
#[derive(Debug)]
pub struct ExpSetLat {
    set: ExpSet,
}

impl View for ExpSetLat {
    type V = Set<AExpView>;

    closed spec fn view(&self) -> Set<AExpView> {
        self.set@
    }
}

impl ExpSetLat {
    /// The invariant of the representation.
    pub closed spec fn wf(self) -> bool {
        self.set.wf()
    }

    /// The value with the expressions of `set`.
    pub fn new(set: ExpSet) -> (r: ExpSetLat)
        requires
            set.wf(),
        ensures
            r.wf(),
            r@ == set@,
    {
        ExpSetLat { set }
    }

    /// The expressions of the value in the order in which they are
    /// stored.
    pub closed spec fn elements(self) -> Seq<AExpView> {
        self.set.elements()
    }

    /// The expressions of the value.
    pub fn set(&self) -> (r: &ExpSet)
        ensures
            self.wf() ==> r.wf(),
            r@ == self@,
            r.elements() == self.elements(),
    {
        &self.set
    }

    /// Removes all expressions in which the variable `x` occurs.
    pub fn clear_var(&mut self, x: &VarName)
        requires
            old(self).wf(),
        ensures
            final(self).wf(),
            final(self)@ == without_var(old(self)@, x@),
    {
        self.set.remove_var(x);
    }

    /// Adds the expressions of `set`.
    pub fn extend(&mut self, set: ExpSet)
        requires
            old(self).wf(),
        ensures
            final(self).wf(),
            final(self)@ == old(self)@.union(set@),
    {
        self.set.union_with(&set);
    }

    /// Whether the two values have the same expressions.
    pub fn same(&self, other: &ExpSetLat) -> (r: bool)
        ensures
            r == (self@ == other@),
    {
        self.set.same(&other.set)
    }
}

impl Show for ExpSetLat {
    /// The expressions in the order in which they were first added,
    /// between braces: `{x, x*x}`.
    open spec fn text(&self) -> Seq<char> {
        "{"@ + list_text(self.elements()) + "}"@
    }

    fn show(&self, out: &mut String) {
        self.write_text(out);
    }
}

impl ExpSetLat {
    /// Appends the text of the value to `out`.
    pub fn write_text(&self, out: &mut String)
        ensures
            final(out)@ == old(out)@ + self.text(),
    {
        self.set.write_text(out);
    }
}

impl ExpSetLat {
    /// The text of the value: its expressions between braces.
    pub fn to_string(&self) -> (r: String)
        ensures
            r@ == self.text(),
    {
        self.set.to_string()
    }
}

impl Clone for ExpSetLat {
    fn clone(&self) -> (r: ExpSetLat)
        ensures
            r@ == self@,
            self.wf() ==> r.wf(),
    {
        ExpSetLat { set: self.set.clone() }
    }
}

impl PartialEq for ExpSetLat {
    fn eq(&self, other: &ExpSetLat) -> (r: bool) {
        self.same(other)
    }
}

impl PartialEqSpecImpl for ExpSetLat {
    open spec fn obeys_eq_spec() -> bool {
        true
    }

    open spec fn eq_spec(&self, other: &ExpSetLat) -> bool {
        self@ == other@
    }
}

impl SemiLat for ExpSetLat {
    open spec fn lat_wf(&self) -> bool {
        self.wf()
    }

    open spec fn join_spec(a: Set<AExpView>, b: Set<AExpView>) -> Set<AExpView> {
        a.intersect(b)
    }

    open spec fn le(a: Set<AExpView>, b: Set<AExpView>) -> bool {
        b.subset_of(a)
    }

    fn join_bin(&self, other: &ExpSetLat) -> (r: ExpSetLat) {
        ExpSetLat::new(self.set.intersection(&other.set))
    }

    proof fn lemma_join_idempotent(a: Set<AExpView>) {
        assert(a.intersect(a) =~= a);
    }

    proof fn lemma_join_commutative(a: Set<AExpView>, b: Set<AExpView>) {
        assert(a.intersect(b) =~= b.intersect(a));
    }

    proof fn lemma_join_associative(a: Set<AExpView>, b: Set<AExpView>, c: Set<AExpView>) {
        assert(a.intersect(b).intersect(c) =~= a.intersect(b.intersect(c)));
    }

    proof fn lemma_le_preorder(a: Set<AExpView>, b: Set<AExpView>, c: Set<AExpView>) {
    }

    proof fn lemma_le_antisymmetric(a: Set<AExpView>, b: Set<AExpView>) {
        assert(a =~= b);
    }

    proof fn lemma_join_monotone(a: Set<AExpView>, b: Set<AExpView>, c: Set<AExpView>, d: Set<AExpView>) {
    }
}

impl FlowSemantics for ExpSetLat {
    open spec fn transfer_spec(n: NodeView, x: Set<AExpView>) -> Set<AExpView> {
        transfer_avail(n, x)
    }

    open spec fn init_spec(nodes: Seq<NodeView>) -> Set<AExpView> {
        universe(nodes)
    }

    open spec fn init_start_spec() -> Set<AExpView> {
        Set::empty()
    }

    open spec fn in_scope(x: Set<AExpView>, nodes: Seq<NodeView>) -> bool {
        x.subset_of(universe(nodes))
    }

    open spec fn rank(x: Set<AExpView>, nodes: Seq<NodeView>) -> nat {
        (universe(nodes).len() - x.len()) as nat
    }

    open spec fn height(nodes: Seq<NodeView>) -> nat {
        universe(nodes).len()
    }

    fn eval_transfer_function(n: &Node, set: &ExpSetLat) -> (r: ExpSetLat) {
        let mut r = set.clone();
        match n {
            Node::Init => {},
            Node::Terminal => {},
            Node::Skip => {},
            Node::Branch(b) => {
                r.extend(b.sub_aexps());
            },
            Node::Assign(x, a) => {
                r.extend(a.sub_aexps());
                r.clear_var(x);
            },
        }
        r
    }

    fn init_start() -> (r: ExpSetLat) {
        ExpSetLat::new(ExpSet::new())
    }

    fn init(nodes: &Vec<Node>) -> (r: ExpSetLat) {
        let mut set = ExpSet::new();
        let mut i: usize = 0;
        proof {
            assert(node_views(nodes@).take(0) =~= Seq::<NodeView>::empty());
        }
        while i < nodes.len()
            invariant
                i <= nodes.len(),
                set.wf(),
                set@ == universe(node_views(nodes@).take(i as int)),
            decreases nodes.len() - i,
        {
            proof {
                let next = node_views(nodes@).take(i + 1);
                assert(next.drop_last() =~= node_views(nodes@).take(i as int));
                assert(next.last() == nodes@[i as int]@);
            }
            match &nodes[i] {
                Node::Assign(_, a) => {
                    set.union_with(&a.sub_aexps());
                },
                Node::Branch(b) => {
                    set.union_with(&b.sub_aexps());
                },
                _ => {
                    assert(set@.union(Set::<AExpView>::empty()) =~= set@);
                },
            }
            i += 1;
        }
        proof {
            assert(node_views(nodes@).take(i as int) =~= node_views(nodes@));
        }
        ExpSetLat::new(set)
    }

    proof fn lemma_eq(a: &ExpSetLat, b: &ExpSetLat) {
    }

    proof fn lemma_transfer_monotone(n: NodeView, a: Set<AExpView>, b: Set<AExpView>) {
    }

    proof fn lemma_scope(nodes: Seq<NodeView>, i: int, a: Set<AExpView>, b: Set<AExpView>) {
        lemma_universe(nodes, i);
        lemma_universe_finite(nodes);
    }

    proof fn lemma_rank(nodes: Seq<NodeView>, a: Set<AExpView>, b: Set<AExpView>) {
        lemma_universe_finite(nodes);
        vstd::set_lib::lemma_len_subset(a, universe(nodes));
        vstd::set_lib::lemma_len_subset(b, a);
        if a.len() == b.len() {
            vstd::set_lib::lemma_subset_equality(b, a);
        }
    }
}

} // verus!
