use vstd::prelude::*;
use vstd::std_specs::cmp::PartialEqSpec;
use crate::cfg::{Node, NodeView, node_views};

verus! {

/// The join of the values of a sequence that is not empty, folded from
/// the left.
pub open spec fn join_all<L: SemiLat>(vs: Seq<L::V>) -> L::V
    recommends
        vs.len() > 0,
    decreases vs.len(),
{
    if vs.len() <= 1 {
        vs[0]
    } else {
        L::join_spec(join_all::<L>(vs.drop_last()), vs.last())
    }
}

/// The mathematical values of a sequence of references.
pub open spec fn ref_views<L: View>(vs: Seq<&L>) -> Seq<L::V> {
    vs.map_values(|x: &L| x@)
}

/// A semi-lattice: values with a join that is idempotent, commutative and
/// associative, and an order in which the join is monotone.
pub trait SemiLat: Sized + View {
    /// Whether the value is a valid representation.
    spec fn lat_wf(&self) -> bool;

    /// The join of two mathematical values.
    spec fn join_spec(a: Self::V, b: Self::V) -> Self::V;

    /// The order of the mathematical values.
    spec fn le(a: Self::V, b: Self::V) -> bool;

    /// The join of two values.
    fn join_bin(&self, other: &Self) -> (r: Self)
        requires
            self.lat_wf(),
            other.lat_wf(),
        ensures
            r.lat_wf(),
            r@ == Self::join_spec(self@, other@),
    ;

    /// The join of a value with itself is that value.
    proof fn lemma_join_idempotent(a: Self::V)
        ensures
            Self::join_spec(a, a) == a,
    ;

    /// The join does not depend on the order of its arguments.
    proof fn lemma_join_commutative(a: Self::V, b: Self::V)
        ensures
            Self::join_spec(a, b) == Self::join_spec(b, a),
    ;

    /// The join does not depend on how its arguments are grouped.
    proof fn lemma_join_associative(a: Self::V, b: Self::V, c: Self::V)
        ensures
            Self::join_spec(Self::join_spec(a, b), c) == Self::join_spec(a, Self::join_spec(b, c)),
    ;

    /// The order is reflexive and transitive.
    proof fn lemma_le_preorder(a: Self::V, b: Self::V, c: Self::V)
        ensures
            Self::le(a, a),
            Self::le(a, b) && Self::le(b, c) ==> Self::le(a, c),
    ;

    /// Two values that are below each other are the same.
    proof fn lemma_le_antisymmetric(a: Self::V, b: Self::V)
        requires
            Self::le(a, b),
            Self::le(b, a),
        ensures
            a == b,
    ;

    /// The join is monotone in both arguments.
    proof fn lemma_join_monotone(a: Self::V, b: Self::V, c: Self::V, d: Self::V)
        requires
            Self::le(a, c),
            Self::le(b, d),
        ensures
            Self::le(Self::join_spec(a, b), Self::join_spec(c, d)),
    ;
}

/// The join of the values of `vs`, folded from the left.
pub fn join<L: SemiLat>(vs: &Vec<&L>) -> (r: L)
    requires
        vs@.len() > 0,
        forall|i: int| 0 <= i < vs@.len() ==> (#[trigger] vs@[i]).lat_wf(),
    ensures
        r.lat_wf(),
        r@ == join_all::<L>(ref_views(vs@)),
{
    let mut acc = vs[0].join_bin(vs[0]);
    proof {
        L::lemma_join_idempotent(vs@[0]@);
        assert(ref_views(vs@.take(1)) =~= seq![vs@[0]@]);
    }
    let mut i: usize = 1;
    while i < vs.len()
        invariant
            1 <= i <= vs.len(),
            acc.lat_wf(),
            forall|i: int| 0 <= i < vs@.len() ==> (#[trigger] vs@[i]).lat_wf(),
            acc@ == join_all::<L>(ref_views(vs@.take(i as int))),
        decreases vs.len() - i,
    {
        proof {
            assert(ref_views(vs@.take(i + 1)).drop_last() =~= ref_views(vs@.take(i as int)));
            assert(ref_views(vs@.take(i + 1)).last() == vs@[i as int]@);
        }
        acc = acc.join_bin(vs[i]);
        i += 1;
    }
    proof {
        assert(vs@.take(i as int) =~= vs@);
    }
    acc
}

/// The flow of values through a control-flow graph: what a node makes of
/// the value that enters it, and the values from which the analysis starts.
pub trait FlowSemantics: SemiLat + PartialEq {
    /// The effect of a node on a mathematical value.
    spec fn transfer_spec(n: NodeView, x: Self::V) -> Self::V;

    /// The mathematical value from which every node but the entry starts
    /// in a graph with the nodes `nodes`.
    spec fn init_spec(nodes: Seq<NodeView>) -> Self::V;

    /// The mathematical value of the entry.
    spec fn init_start_spec() -> Self::V;

    /// Whether a value speaks only of what occurs in the nodes `nodes`.
    spec fn in_scope(x: Self::V, nodes: Seq<NodeView>) -> bool;

    /// The height of a value in the order, among those in scope.
    spec fn rank(x: Self::V, nodes: Seq<NodeView>) -> nat;

    /// A bound of the height of every value in scope.
    spec fn height(nodes: Seq<NodeView>) -> nat;

    /// The value that leaves the node `n` when `x` enters it.
    fn eval_transfer_function(n: &Node, x: &Self) -> (r: Self)
        requires
            x.lat_wf(),
        ensures
            r.lat_wf(),
            r@ == Self::transfer_spec(n@, x@),
    ;

    /// The value from which every node but the entry starts in a graph
    /// with the nodes `nodes`: the least value in scope.
    fn init(nodes: &Vec<Node>) -> (r: Self)
        ensures
            r.lat_wf(),
            r@ == Self::init_spec(node_views(nodes@)),
    ;

    /// The value of the entry.
    fn init_start() -> (r: Self)
        ensures
            r.lat_wf(),
            r@ == Self::init_start_spec(),
    ;

    /// `==` compares the mathematical values.
    proof fn lemma_eq(a: &Self, b: &Self)
        ensures
            Self::obeys_eq_spec(),
            a.eq_spec(b) == (a@ == b@),
    ;

    /// The effect of every node is monotone.
    proof fn lemma_transfer_monotone(n: NodeView, a: Self::V, b: Self::V)
        requires
            Self::le(a, b),
        ensures
            Self::le(Self::transfer_spec(n, a), Self::transfer_spec(n, b)),
    ;

    /// The two start values are in scope, the first is the least value in
    /// scope, and joins and the effects of the nodes stay in scope.
    proof fn lemma_scope(nodes: Seq<NodeView>, i: int, a: Self::V, b: Self::V)
        requires
            0 <= i < nodes.len(),
        ensures
            Self::in_scope(Self::init_spec(nodes), nodes),
            Self::in_scope(Self::init_start_spec(), nodes),
            Self::in_scope(a, nodes) ==> Self::le(Self::init_spec(nodes), a),
            Self::in_scope(a, nodes) && Self::in_scope(b, nodes) ==> Self::in_scope(Self::join_spec(a, b), nodes),
            Self::in_scope(a, nodes) ==> Self::in_scope(Self::transfer_spec(nodes[i], a), nodes),
    ;

    /// The height is bounded, and grows with the order: strictly between
    /// two different values.
    proof fn lemma_rank(nodes: Seq<NodeView>, a: Self::V, b: Self::V)
        requires
            Self::in_scope(a, nodes),
            Self::in_scope(b, nodes),
            Self::le(a, b),
        ensures
            Self::rank(a, nodes) <= Self::rank(b, nodes) <= Self::height(nodes),
            a != b ==> Self::rank(a, nodes) < Self::rank(b, nodes),
    ;
}

} // verus!
