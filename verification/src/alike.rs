//! When two control-flow graphs are equal: they have the same annotated
//! nodes and the same edges between them, whatever the indices are.

use vstd::prelude::*;
use vstd::std_specs::cmp::{PartialEqSpec, PartialEqSpecImpl};
use crate::cfg::{Cfg, CfgView, NodeIdx};

verus! {

/// Whether node `i` of `c` and node `j` of `d` have the same operation
/// and equal annotations.
pub open spec fn node_alike<A: PartialEq>(c: CfgView<A>, i: int, d: CfgView<A>, j: int) -> bool {
    c.graph.nodes[i] == d.graph.nodes[j] && c.annots[i].eq_spec(&d.annots[j])
}

/// Whether `d` has a node like node `i` of `c`.
pub open spec fn has_node<A: PartialEq>(c: CfgView<A>, i: int, d: CfgView<A>) -> bool {
    exists|j: int| 0 <= j < d.graph.nodes.len() && #[trigger] node_alike(c, i, d, j)
}

/// Whether edge `k` of `c` and edge `l` of `d` have the same label and
/// join nodes that are alike.
pub open spec fn edge_alike<A: PartialEq>(c: CfgView<A>, k: int, d: CfgView<A>, l: int) -> bool {
    &&& node_alike(c, c.graph.edges[k].source, d, d.graph.edges[l].source)
    &&& node_alike(c, c.graph.edges[k].target, d, d.graph.edges[l].target)
    &&& c.graph.edges[k].label == d.graph.edges[l].label
}

/// Whether `d` has an edge like edge `k` of `c`.
pub open spec fn has_edge<A: PartialEq>(c: CfgView<A>, k: int, d: CfgView<A>) -> bool {
    exists|l: int| 0 <= l < d.graph.edges.len() && #[trigger] edge_alike(c, k, d, l)
}

/// Whether `d` has a node like every node of `c` and an edge like every
/// edge of `c`.
pub open spec fn covered<A: PartialEq>(c: CfgView<A>, d: CfgView<A>) -> bool {
    &&& forall|i: int| 0 <= i < c.graph.nodes.len() ==> #[trigger] has_node(c, i, d)
    &&& forall|k: int| 0 <= k < c.graph.edges.len() ==> #[trigger] has_edge(c, k, d)
}

/// Whether two graphs have the same annotated nodes, the same edges
/// between them, and entries that are alike.
pub open spec fn alike<A: PartialEq>(c: CfgView<A>, d: CfgView<A>) -> bool {
    covered(c, d) && covered(d, c) && node_alike(c, c.init, d, d.init)
}

impl<A: PartialEq> Cfg<A> {
    /// Whether node `i` and node `j` of `other` are alike.
    fn node_matches(&self, i: NodeIdx, other: &Cfg<A>, j: NodeIdx) -> (r: bool)
        requires
            self@.wf(),
            other@.wf(),
            i < self@.graph.nodes.len(),
            j < other@.graph.nodes.len(),
        ensures
            A::obeys_eq_spec() ==> r == node_alike(self@, i as int, other@, j as int),
    {
        self.node(i).same(other.node(j)) && *self.annot(i) == *other.annot(j)
    }

    /// Whether `other` has a node like node `i`.
    fn finds_node(&self, i: NodeIdx, other: &Cfg<A>) -> (r: bool)
        requires
            self@.wf(),
            other@.wf(),
            i < self@.graph.nodes.len(),
        ensures
            A::obeys_eq_spec() ==> r == has_node(self@, i as int, other@),
    {
        let n = other.node_count();
        let mut j: usize = 0;
        while j < n
            invariant
                j <= n,
                n == other@.graph.nodes.len(),
                self@.wf(),
                other@.wf(),
                i < self@.graph.nodes.len(),
                A::obeys_eq_spec() ==> forall|k: int| 0 <= k < j ==> !node_alike(self@, i as int, other@, k),
            decreases n - j,
        {
            if self.node_matches(i, other, j) {
                return true;
            }
            j += 1;
        }
        false
    }

    /// Whether edge `k` and edge `l` of `other` are alike.
    fn edge_matches(&self, k: usize, other: &Cfg<A>, l: usize) -> (r: bool)
        requires
            self@.wf(),
            other@.wf(),
            k < self@.graph.edges.len(),
            l < other@.graph.edges.len(),
        ensures
            A::obeys_eq_spec() ==> r == edge_alike(self@, k as int, other@, l as int),
    {
        let (a, b, label) = self.edge(k);
        let (c, d, other_label) = other.edge(l);
        assert(0 <= self@.graph.edges[k as int].source < self@.graph.nodes.len());
        assert(0 <= other@.graph.edges[l as int].source < other@.graph.nodes.len());
        label == other_label && self.node_matches(a, other, c) && self.node_matches(b, other, d)
    }

    /// Whether `other` has an edge like edge `k`.
    fn finds_edge(&self, k: usize, other: &Cfg<A>) -> (r: bool)
        requires
            self@.wf(),
            other@.wf(),
            k < self@.graph.edges.len(),
        ensures
            A::obeys_eq_spec() ==> r == has_edge(self@, k as int, other@),
    {
        let n = other.edge_count();
        let mut l: usize = 0;
        while l < n
            invariant
                l <= n,
                n == other@.graph.edges.len(),
                self@.wf(),
                other@.wf(),
                k < self@.graph.edges.len(),
                A::obeys_eq_spec() ==> forall|m: int| 0 <= m < l ==> !edge_alike(self@, k as int, other@, m),
            decreases n - l,
        {
            if self.edge_matches(k, other, l) {
                return true;
            }
            l += 1;
        }
        false
    }

    /// Whether `other` has a node like every node and an edge like every
    /// edge.
    fn covered_by(&self, other: &Cfg<A>) -> (r: bool)
        requires
            self@.wf(),
            other@.wf(),
        ensures
            A::obeys_eq_spec() ==> r == covered(self@, other@),
    {
        let nodes = self.node_count();
        let mut i: usize = 0;
        while i < nodes
            invariant
                i <= nodes,
                nodes == self@.graph.nodes.len(),
                self@.wf(),
                other@.wf(),
                A::obeys_eq_spec() ==> forall|j: int| 0 <= j < i ==> #[trigger] has_node(self@, j, other@),
            decreases nodes - i,
        {
            if !self.finds_node(i, other) {
                return false;
            }
            i += 1;
        }
        let edges = self.edge_count();
        let mut k: usize = 0;
        while k < edges
            invariant
                k <= edges,
                edges == self@.graph.edges.len(),
                self@.wf(),
                other@.wf(),
                A::obeys_eq_spec() ==> forall|j: int|
                    0 <= j < self@.graph.nodes.len() ==> #[trigger] has_node(self@, j, other@),
                A::obeys_eq_spec() ==> forall|j: int| 0 <= j < k ==> #[trigger] has_edge(self@, j, other@),
            decreases edges - k,
        {
            if !self.finds_edge(k, other) {
                return false;
            }
            k += 1;
        }
        true
    }

    /// Whether the two graphs have the same annotated nodes, the same
    /// edges between them, and entries that are alike.
    pub fn same(&self, other: &Cfg<A>) -> (r: bool)
        requires
            self@.wf(),
            other@.wf(),
        ensures
            A::obeys_eq_spec() ==> r == alike(self@, other@),
    {
        self.covered_by(other) && other.covered_by(self) && self.node_matches(self.init(), other, other.init())
    }
}

impl<A: PartialEq> PartialEq for Cfg<A> {
    fn eq(&self, other: &Cfg<A>) -> (r: bool) {
        self.check() && other.check() && self.same(other)
    }
}

impl<A: PartialEq> PartialEqSpecImpl for Cfg<A> {
    open spec fn obeys_eq_spec() -> bool {
        A::obeys_eq_spec()
    }

    open spec fn eq_spec(&self, other: &Cfg<A>) -> bool {
        self@.wf() && other@.wf() && alike(self@, other@)
    }
}

} // verus!
