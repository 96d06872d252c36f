use vstd::prelude::*;
use vstd::std_specs::cmp::PartialEqSpecImpl;
use crate::aexp::{AExp, AExpView};
use crate::bexp::{BExp, BExpView};
use crate::common::{Name, VarName};
use crate::ast::{AtomView, Prog, ProgAtom, atom_count, atom_size};
use crate::graph::{FlowEdge, FlowGraph, graph_nodes, graph_edges, graph_new, graph_add_node,
    graph_add_edge, graph_node_count, graph_edge_count, graph_node_weight, graph_neighbors, graph_clone,
    graph_history,
    neighbors, lemma_neighbors, vec1_items, vec1_try_from_vec, graph_edge_endpoints, graph_edge_weight};
use crate::well_formed::{flow_invariants, has_pred, lemma_lowered_invariants};
use crate::reach::{all_reachable, has_terminal, lemma_lowered_reachable, lemma_terminal, open_prog, reachable};
use petgraph::Direction;
use vec1::Vec1;

verus! {

/// A node is identified by its position in the graph.
pub type NodeIdx = usize;

/// The mathematical value of a node's operation.
pub enum NodeView {
    Init,
    Terminal,
    Skip,
    Assign(Name, AExpView),
    Branch(BExpView),
}

/// The operation of a node of a control-flow graph.
///
/// - `Init` marks the program's entry and occurs once.
/// - `Terminal` collects the branch edges that lead out of the program.
/// - `Skip` and `Assign` stand for the statements of the same name.
/// - `Branch` stands for the guard of a conditional or of a loop.
#[derive(Debug, PartialEq, Eq, Hash)]
pub enum Node {
    Init,
    Terminal,
    Skip,
    Assign(VarName, Box<AExp>),
    Branch(Box<BExp>),
}

impl View for Node {
    type V = NodeView;

    open spec fn view(&self) -> NodeView {
        match self {
            Node::Init => NodeView::Init,
            Node::Terminal => NodeView::Terminal,
            Node::Skip => NodeView::Skip,
            Node::Assign(x, a) => NodeView::Assign(x@, a.model()),
            Node::Branch(b) => NodeView::Branch(b.model()),
        }
    }
}

impl Node {
    /// Whether the two operations are alike.
    pub fn same(&self, other: &Node) -> (r: bool)
        ensures
            r == (self@ == other@),
    {
        match (self, other) {
            (Node::Init, Node::Init) => true,
            (Node::Terminal, Node::Terminal) => true,
            (Node::Skip, Node::Skip) => true,
            (Node::Assign(x, a), Node::Assign(y, b)) => x.same(y) && a.same(b),
            (Node::Branch(a), Node::Branch(b)) => a.same(b),
            _ => false,
        }
    }
}

impl Clone for Node {
    fn clone(&self) -> (r: Node)
        ensures
            r == *self,
    {
        match self {
            Node::Init => Node::Init,
            Node::Terminal => Node::Terminal,
            Node::Skip => Node::Skip,
            Node::Assign(x, a) => Node::Assign(x.clone(), Box::new((**a).clone())),
            Node::Branch(b) => Node::Branch(Box::new((**b).clone())),
        }
    }
}

/// The label of an edge: plain sequencing, or the outcome of a guard.
#[derive(Debug, Clone, Copy, PartialEq, Eq, Hash, Structural)]
pub enum Edge {
    Plain,
    True,
    False,
}

/// A node together with an annotation of type `T`.
#[derive(Debug, Clone, PartialEq, Eq, Hash)]
pub struct AnnotNode<T> {
    pub node: Node,
    pub annot: T,
}

impl<T> AnnotNode<T> {
    /// The node `node` annotated with `annot`.
    pub fn new(node: Node, annot: T) -> (r: AnnotNode<T>)
        ensures
            r.node == node,
            r.annot == annot,
    {
        AnnotNode { node, annot }
    }
}

/// The annotation that says nothing.
#[derive(Debug, Clone, Copy, Eq, Hash)]
pub struct RawAnnot {}

impl PartialEq for RawAnnot {
    fn eq(&self, other: &RawAnnot) -> (r: bool) {
        true
    }
}

impl PartialEqSpecImpl for RawAnnot {
    open spec fn obeys_eq_spec() -> bool {
        true
    }

    open spec fn eq_spec(&self, other: &RawAnnot) -> bool {
        true
    }
}

/// The nodes and edges of a control-flow graph as plain sequences: node
/// `i` is `nodes[i]`, and the edges stand in the order of their addition.
pub struct GraphView {
    pub nodes: Seq<NodeView>,
    pub edges: Seq<FlowEdge>,
}

/// The mathematical value of an annotated control-flow graph.
pub struct CfgView<A> {
    pub graph: GraphView,
    pub annots: Seq<A>,
    pub init: int,
}

/// The values of a sequence of nodes.
pub open spec fn node_views(nodes: Seq<Node>) -> Seq<NodeView> {
    nodes.map_values(|n: Node| n@)
}

/// A control-flow graph: annotated nodes, labelled edges and the entry node.
#[derive(Debug)]
pub struct Cfg<A> {
    graph: FlowGraph,
    annots: Vec<A>,
    init: NodeIdx,
}

impl<A> View for Cfg<A> {
    type V = CfgView<A>;

    closed spec fn view(&self) -> CfgView<A> {
        CfgView {
            graph: GraphView {
                nodes: node_views(graph_nodes(self.graph)),
                edges: graph_edges(self.graph),
            },
            annots: self.annots@,
            init: self.init as int,
        }
    }
}

impl GraphView {
    /// Every edge joins two nodes of the graph.
    pub open spec fn edges_in_range(self) -> bool {
        forall|i: int| 0 <= i < self.edges.len() ==> {
            &&& 0 <= (#[trigger] self.edges[i]).source < self.nodes.len()
            &&& 0 <= self.edges[i].target < self.nodes.len()
        }
    }

    /// The graph with one more node, which gets the next free index.
    pub open spec fn with_node(self, node: NodeView) -> GraphView {
        GraphView { nodes: self.nodes.push(node), edges: self.edges }
    }

    /// The graph with one more edge.
    pub open spec fn with_edge(self, source: int, target: int, label: Edge) -> GraphView {
        GraphView { nodes: self.nodes, edges: self.edges.push(FlowEdge { source, target, label }) }
    }
}

/// The predecessors of node `n`: one for each edge that enters it, the
/// newest edge first.
pub open spec fn preds(g: GraphView, n: int) -> Seq<int> {
    neighbors(g.edges, n, Direction::Incoming)
}

/// Every node but the entry has a predecessor.
pub open spec fn has_preds(g: GraphView, init: int) -> bool {
    forall|n: int| 0 <= n < g.nodes.len() && n != init ==> (#[trigger] preds(g, n)).len() > 0
}

/// A node that an edge enters has a predecessor.
proof fn lemma_has_preds(g: GraphView, init: int)
    requires
        forall|i: int| 0 <= i < g.nodes.len() && i != init ==> has_pred(g.edges, i),
    ensures
        has_preds(g, init),
{
    assert forall|n: int| 0 <= n < g.nodes.len() && n != init implies (#[trigger] preds(g, n)).len() > 0 by {
        assert(has_pred(g.edges, n));
        let j = choose|j: int| 0 <= j < g.edges.len() && (#[trigger] g.edges[j]).target == n;
        lemma_neighbors(g.edges, n, Direction::Incoming, g.edges[j].source);
        assert(crate::graph::links(g.edges[j], n, Direction::Incoming, g.edges[j].source));
        assert(preds(g, n).contains(g.edges[j].source));
    }
}

/// What is no node of a graph whose edges join its nodes has no
/// neighbours.
proof fn lemma_no_neighbors(g: GraphView, n: int, dir: Direction)
    requires
        g.edges_in_range(),
        n >= g.nodes.len(),
    ensures
        neighbors(g.edges, n, dir) =~= Seq::<int>::empty(),
{
    lemma_no_neighbors_of(g.edges, g.nodes.len(), n, dir);
}

/// A number that is neither the source nor the target of an edge is the
/// neighbour of nothing.
proof fn lemma_no_neighbors_of(edges: Seq<FlowEdge>, k: nat, n: int, dir: Direction)
    requires
        forall|j: int| 0 <= j < edges.len() ==> (#[trigger] edges[j]).source < k && edges[j].target < k,
        n >= k,
    ensures
        neighbors(edges, n, dir).len() == 0,
    decreases edges.len(),
{
    if edges.len() > 0 {
        assert(edges[edges.len() - 1].source < k);
        assert forall|j: int| 0 <= j < edges.drop_last().len() implies (#[trigger] edges.drop_last()[j]).source < k
            && edges.drop_last()[j].target < k by {
            assert(edges.drop_last()[j] == edges[j]);
        }
        lemma_no_neighbors_of(edges.drop_last(), k, n, dir);
    }
}

impl<A> CfgView<A> {
    /// The graph is of a size that node and edge indices of 32 bits can
    /// address, its parts agree in length, and its edges and entry are nodes.
    pub open spec fn wf(self) -> bool {
        &&& self.graph.nodes.len() <= u32::MAX
        &&& self.graph.edges.len() <= u32::MAX
        &&& self.annots.len() == self.graph.nodes.len()
        &&& 0 <= self.init < self.graph.nodes.len()
        &&& self.graph.edges_in_range()
    }
}

impl<A> Cfg<A> {
    /// The invariant of the representation: the graph is well formed, and
    /// its edges are numbered in the order of their addition.
    pub open spec fn wf(self) -> bool {
        self@.wf() && self.in_order()
    }

    /// Whether the edges are numbered in the order of their addition.
    pub closed spec fn in_order(self) -> bool {
        graph_history(self.graph) == graph_edges(self.graph)
    }

    /// The control-flow graph with the nodes and edges of `graph`, the
    /// annotation `annots[i]` at node `i`, and the entry `init`; `None` if
    /// there is not one annotation for each node, if `init` is no node, or
    /// if the graph has more than `u32::MAX` nodes or edges or an edge that
    /// does not join two of its nodes.
    pub fn new(graph: FlowGraph, annots: Vec<A>, init: NodeIdx) -> (r: Option<Cfg<A>>)
        ensures
            match r {
                Some(c) => {
                    &&& c.wf()
                    &&& c@.graph.nodes == node_views(graph_nodes(graph))
                    &&& c@.graph.edges == graph_edges(graph)
                    &&& c@.annots == annots@
                    &&& c@.init == init
                },
                None => !(CfgView {
                    graph: GraphView { nodes: node_views(graph_nodes(graph)), edges: graph_edges(graph) },
                    annots: annots@,
                    init: init as int,
                }).wf(),
            },
    {
        let nodes = graph_node_count(&graph);
        let edges = graph_edge_count(&graph);
        if nodes > 0xffff_ffff || edges > 0xffff_ffff || annots.len() != nodes || init >= nodes {
            return None;
        }
        let mut copy = graph_new();
        let mut n: usize = 0;
        while n < nodes
            invariant
                n <= nodes,
                nodes == graph_nodes(graph).len(),
                nodes <= 0xffff_ffff,
                graph_nodes(copy).len() == n,
                node_views(graph_nodes(copy)) == node_views(graph_nodes(graph)).take(n as int),
                graph_edges(copy) == Seq::<FlowEdge>::empty(),
                graph_history(copy) == Seq::<FlowEdge>::empty(),
            decreases nodes - n,
        {
            let w = graph_node_weight(&graph, n).clone();
            graph_add_node(&mut copy, w);
            proof {
                assert(node_views(graph_nodes(copy)) =~= node_views(graph_nodes(graph)).take(n + 1));
            }
            n += 1;
        }
        proof {
            assert(node_views(graph_nodes(graph)).take(nodes as int) =~= node_views(graph_nodes(graph)));
        }
        let mut i: usize = 0;
        while i < edges
            invariant
                i <= edges,
                edges == graph_edges(graph).len(),
                nodes == graph_nodes(graph).len(),
                nodes == graph_nodes(copy).len(),
                nodes <= 0xffff_ffff,
                edges <= 0xffff_ffff,
                node_views(graph_nodes(copy)) == node_views(graph_nodes(graph)),
                graph_edges(copy) == graph_edges(graph).take(i as int),
                graph_history(copy) == graph_edges(copy),
                forall|j: int|
                    0 <= j < i ==> 0 <= (#[trigger] graph_edges(graph)[j]).source < nodes && 0 <= graph_edges(
                        graph,
                    )[j].target < nodes,
            decreases edges - i,
        {
            match (graph_edge_endpoints(&graph, i), graph_edge_weight(&graph, i)) {
                (Some((a, b)), Some(label)) => {
                    if a >= nodes || b >= nodes {
                        assert(!(0 <= graph_edges(graph)[i as int].source < nodes && 0 <= graph_edges(
                            graph,
                        )[i as int].target < nodes));
                        return None;
                    }
                    graph_add_edge(&mut copy, a, b, label);
                    proof {
                        assert(graph_edges(copy) =~= graph_edges(graph).take(i + 1));
                    }
                },
                _ => {
                    return None;
                },
            }
            i += 1;
        }
        proof {
            assert(graph_edges(graph).take(edges as int) =~= graph_edges(graph));
        }
        Some(Cfg { graph: copy, annots, init })
    }

    /// Whether the graph is well formed.
    pub fn check(&self) -> (r: bool)
        ensures
            r == self@.wf(),
    {
        let nodes = graph_node_count(&self.graph);
        let edges = graph_edge_count(&self.graph);
        if nodes > 0xffff_ffff || edges > 0xffff_ffff || self.annots.len() != nodes || self.init >= nodes {
            return false;
        }
        let mut i: usize = 0;
        while i < edges
            invariant
                i <= edges,
                edges == self@.graph.edges.len(),
                nodes == self@.graph.nodes.len(),
                edges <= 0xffff_ffff,
                forall|j: int|
                    0 <= j < i ==> 0 <= (#[trigger] self@.graph.edges[j]).source < nodes && 0
                        <= self@.graph.edges[j].target < nodes,
            decreases edges - i,
        {
            match graph_edge_endpoints(&self.graph, i) {
                Some((a, b)) => {
                    if a >= nodes || b >= nodes {
                        assert(!(0 <= self@.graph.edges[i as int].source < nodes && 0
                            <= self@.graph.edges[i as int].target < nodes));
                        return false;
                    }
                },
                None => {
                    return false;
                },
            }
            i += 1;
        }
        true
    }

    /// The number of nodes.
    pub fn node_count(&self) -> (n: usize)
        ensures
            n == self@.graph.nodes.len(),
    {
        graph_node_count(&self.graph)
    }

    /// The number of edges.
    pub fn edge_count(&self) -> (n: usize)
        ensures
            n == self@.graph.edges.len(),
    {
        graph_edge_count(&self.graph)
    }

    /// The entry node.
    pub fn init(&self) -> (n: NodeIdx)
        ensures
            n == self@.init,
    {
        self.init
    }

    /// The operation of node `n`.
    pub fn node(&self, n: NodeIdx) -> (r: &Node)
        requires
            self@.wf(),
            n < self@.graph.nodes.len(),
        ensures
            r@ == self@.graph.nodes[n as int],
    {
        graph_node_weight(&self.graph, n)
    }

    /// The annotation of node `n`.
    pub fn annot(&self, n: NodeIdx) -> (r: &A)
        requires
            self@.wf(),
            n < self@.graph.nodes.len(),
        ensures
            *r == self@.annots[n as int],
    {
        &self.annots[n]
    }

    /// The source, the target and the label of the edge that was added as
    /// the `i`-th.
    pub fn edge(&self, i: usize) -> (r: (NodeIdx, NodeIdx, Edge))
        requires
            self@.wf(),
            i < self@.graph.edges.len(),
        ensures
            r.0 == self@.graph.edges[i as int].source,
            r.1 == self@.graph.edges[i as int].target,
            r.2 == self@.graph.edges[i as int].label,
    {
        let ends = graph_edge_endpoints(&self.graph, i);
        let label = graph_edge_weight(&self.graph, i);
        match (ends, label) {
            (Some((a, b)), Some(l)) => (a, b, l),
            _ => {
                proof {
                    assert(false);
                }
                (0, 0, Edge::Plain)
            },
        }
    }

    /// Replaces the annotation of node `n`.
    pub fn set_annot(&mut self, n: NodeIdx, annot: A)
        requires
            old(self).wf(),
            n < old(self)@.graph.nodes.len(),
        ensures
            final(self).wf(),
            final(self)@.graph == old(self)@.graph,
            final(self)@.annots == old(self)@.annots.update(n as int, annot),
            final(self)@.init == old(self)@.init,
    {
        self.annots[n] = annot;
    }

    /// The graph with the same nodes and edges, and with the annotation
    /// that `f` makes of the annotation of each node.
    pub fn map<B, F>(&self, f: F) -> (r: Cfg<B>) where F: Fn(&A) -> B
        requires
            self.wf(),
            forall|a: &A| call_requires(f, (a,)),
        ensures
            r.wf(),
            r@.graph == self@.graph,
            r@.init == self@.init,
            r@.annots.len() == self@.annots.len(),
            forall|i: int|
                0 <= i < self@.annots.len() ==> call_ensures(f, (&self@.annots[i],), #[trigger] r@.annots[i]),
    {
        let graph = graph_clone(&self.graph);
        proof {
            assert(node_views(graph_nodes(graph)) =~= node_views(graph_nodes(self.graph)));
        }
        let mut annots: Vec<B> = Vec::new();
        let mut i: usize = 0;
        while i < self.annots.len()
            invariant
                i <= self.annots.len(),
                annots@.len() == i,
                forall|a: &A| call_requires(f, (a,)),
                forall|j: int| 0 <= j < i ==> call_ensures(f, (&self.annots@[j],), #[trigger] annots@[j]),
            decreases self.annots.len() - i,
        {
            let b = f(&self.annots[i]);
            annots.push(b);
            i += 1;
        }
        Cfg { graph, annots, init: self.init }
    }

    /// The predecessors of node `n`, one for each edge that enters it, the
    /// newest edge first; `None` if no edge enters it, as is the case where
    /// `n` is no node of the graph.
    pub fn predecessors(&self, n: NodeIdx) -> (r: Option<Vec1<NodeIdx>>)
        requires
            self.wf(),
        ensures
            n >= self@.graph.nodes.len() ==> r is None,
            match r {
                Some(v) => vec1_items(v).len() > 0 && vec1_items(v).map_values(|i: usize| i as int) == neighbors(
                    self@.graph.edges,
                    n as int,
                    Direction::Incoming,
                ),
                None => neighbors(self@.graph.edges, n as int, Direction::Incoming).len() == 0,
            },
    {
        if n >= graph_node_count(&self.graph) {
            proof {
                lemma_no_neighbors(self@.graph, n as int, Direction::Incoming);
            }
            return None;
        }
        let predecs_vec = graph_neighbors(&self.graph, n, Direction::Incoming);
        vec1_try_from_vec(predecs_vec)
    }

    /// The successors of node `n`, one for each edge that leaves it, the
    /// newest edge first; none where `n` is no node of the graph.
    pub fn successors(&self, n: NodeIdx) -> (r: Vec<NodeIdx>)
        requires
            self.wf(),
        ensures
            r@.map_values(|i: usize| i as int) == neighbors(self@.graph.edges, n as int, Direction::Outgoing),
            n >= self@.graph.nodes.len() ==> r@.len() == 0,
    {
        if n >= graph_node_count(&self.graph) {
            let r: Vec<NodeIdx> = Vec::new();
            proof {
                lemma_no_neighbors(self@.graph, n as int, Direction::Outgoing);
                assert(r@.map_values(|i: usize| i as int) =~= Seq::<int>::empty());
            }
            return r;
        }
        graph_neighbors(&self.graph, n, Direction::Outgoing)
    }

    /// Adds a node with its annotation and returns its index.
    pub fn add_node(&mut self, node: Node, annot: A) -> (n: NodeIdx)
        requires
            old(self).wf(),
            old(self)@.graph.nodes.len() < u32::MAX,
        ensures
            final(self).wf(),
            n == old(self)@.graph.nodes.len(),
            final(self)@.graph == old(self)@.graph.with_node(node@),
            final(self)@.annots == old(self)@.annots.push(annot),
            final(self)@.init == old(self)@.init,
    {
        let n = graph_add_node(&mut self.graph, node);
        self.annots.push(annot);
        proof {
            assert(node_views(graph_nodes(self.graph)) =~= node_views(graph_nodes(old(self).graph)).push(node@));
        }
        n
    }

    /// Adds an edge from `a` to `b` with the label `label`.
    pub fn add_edge(&mut self, a: NodeIdx, b: NodeIdx, label: Edge)
        requires
            old(self).wf(),
            a < old(self)@.graph.nodes.len(),
            b < old(self)@.graph.nodes.len(),
            old(self)@.graph.edges.len() < u32::MAX,
        ensures
            final(self).wf(),
            final(self)@.graph == old(self)@.graph.with_edge(a as int, b as int, label),
            final(self)@.annots == old(self)@.annots,
            final(self)@.init == old(self)@.init,
    {
        graph_add_edge(&mut self.graph, a, b, label);
    }
}

/// A loose end: an edge whose source and label are fixed and whose target
/// is not known yet.
#[derive(Debug, Clone, Copy)]
pub struct UntargEdge(pub NodeIdx, pub Edge);

/// The mathematical value of a loose end.
pub struct LooseEnd {
    pub source: int,
    pub label: Edge,
}

impl View for UntargEdge {
    type V = LooseEnd;

    open spec fn view(&self) -> LooseEnd {
        LooseEnd { source: self.0 as int, label: self.1 }
    }
}

/// The values of a sequence of loose ends.
pub open spec fn ends_view(ends: Seq<UntargEdge>) -> Seq<LooseEnd> {
    ends.map_values(|e: UntargEdge| e@)
}

/// The edges that join every loose end of `ends`, in order, to `target`.
pub open spec fn wiring(ends: Seq<LooseEnd>, target: int) -> Seq<FlowEdge> {
    ends.map_values(|e: LooseEnd| FlowEdge { source: e.source, target, label: e.label })
}

/// The graph `g` after every loose end of `ends` was joined to `target`.
pub open spec fn wire(g: GraphView, ends: Seq<LooseEnd>, target: int) -> GraphView {
    GraphView { nodes: g.nodes, edges: g.edges + wiring(ends, target) }
}

/// Lowering of one statement into the graph `g` whose loose ends are
/// `ends`: the grown graph and the loose ends that the statement leaves.
///
/// A statement becomes one node, to which all of `ends` are joined. `Skip`
/// and `Assign` leave that node with a plain end. A conditional lowers its
/// first branch from the node's `True` end and its second from the `False`
/// end, and leaves the ends of both. A loop lowers its body from the `True`
/// end, joins what the body leaves back to the node, and leaves the node's
/// `False` end.
pub open spec fn lower_atom(g: GraphView, ends: Seq<LooseEnd>, a: AtomView) -> (GraphView, Seq<LooseEnd>)
    decreases a,
{
    let s = g.nodes.len() as int;
    match a {
        AtomView::Skip => (
            wire(g.with_node(NodeView::Skip), ends, s),
            seq![LooseEnd { source: s, label: Edge::Plain }],
        ),
        AtomView::Assign(x, e) => (
            wire(g.with_node(NodeView::Assign(x, e)), ends, s),
            seq![LooseEnd { source: s, label: Edge::Plain }],
        ),
        AtomView::Cond(b, p, q) => {
            let g1 = wire(g.with_node(NodeView::Branch(b)), ends, s);
            let (g2, ends_p) = lower_prog(g1, seq![LooseEnd { source: s, label: Edge::True }], p);
            let (g3, ends_q) = lower_prog(g2, seq![LooseEnd { source: s, label: Edge::False }], q);
            (g3, ends_p + ends_q)
        },
        AtomView::While(b, p) => {
            let g1 = wire(g.with_node(NodeView::Branch(b)), ends, s);
            let (g2, ends_p) = lower_prog(g1, seq![LooseEnd { source: s, label: Edge::True }], p);
            (wire(g2, ends_p, s), seq![LooseEnd { source: s, label: Edge::False }])
        },
    }
}

/// Lowering of a sequence of statements: each is lowered from the loose
/// ends that the one before it left.
pub open spec fn lower_prog(g: GraphView, ends: Seq<LooseEnd>, p: Seq<AtomView>) -> (GraphView, Seq<LooseEnd>)
    decreases p,
{
    if p.len() == 0 {
        (g, ends)
    } else {
        let (g1, ends1) = lower_atom(g, ends, p[0]);
        lower_prog(g1, ends1, p.drop_first())
    }
}

/// The loose ends of `ends` that carry the outcome of a guard, in order.
pub open spec fn dangling(ends: Seq<LooseEnd>) -> Seq<LooseEnd>
    decreases ends.len(),
{
    if ends.len() == 0 {
        Seq::empty()
    } else if ends.last().label != Edge::Plain {
        dangling(ends.drop_last()).push(ends.last())
    } else {
        dangling(ends.drop_last())
    }
}

/// The graph with only the entry node.
pub open spec fn entry_graph() -> GraphView {
    GraphView { nodes: seq![NodeView::Init], edges: Seq::empty() }
}

/// The loose end of the entry node.
pub open spec fn entry_ends() -> Seq<LooseEnd> {
    seq![LooseEnd { source: 0, label: Edge::Plain }]
}

/// The loose ends that remain when the whole program `p` was lowered.
pub open spec fn final_ends(p: Seq<AtomView>) -> Seq<LooseEnd> {
    lower_prog(entry_graph(), entry_ends(), p).1
}

/// The control-flow graph of the program `p`: the entry node is node 0, the
/// program is lowered from its plain end, and the ends that remain with the
/// outcome of a guard are joined to one `Terminal` node, which exists only
/// if there is such an end. Plain ends that remain are dropped.
pub open spec fn lowered(p: Seq<AtomView>) -> GraphView {
    let (g, ends) = lower_prog(entry_graph(), entry_ends(), p);
    if dangling(ends).len() > 0 {
        wire(g.with_node(NodeView::Terminal), dangling(ends), g.nodes.len() as int)
    } else {
        g
    }
}

/// Every loose end of `ends` leaves a node of a graph with `n` nodes.
pub open spec fn ends_in_range(ends: Seq<LooseEnd>, n: nat) -> bool {
    forall|i: int| 0 <= i < ends.len() ==> 0 <= (#[trigger] ends[i]).source < n
}

/// A program is small enough for its graph to be addressed with indices
/// of 32 bits: every statement becomes one node, and a node has at most
/// two outgoing edges.
pub open spec fn fits(p: Seq<AtomView>) -> bool {
    2 * atom_count(p) + 2 <= u32::MAX
}

impl Cfg<RawAnnot> {
    /// Joins every loose end of `ends` to the node `target`.
    fn wire_all(&mut self, ends: &Vec<UntargEdge>, target: NodeIdx)
        requires
            old(self).wf(),
            target < old(self)@.graph.nodes.len(),
            ends_in_range(ends_view(ends@), old(self)@.graph.nodes.len()),
            old(self)@.graph.edges.len() + ends@.len() <= u32::MAX,
        ensures
            final(self).wf(),
            final(self)@.graph == wire(old(self)@.graph, ends_view(ends@), target as int),
            final(self)@.init == old(self)@.init,
    {
        let mut i: usize = 0;
        while i < ends.len()
            invariant
                i <= ends.len(),
                self.wf(),
                target < self@.graph.nodes.len(),
                ends_in_range(ends_view(ends@), self@.graph.nodes.len()),
                old(self)@.graph.edges.len() + ends@.len() <= u32::MAX,
                self@.graph == wire(old(self)@.graph, ends_view(ends@.take(i as int)), target as int),
                self@.init == old(self)@.init,
            decreases ends.len() - i,
        {
            let UntargEdge(t, e) = ends[i];
            assert(ends_view(ends@)[i as int].source == t);
            self.add_edge(t, target, e);
            proof {
                assert(ends@.take(i + 1) =~= ends@.take(i as int).push(ends@[i as int]));
                assert(wiring(ends_view(ends@.take(i + 1)), target as int) =~= wiring(
                    ends_view(ends@.take(i as int)),
                    target as int,
                ).push(FlowEdge { source: t as int, target: target as int, label: e }));
                assert(self@.graph.edges =~= old(self)@.graph.edges + wiring(
                    ends_view(ends@.take(i + 1)),
                    target as int,
                ));
            }
            i += 1;
        }
        proof {
            assert(ends@.take(i as int) =~= ends@);
        }
    }
}

/// The statements of `p` from position `i` on are those of the rest after
/// the statement at `i`, and that statement.
proof fn lemma_skip_step(p: Seq<AtomView>, i: int)
    requires
        0 <= i < p.len(),
    ensures
        p.skip(i).len() > 0,
        p.skip(i)[0] == p[i],
        p.skip(i).drop_first() == p.skip(i + 1),
        atom_count(p.skip(i)) == atom_size(p[i]) + atom_count(p.skip(i + 1)),
{
    assert(p.skip(i).drop_first() =~= p.skip(i + 1));
}

/// A vector with the one loose end `(n, label)`.
fn single_end(n: NodeIdx, label: Edge) -> (r: Vec<UntargEdge>)
    ensures
        r@.len() == 1,
        ends_view(r@) == seq![LooseEnd { source: n as int, label }],
{
    let r = vec![UntargEdge(n, label)];
    assert(ends_view(r@) =~= seq![LooseEnd { source: n as int, label }]);
    r
}

/// Lowers the statements of `p` one after the other into `cfg`, starting
/// from the loose ends `untarg_edges`, and returns the loose ends that the
/// last one leaves.
fn ast_to_cfg_extend(cfg: &mut Cfg<RawAnnot>, untarg_edges: Vec<UntargEdge>, p: &Prog) -> (r: Vec<UntargEdge>)
    requires
        old(cfg).wf(),
        ends_in_range(ends_view(untarg_edges@), old(cfg)@.graph.nodes.len()),
        old(cfg)@.graph.nodes.len() + atom_count(p@) <= u32::MAX,
        old(cfg)@.graph.edges.len() + untarg_edges@.len() + 2 * atom_count(p@) <= u32::MAX,
    ensures
        final(cfg).wf(),
        (final(cfg)@.graph, ends_view(r@)) == lower_prog(old(cfg)@.graph, ends_view(untarg_edges@), p@),
        final(cfg)@.init == old(cfg)@.init,
        ends_in_range(ends_view(r@), final(cfg)@.graph.nodes.len()),
        final(cfg)@.graph.nodes.len() == old(cfg)@.graph.nodes.len() + atom_count(p@),
        final(cfg)@.graph.edges.len() + r@.len() <= old(cfg)@.graph.edges.len() + untarg_edges@.len() + 2
            * atom_count(p@),
    decreases p,
{
    let Prog::Prog(ps) = p;
    let mut untarg_edges_cur = untarg_edges;
    let mut i: usize = 0;
    proof {
        assert(p@.skip(0) =~= p@);
    }
    while i < ps.len()
        invariant
            i <= ps.len(),
            *p == Prog::Prog(*ps),
            cfg.wf(),
            ends_in_range(ends_view(untarg_edges_cur@), cfg@.graph.nodes.len()),
            cfg@.graph.nodes.len() + atom_count(p@.skip(i as int)) == old(cfg)@.graph.nodes.len() + atom_count(p@),
            cfg@.graph.edges.len() + untarg_edges_cur@.len() + 2 * atom_count(p@.skip(i as int)) <= old(
                cfg,
            )@.graph.edges.len() + untarg_edges@.len() + 2 * atom_count(p@),
            old(cfg)@.graph.nodes.len() + atom_count(p@) <= u32::MAX,
            old(cfg)@.graph.edges.len() + untarg_edges@.len() + 2 * atom_count(p@) <= u32::MAX,
            lower_prog(cfg@.graph, ends_view(untarg_edges_cur@), p@.skip(i as int)) == lower_prog(
                old(cfg)@.graph,
                ends_view(untarg_edges@),
                p@,
            ),
            cfg@.init == old(cfg)@.init,
        decreases ps.len() - i,
    {
        proof {
            lemma_skip_step(p@, i as int);
        }
        untarg_edges_cur = ast_atom_to_cfg_extend(cfg, untarg_edges_cur, &ps[i]);
        i += 1;
    }
    untarg_edges_cur
}

/// Lowers the statement `p` into `cfg`, starting from the loose ends
/// `untarg_edges`, and returns the loose ends that it leaves.
fn ast_atom_to_cfg_extend(cfg: &mut Cfg<RawAnnot>, untarg_edges: Vec<UntargEdge>, p: &ProgAtom) -> (r: Vec<
    UntargEdge,
>)
    requires
        old(cfg).wf(),
        ends_in_range(ends_view(untarg_edges@), old(cfg)@.graph.nodes.len()),
        old(cfg)@.graph.nodes.len() + atom_size(p@) <= u32::MAX,
        old(cfg)@.graph.edges.len() + untarg_edges@.len() + 2 * atom_size(p@) <= u32::MAX,
    ensures
        final(cfg).wf(),
        (final(cfg)@.graph, ends_view(r@)) == lower_atom(old(cfg)@.graph, ends_view(untarg_edges@), p@),
        final(cfg)@.init == old(cfg)@.init,
        ends_in_range(ends_view(r@), final(cfg)@.graph.nodes.len()),
        final(cfg)@.graph.nodes.len() == old(cfg)@.graph.nodes.len() + atom_size(p@),
        final(cfg)@.graph.edges.len() + r@.len() <= old(cfg)@.graph.edges.len() + untarg_edges@.len() + 2
            * atom_size(p@),
    decreases p,
{
    match p {
        ProgAtom::Skip => {
            let skip = cfg.add_node(Node::Skip, RawAnnot {  });
            cfg.wire_all(&untarg_edges, skip);
            single_end(skip, Edge::Plain)
        },
        ProgAtom::Assign(v, aexp) => {
            let assign = cfg.add_node(Node::Assign(v.clone(), Box::new((**aexp).clone())), RawAnnot {  });
            cfg.wire_all(&untarg_edges, assign);
            single_end(assign, Edge::Plain)
        },
        ProgAtom::Cond(bexp, p_tt, p_ff) => {
            let branch = cfg.add_node(Node::Branch(Box::new((**bexp).clone())), RawAnnot {  });
            cfg.wire_all(&untarg_edges, branch);
            let mut res = ast_to_cfg_extend(cfg, single_end(branch, Edge::True), p_tt);
            let mut node_false_untarg_edges = ast_to_cfg_extend(cfg, single_end(branch, Edge::False), p_ff);
            proof {
                assert(ends_view(res@ + node_false_untarg_edges@) =~= ends_view(res@) + ends_view(
                    node_false_untarg_edges@,
                ));
            }
            res.append(&mut node_false_untarg_edges);
            res
        },
        ProgAtom::While(bexp, p) => {
            let branch = cfg.add_node(Node::Branch(Box::new((**bexp).clone())), RawAnnot {  });
            cfg.wire_all(&untarg_edges, branch);
            let p_untarg_edges = ast_to_cfg_extend(cfg, single_end(branch, Edge::True), p);
            cfg.wire_all(&p_untarg_edges, branch);
            single_end(branch, Edge::False)
        },
    }
}

/// The loose ends of `ends` that carry the outcome of a guard.
fn relevant_ends(ends: &Vec<UntargEdge>) -> (r: Vec<UntargEdge>)
    ensures
        ends_view(r@) == dangling(ends_view(ends@)),
        r@.len() <= ends@.len(),
        forall|n: nat| ends_in_range(ends_view(ends@), n) ==> ends_in_range(ends_view(r@), n),
{
    let mut r: Vec<UntargEdge> = Vec::new();
    let mut i: usize = 0;
    assert(ends_view(ends@.take(0)) =~= Seq::<LooseEnd>::empty());
    assert(ends_view(r@) =~= Seq::<LooseEnd>::empty());
    while i < ends.len()
        invariant
            i <= ends.len(),
            ends_view(r@) == dangling(ends_view(ends@.take(i as int))),
            r@.len() <= i,
            forall|j: int| 0 <= j < r@.len() ==> exists|k: int| 0 <= k < i && ends@[k] == #[trigger] r@[j],
        decreases ends.len() - i,
    {
        proof {
            assert(ends_view(ends@.take(i + 1)).drop_last() =~= ends_view(ends@.take(i as int)));
            assert(ends_view(ends@.take(i + 1)).last() == ends@[i as int]@);
        }
        let UntargEdge(t, e) = ends[i];
        let ghost before = r@;
        if e != Edge::Plain {
            r.push(UntargEdge(t, e));
            assert(ends_view(r@) =~= ends_view(before).push(ends@[i as int]@));
            assert forall|j: int| 0 <= j < r@.len() implies exists|k: int| 0 <= k < i + 1 && ends@[k] == #[trigger] r@[j] by {
                if j < before.len() {
                    let k = choose|k: int| 0 <= k < i && ends@[k] == before[j];
                    assert(ends@[k] == r@[j]);
                } else {
                    assert(ends@[i as int] == r@[j]);
                }
            }
        } else {
            assert forall|j: int| 0 <= j < r@.len() implies exists|k: int| 0 <= k < i + 1 && ends@[k] == #[trigger] r@[j] by {
                let k = choose|k: int| 0 <= k < i && ends@[k] == before[j];
                assert(ends@[k] == r@[j]);
            }
        }
        i += 1;
    }
    proof {
        assert(ends@.take(i as int) =~= ends@);
        assert forall|n: nat| ends_in_range(ends_view(ends@), n) implies ends_in_range(ends_view(r@), n) by {
            assert forall|j: int| 0 <= j < r@.len() implies 0 <= (#[trigger] ends_view(r@)[j]).source < n by {
                let k = choose|k: int| 0 <= k < i && ends@[k] == r@[j];
                assert(ends_view(ends@)[k].source < n);
            }
        }
    }
    r
}

/// Adding a statement to the end of a part of a program adds its size.
proof fn lemma_count_take(p: Seq<AtomView>, i: int)
    requires
        0 <= i < p.len(),
    ensures
        atom_count(p.take(i + 1)) == atom_count(p.take(i)) + atom_size(p[i]),
    decreases i,
{
    let t = p.take(i + 1);
    if i == 0 {
        assert(t.drop_first() =~= Seq::<AtomView>::empty());
        assert(p.take(0) =~= Seq::<AtomView>::empty());
        assert(atom_count(t.drop_first()) == 0);
    } else {
        assert(t.drop_first() =~= p.drop_first().take(i));
        assert(p.take(i).drop_first() =~= p.drop_first().take(i - 1));
        lemma_count_take(p.drop_first(), i - 1);
        assert(p.drop_first()[i - 1] == p[i]);
    }
}

/// The number of statements in `p`, nested ones included, added to `acc`,
/// and no more than `cap`.
fn count_atoms(p: &Prog, acc: u64, cap: u64) -> (n: u64)
    requires
        acc <= cap,
        cap < 0x1_0000_0000,
    ensures
        n == if acc + atom_count(p@) <= cap {
            acc + atom_count(p@)
        } else {
            cap as int
        },
    decreases p,
{
    let Prog::Prog(ps) = p;
    let mut n = acc;
    let mut i: usize = 0;
    proof {
        assert(p@.take(0) =~= Seq::<AtomView>::empty());
    }
    while i < ps.len()
        invariant
            i <= ps.len(),
            *p == Prog::Prog(*ps),
            acc <= cap,
            cap < 0x1_0000_0000,
            n == if acc + atom_count(p@.take(i as int)) <= cap {
                acc + atom_count(p@.take(i as int))
            } else {
                cap as int
            },
        decreases ps.len() - i,
    {
        proof {
            lemma_count_take(p@, i as int);
        }
        n = match &ps[i] {
            ProgAtom::Skip => if n < cap {
                n + 1
            } else {
                cap
            },
            ProgAtom::Assign(_, _) => if n < cap {
                n + 1
            } else {
                cap
            },
            ProgAtom::Cond(_, p1, p2) => {
                let m = if n < cap {
                    n + 1
                } else {
                    cap
                };
                let m1 = count_atoms(p1, m, cap);
                count_atoms(p2, m1, cap)
            },
            ProgAtom::While(_, p1) => {
                let m = if n < cap {
                    n + 1
                } else {
                    cap
                };
                count_atoms(p1, m, cap)
            },
        };
        i += 1;
    }
    proof {
        assert(p@.take(i as int) =~= p@);
    }
    n
}

/// Whether the program is small enough for `ast_to_cfg`.
pub fn fits_cfg(p: &Prog) -> (r: bool)
    ensures
        r == fits(p@),
{
    count_atoms(p, 0, 0x7fff_ffff) <= 0x7fff_fffe
}

/// The control-flow graph of the program `p`, or `None` if the program is
/// too large for one.
pub fn try_ast_to_cfg(p: &Prog) -> (r: Option<Cfg<RawAnnot>>)
    ensures
        r is Some == fits(p@),
        r matches Some(cfg) ==> {
            &&& cfg.wf()
            &&& cfg@.graph == lowered(p@)
            &&& cfg@.init == 0
            &&& flow_invariants(cfg@.graph, 0)
            &&& has_preds(cfg@.graph, 0)
            &&& all_reachable(cfg@.graph, 0)
            &&& has_terminal(cfg@.graph) == open_prog(p@)
        },
{
    if fits_cfg(p) {
        Some(ast_to_cfg(p))
    } else {
        None
    }
}

/// The control-flow graph of the program `p`.
///
/// The entry node is node 0 and every statement becomes one node, in the
/// order in which the statements are written. Every node can be reached
/// from the entry. The result has a `Terminal` node exactly if an edge with
/// the outcome of a guard would otherwise lead nowhere, which is so
/// exactly if the program ends with a loop, or with a conditional of
/// which a branch is empty or ends so.
pub fn ast_to_cfg(p: &Prog) -> (cfg: Cfg<RawAnnot>)
    requires
        fits(p@),
    ensures
        cfg.wf(),
        cfg@.graph == lowered(p@),
        cfg@.init == 0,
        flow_invariants(cfg@.graph, 0),
        has_preds(cfg@.graph, 0),
        all_reachable(cfg@.graph, 0),
        has_terminal(cfg@.graph) == open_prog(p@),
{
    proof {
        lemma_lowered_invariants(p@);
        lemma_has_preds(lowered(p@), 0);
        lemma_terminal(p@);
        assert forall|n: int| 0 <= n < lowered(p@).nodes.len() implies #[trigger] reachable(lowered(p@), 0, n) by {
            lemma_lowered_reachable(p@, n);
        }
    }
    let mut g = graph_new();
    let node_init = graph_add_node(&mut g, Node::Init);
    let mut cfg = Cfg { graph: g, annots: vec![RawAnnot {  }], init: node_init };
    proof {
        assert(cfg@.graph.nodes =~= entry_graph().nodes);
        assert(cfg@.graph.edges =~= entry_graph().edges);
    }
    let terminals = ast_to_cfg_extend(&mut cfg, single_end(node_init, Edge::Plain), p);
    let terminals_relevant = relevant_ends(&terminals);
    if terminals_relevant.len() > 0 {
        let node_terminal = cfg.add_node(Node::Terminal, RawAnnot {  });
        cfg.wire_all(&terminals_relevant, node_terminal);
    }
    cfg
}

} // verus!
