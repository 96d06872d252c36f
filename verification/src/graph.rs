use vstd::prelude::*;
use petgraph::graph::{Graph, NodeIndex, EdgeIndex};
use petgraph::{Directed, Direction};
use crate::cfg::{Edge, Node};
use vec1::Vec1;

verus! {

/// `Graph` of petgraph: a graph of which nothing is known but what the
/// functions below say.
#[verifier::external_type_specification]
#[verifier::external_body]
#[verifier::reject_recursive_types(N)]
#[verifier::reject_recursive_types(E)]
#[verifier::reject_recursive_types(Ty)]
#[verifier::reject_recursive_types(Ix)]
pub struct ExGraph<N, E, Ty, Ix>(Graph<N, E, Ty, Ix>);

/// `Directed` of petgraph: the marker of graphs with directed edges.
#[verifier::external_type_specification]
#[verifier::external_body]
pub struct ExDirected(Directed);

/// `Direction` of petgraph: `Outgoing` or `Incoming`.
#[verifier::external_type_specification]
pub struct ExDirection(Direction);

/// `Vec1` of vec1: a vector that is never empty, of which nothing is known
/// but what the functions below say.
#[verifier::external_type_specification]
#[verifier::external_body]
#[verifier::reject_recursive_types(T)]
pub struct ExVec1<T>(Vec1<T>);

/// The elements of a vector that is never empty, in order.
pub uninterp spec fn vec1_items(v: Vec1<usize>) -> Seq<usize>;

/// `Vec1::try_from_vec` of vec1: the vector with the same elements, or
/// nothing if there is no element.
#[verifier::external_body]
pub(crate) fn vec1_try_from_vec(v: Vec<usize>) -> (r: Option<Vec1<usize>>)
    ensures
        match r {
            Some(w) => v@.len() > 0 && vec1_items(w) == v@,
            None => v@.len() == 0,
        },
{
    match Vec1::try_from_vec(v) {
        Ok(w) => Some(w),
        Err(_) => None,
    }
}

/// `Vec1::as_vec` of vec1: the elements as an ordinary vector, of which
/// there is at least one.
#[verifier::external_body]
pub(crate) fn vec1_as_vec(v: &Vec1<usize>) -> (r: &Vec<usize>)
    ensures
        r@ == vec1_items(*v),
        r@.len() >= 1,
{
    v.as_vec()
}

/// An edge of a graph: the positions of its two ends and its label.
pub struct FlowEdge {
    pub source: int,
    pub target: int,
    pub label: Edge,
}

/// `Graph::clone` of petgraph: a graph with the same nodes and edges under
/// the same indices.
#[verifier::external_body]
pub(crate) fn graph_clone(g: &FlowGraph) -> (r: FlowGraph)
    ensures
        graph_nodes(r).len() == graph_nodes(*g).len(),
        forall|i: int| 0 <= i < graph_nodes(*g).len() ==> cloned(graph_nodes(*g)[i], #[trigger] graph_nodes(r)[i]),
        graph_edges(r) == graph_edges(*g),
        graph_history(r) == graph_history(*g),
{
    g.clone()
}

/// The graph in which a control-flow graph keeps its nodes and edges.
pub type FlowGraph = Graph<Node, Edge, Directed, u32>;

/// The node weights of a graph, by node index.
pub uninterp spec fn graph_nodes(g: FlowGraph) -> Seq<Node>;

/// The edges of a graph, by edge index.
pub uninterp spec fn graph_edges(g: FlowGraph) -> Seq<FlowEdge>;

/// The edges of a graph in the order in which they were added to it.
pub uninterp spec fn graph_history(g: FlowGraph) -> Seq<FlowEdge>;

/// The neighbours of node `n` along edges that leave it (`Outgoing`) or
/// enter it (`Incoming`), where `edges` are the edges in the order of
/// their addition: one for each such edge, the newest edge first.
pub open spec fn neighbors(edges: Seq<FlowEdge>, n: int, dir: Direction) -> Seq<int>
    decreases edges.len(),
{
    if edges.len() == 0 {
        Seq::empty()
    } else {
        let e = edges.last();
        let rest = neighbors(edges.drop_last(), n, dir);
        match dir {
            Direction::Outgoing => if e.source == n { seq![e.target] + rest } else { rest },
            Direction::Incoming => if e.target == n { seq![e.source] + rest } else { rest },
        }
    }
}

/// `Graph::new` of petgraph: a directed graph without nodes and edges.
#[verifier::external_body]
pub(crate) fn graph_new() -> (g: FlowGraph)
    ensures
        graph_nodes(g) == Seq::<Node>::empty(),
        graph_edges(g) == Seq::<FlowEdge>::empty(),
        graph_history(g) == Seq::<FlowEdge>::empty(),
{
    Graph::new()
}

/// `Graph::node_count` of petgraph: the number of nodes.
#[verifier::external_body]
pub(crate) fn graph_node_count(g: &FlowGraph) -> (n: usize)
    ensures
        n == graph_nodes(*g).len(),
{
    g.node_count()
}

/// `Graph::edge_count` of petgraph: the number of edges.
#[verifier::external_body]
pub(crate) fn graph_edge_count(g: &FlowGraph) -> (n: usize)
    ensures
        n == graph_edges(*g).len(),
{
    g.edge_count()
}

/// `Graph::add_node` of petgraph: the node is appended with the next free
/// index, which is returned, and the edges stay. It panics when the index
/// would not fit, which the precondition excludes.
#[verifier::external_body]
pub(crate) fn graph_add_node(g: &mut FlowGraph, weight: Node) -> (n: usize)
    requires
        graph_nodes(*old(g)).len() < u32::MAX,
    ensures
        graph_nodes(*final(g)) == graph_nodes(*old(g)).push(weight),
        graph_edges(*final(g)) == graph_edges(*old(g)),
        graph_history(*final(g)) == graph_history(*old(g)),
        n == graph_nodes(*old(g)).len(),
{
    g.add_node(weight).index()
}

/// `Graph::add_edge` of petgraph: the edge from `a` to `b` is appended
/// with the next free index, parallel edges allowed, and the nodes stay. It panics when an end does
/// not exist or the edge index would not fit, which the precondition
/// excludes.
#[verifier::external_body]
pub(crate) fn graph_add_edge(g: &mut FlowGraph, a: usize, b: usize, weight: Edge)
    requires
        a < graph_nodes(*old(g)).len(),
        b < graph_nodes(*old(g)).len(),
        graph_nodes(*old(g)).len() <= u32::MAX,
        graph_edges(*old(g)).len() < u32::MAX,
    ensures
        graph_nodes(*final(g)) == graph_nodes(*old(g)),
        graph_edges(*final(g)) == graph_edges(*old(g)).push(
            FlowEdge { source: a as int, target: b as int, label: weight },
        ),
        graph_history(*final(g)) == graph_history(*old(g)).push(
            FlowEdge { source: a as int, target: b as int, label: weight },
        ),
{
    g.add_edge(NodeIndex::new(a), NodeIndex::new(b), weight);
}

/// Indexing a petgraph `Graph` by a node index: the node's weight. It
/// panics when the node does not exist, which the precondition excludes.
#[verifier::external_body]
pub(crate) fn graph_node_weight(g: &FlowGraph, n: usize) -> (w: &Node)
    requires
        n < graph_nodes(*g).len(),
        graph_nodes(*g).len() <= u32::MAX,
    ensures
        *w == graph_nodes(*g)[n as int],
{
    &g[NodeIndex::new(n)]
}

/// `Graph::edge_endpoints` of petgraph: the source and the target of the
/// edge with the index `i`, or nothing if there is no such edge.
#[verifier::external_body]
pub(crate) fn graph_edge_endpoints(g: &FlowGraph, i: usize) -> (r: Option<(usize, usize)>)
    requires
        i <= u32::MAX,
    ensures
        match r {
            Some((a, b)) => i < graph_edges(*g).len() && a == graph_edges(*g)[i as int].source && b
                == graph_edges(*g)[i as int].target,
            None => i >= graph_edges(*g).len(),
        },
{
    match g.edge_endpoints(EdgeIndex::new(i)) {
        Some((a, b)) => Some((a.index(), b.index())),
        None => None,
    }
}

/// `Graph::edge_weight` of petgraph: the label of the edge with the index
/// `i`, or nothing if there is no such edge.
#[verifier::external_body]
pub(crate) fn graph_edge_weight(g: &FlowGraph, i: usize) -> (r: Option<Edge>)
    requires
        i <= u32::MAX,
    ensures
        match r {
            Some(l) => i < graph_edges(*g).len() && l == graph_edges(*g)[i as int].label,
            None => i >= graph_edges(*g).len(),
        },
{
    match g.edge_weight(EdgeIndex::new(i)) {
        Some(l) => Some(*l),
        None => None,
    }
}

/// `Graph::neighbors_directed` of petgraph on a directed graph: the
/// neighbours of `n` in direction `dir`, one for each edge, the most
/// recently added edge's neighbour first.
#[verifier::external_body]
pub(crate) fn graph_neighbors(g: &FlowGraph, n: usize, dir: Direction) -> (r: Vec<usize>)
    requires
        graph_nodes(*g).len() <= u32::MAX,
        n < graph_nodes(*g).len(),
    ensures
        r@.map_values(|i: usize| i as int) == neighbors(graph_history(*g), n as int, dir),
{
    g.neighbors_directed(NodeIndex::new(n), dir).map(|i| i.index()).collect()
}

/// Whether the edge `e` joins the node `n` to its neighbour `m` in the
/// direction `dir`.
pub open spec fn links(e: FlowEdge, n: int, dir: Direction, m: int) -> bool {
    match dir {
        Direction::Outgoing => e.source == n && e.target == m,
        Direction::Incoming => e.target == n && e.source == m,
    }
}

/// Every neighbour is the other end of an edge at the node.
pub(crate) proof fn lemma_neighbors(edges: Seq<FlowEdge>, n: int, dir: Direction, m: int)
    ensures
        neighbors(edges, n, dir).contains(m) <==> exists|j: int|
            0 <= j < edges.len() && links(#[trigger] edges[j], n, dir, m),
    decreases edges.len(),
{
    if edges.len() > 0 {
        let e = edges.last();
        let all = neighbors(edges, n, dir);
        let rest = neighbors(edges.drop_last(), n, dir);
        lemma_neighbors(edges.drop_last(), n, dir, m);
        let hit = match dir {
            Direction::Outgoing => e.source == n,
            Direction::Incoming => e.target == n,
        };
        if all.contains(m) {
            let i = choose|i: int| 0 <= i < all.len() && all[i] == m;
            if hit && i == 0 {
                assert(links(edges[edges.len() - 1], n, dir, m));
            } else {
                if hit {
                    assert(rest[i - 1] == m);
                } else {
                    assert(rest[i] == m);
                }
                assert(rest.contains(m));
                let j = choose|j: int|
                    0 <= j < edges.drop_last().len() && links(#[trigger] edges.drop_last()[j], n, dir, m);
                assert(links(edges[j], n, dir, m));
            }
        }
        if exists|j: int| 0 <= j < edges.len() && links(#[trigger] edges[j], n, dir, m) {
            let j = choose|j: int| 0 <= j < edges.len() && links(#[trigger] edges[j], n, dir, m);
            if j == edges.len() - 1 {
                assert(all[0] == m);
            } else {
                assert(links(edges.drop_last()[j], n, dir, m));
                assert(rest.contains(m));
                let i = choose|i: int| 0 <= i < rest.len() && rest[i] == m;
                if hit {
                    assert(all[i + 1] == m);
                } else {
                    assert(all[i] == m);
                }
            }
        }
    }
}

} // verus!
