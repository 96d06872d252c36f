//! What the fixed points of the two analyses say of the runs of a
//! control-flow graph.

use vstd::prelude::*;
use petgraph::Direction;
use crate::aexp::AExpView;
use crate::cfg::{CfgView, Edge, GraphView, NodeView, preds};
use crate::common::Name;
use crate::flow_analysis::avail_exp::{ExpSetLat, node_terms, universe};
use crate::flow_analysis::common::join_all;
use crate::flow_analysis::const_prop::{ConstLat, EnvView, MultiConstLat, entry_env, lemma_join_lookup,
    le_const};
use crate::flow_analysis::mfp::{MfpAnnot, all_le, entering, is_solution, least, lemma_inflow_monotone,
    node_solved, post_views, solved};
use crate::cfg::has_preds;
use crate::graph::{lemma_neighbors, links};
use crate::interpreter::{Memory, aexp_value, bexp_value, initial_memory, mem_lookup};

verus! {

/// Whether an edge leads from node `p` to node `n`.
pub open spec fn edge_between(g: GraphView, p: int, n: int) -> bool {
    exists|j: int| 0 <= j < g.edges.len() && (#[trigger] g.edges[j]).source == p && g.edges[j].target == n
}

/// A path through the graph: it starts at the entry, and an edge leads
/// from each of its nodes to the next.
pub open spec fn is_path(g: GraphView, init: int, path: Seq<int>) -> bool {
    &&& path.len() > 0
    &&& path[0] == init
    &&& forall|k: int| 0 <= k < path.len() ==> 0 <= #[trigger] path[k] < g.nodes.len()
    &&& forall|k: int| 0 <= k < path.len() - 1 ==> edge_between(g, #[trigger] path[k], path[k + 1])
}

/// Whether a node assigns to a variable that occurs in the expression `e`.
pub open spec fn kills(node: NodeView, e: AExpView) -> bool {
    node matches NodeView::Assign(x, _) && e.mentions(x)
}

/// A node from which an edge leads to `n` is among the predecessors of `n`,
/// and the value that leaves it among those that enter `n`.
proof fn lemma_entering<V>(g: GraphView, posts: Seq<V>, p: int, n: int)
    requires
        edge_between(g, p, n),
    ensures
        preds(g, n).contains(p),
        exists|i: int| 0 <= i < entering(g, posts, n).len() && preds(g, n)[i] == p && #[trigger] entering(g, posts, n)[i]
            == posts[p],
{
    let j = choose|j: int| 0 <= j < g.edges.len() && (#[trigger] g.edges[j]).source == p && g.edges[j].target == n;
    assert(links(g.edges[j], n, Direction::Incoming, p));
    lemma_neighbors(g.edges, n, Direction::Incoming, p);
    let i = choose|i: int| 0 <= i < preds(g, n).len() && preds(g, n)[i] == p;
    assert(entering(g, posts, n)[i] == posts[p]);
}

/// The join of sets of expressions is within each of them.
proof fn lemma_join_all_within(vs: Seq<Set<AExpView>>, i: int)
    requires
        0 <= i < vs.len(),
    ensures
        join_all::<ExpSetLat>(vs).subset_of(vs[i]),
    decreases vs.len(),
{
    if vs.len() > 1 {
        if i < vs.len() - 1 {
            lemma_join_all_within(vs.drop_last(), i);
        }
    }
}

/// Available expressions are sound: at a fixed point, an expression that
/// is available where a node is entered was computed by a node on every
/// path from the entry to that node, and no node on the path from there
/// on, that node included, assigns to a variable that occurs in the
/// expression.
pub proof fn lemma_available_sound(c: CfgView<MfpAnnot<ExpSetLat>>, path: Seq<int>, e: AExpView)
    requires
        c.wf(),
        solved::<ExpSetLat>(c),
        is_path(c.graph, c.init, path),
        c.annots[path.last()].pre@.contains(e),
    ensures
        exists|k: int|
            0 <= k < path.len() - 1 && node_terms(c.graph.nodes[#[trigger] path[k]]).contains(e) && forall|i: int|
                k <= i < path.len() - 1 ==> !kills(c.graph.nodes[#[trigger] path[i]], e),
    decreases path.len(),
{
    let g = c.graph;
    let n = path.last();
    assert(0 <= path[path.len() - 1] < g.nodes.len());
    if n == c.init {
        assert(c.annots[n].pre@ == Set::<AExpView>::empty());
    } else {
        assert(node_solved::<ExpSetLat>(g, c.annots, n));
        assert(path.len() >= 2);
        let p = path[path.len() - 2];
        assert(edge_between(g, path[path.len() - 2], path[path.len() - 2 + 1]));
        let posts = post_views(c.annots);
        lemma_entering(g, posts, p, n);
        let i = choose|i: int|
            0 <= i < entering(g, posts, n).len() && preds(g, n)[i] == p && #[trigger] entering(g, posts, n)[i]
                == posts[p];
        lemma_join_all_within(entering(g, posts, n), i);
        assert(0 <= path[path.len() - 2] < g.nodes.len());
        assert(posts[p] == c.annots[p].post@);
        assert(c.annots[p].post@.contains(e));
        let shorter = path.drop_last();
        assert(is_path(g, c.init, shorter)) by {
            assert forall|k: int| 0 <= k < shorter.len() implies 0 <= #[trigger] shorter[k] < g.nodes.len() by {
                assert(shorter[k] == path[k]);
            }
            assert forall|k: int| 0 <= k < shorter.len() - 1 implies edge_between(
                g,
                #[trigger] shorter[k],
                shorter[k + 1],
            ) by {
                assert(edge_between(g, path[k], path[k + 1]));
            }
        }
        if p == c.init {
            assert(c.annots[p].post@ == Set::<AExpView>::empty());
        } else {
            assert(node_solved::<ExpSetLat>(g, c.annots, p));
            assert(!kills(g.nodes[p], e));
            if node_terms(g.nodes[p]).contains(e) {
                let k = path.len() - 2;
                assert(node_terms(g.nodes[path[k]]).contains(e));
            } else {
                assert(c.annots[p].pre@.contains(e));
                lemma_available_sound(c, shorter, e);
                let k = choose|k: int|
                    0 <= k < shorter.len() - 1 && node_terms(g.nodes[#[trigger] shorter[k]]).contains(e)
                        && forall|i: int| k <= i < shorter.len() - 1 ==> !kills(g.nodes[#[trigger] shorter[i]], e);
                assert(node_terms(g.nodes[path[k]]).contains(e));
                assert forall|i: int| k <= i < path.len() - 1 implies !kills(g.nodes[#[trigger] path[i]], e) by {
                    if i < shorter.len() - 1 {
                        assert(!kills(g.nodes[shorter[i]], e));
                    }
                }
            }
        }
    }
}

/// The solver's available expressions are the greatest: where the values
/// `c` that leave the nodes are below those of every fixed point in the
/// order of the analysis, as they are after `mfp`, every fixed point `t`
/// of the same graph whose sets hold only expressions that the nodes
/// compute has, at every node, only expressions that are available in `c`
/// at that node, both where the node is entered and where it is left.
pub proof fn lemma_available_greatest(c: CfgView<MfpAnnot<ExpSetLat>>, t: Seq<MfpAnnot<ExpSetLat>>, n: int)
    requires
        c.wf(),
        has_preds(c.graph, c.init),
        solved::<ExpSetLat>(c),
        least::<ExpSetLat>(c.graph, c.init, c.annots),
        t.len() == c.graph.nodes.len(),
        forall|i: int| 0 <= i < t.len() ==> (#[trigger] t[i]).post@.subset_of(universe(c.graph.nodes)),
        solved::<ExpSetLat>(CfgView { graph: c.graph, annots: t, init: c.init }),
        0 <= n < c.graph.nodes.len(),
    ensures
        t[n].post@.subset_of(c.annots[n].post@),
        t[n].pre@.subset_of(c.annots[n].pre@),
{
    let g = c.graph;
    let pc = post_views(c.annots);
    let pt = post_views(t);
    let d = CfgView { graph: g, annots: t, init: c.init };
    assert forall|i: int| 0 <= i < pt.len() implies pt[i].subset_of(universe(g.nodes)) by {
        assert(t[i].post@.subset_of(universe(g.nodes)));
    }
    assert(is_solution::<ExpSetLat>(g, c.init, t));
    assert(all_le::<ExpSetLat>(pc, pt));
    assert(pt[n].subset_of(pc[n]));
    if n == c.init {
        assert(d.annots[d.init].pre@ == c.annots[c.init].pre@);
    } else {
        assert(node_solved::<ExpSetLat>(c.graph, c.annots, n));
        assert(node_solved::<ExpSetLat>(d.graph, d.annots, n));
        assert(preds(g, n).len() > 0);
        lemma_inflow_monotone::<ExpSetLat>(g, pc, pt, n);
    }
}

/// A state of a run of a control-flow graph: the node that is entered,
/// and the memory with which it is entered.
pub struct RunState {
    pub node: int,
    pub mem: Memory,
}

/// The memory with which a node is left when it is entered with `m`.
pub open spec fn effect(node: NodeView, m: Memory) -> Memory {
    match node {
        NodeView::Assign(x, a) => m.insert(x, aexp_value(a, m)),
        _ => m,
    }
}

/// Whether a run that enters a node with the memory `m` leaves it along an
/// edge with the label `label`: a guard is left along the edge with its
/// outcome, any other node along a plain edge.
pub open spec fn taken(node: NodeView, m: Memory, label: Edge) -> bool {
    match node {
        NodeView::Branch(b) => label == if bexp_value(b, m) {
            Edge::True
        } else {
            Edge::False
        },
        _ => label == Edge::Plain,
    }
}

/// Whether the state `t` can follow the state `s` in a run.
pub open spec fn steps_to(g: GraphView, s: RunState, t: RunState) -> bool {
    &&& t.mem == effect(g.nodes[s.node], s.mem)
    &&& exists|j: int|
        0 <= j < g.edges.len() && (#[trigger] g.edges[j]).source == s.node && g.edges[j].target == t.node
            && taken(g.nodes[s.node], s.mem, g.edges[j].label)
}

/// A run of the graph on the input `input`: it enters the entry with the
/// initial memory, and each state follows the one before it.
pub open spec fn is_run(g: GraphView, init: int, input: i32, run: Seq<RunState>) -> bool {
    &&& run.len() > 0
    &&& run[0] == (RunState { node: init, mem: initial_memory(input) })
    &&& forall|k: int| 0 <= k < run.len() ==> 0 <= (#[trigger] run[k]).node < g.nodes.len()
    &&& forall|k: int| 0 <= k < run.len() - 1 ==> steps_to(g, #[trigger] run[k], run[k + 1])
}

/// Whether the environment `e` describes the memory `m`: every variable
/// of which it knows a constant holds that constant, and it knows
/// something of every variable.
pub open spec fn describes(e: EnvView, m: Memory) -> bool {
    forall|v: Name|
        match #[trigger] e.lookup(v) {
            ConstLat::Top => true,
            ConstLat::Const(c) => mem_lookup(m, v) == c,
            ConstLat::Bot => false,
        }
}

/// The abstract value of an expression in an environment describes its
/// value in every memory that the environment describes.
proof fn lemma_eval_sound(e: EnvView, m: Memory, a: AExpView)
    requires
        describes(e, m),
    ensures
        match e.eval(a) {
            ConstLat::Top => true,
            ConstLat::Const(c) => aexp_value(a, m) == c,
            ConstLat::Bot => false,
        },
    decreases a,
{
    match a {
        AExpView::Num(_) => {},
        AExpView::Var(x) => {
            assert(e.lookup(x) == e.eval(a));
        },
        AExpView::Add(l, r) => {
            lemma_eval_sound(e, m, *l);
            lemma_eval_sound(e, m, *r);
        },
        AExpView::Mul(l, r) => {
            lemma_eval_sound(e, m, *l);
            lemma_eval_sound(e, m, *r);
        },
    }
}

/// The join of environments knows of every variable no more than each of
/// them.
proof fn lemma_join_all_above(vs: Seq<EnvView>, i: int, v: Name)
    requires
        0 <= i < vs.len(),
    ensures
        le_const(vs[i].lookup(v), join_all::<MultiConstLat>(vs).lookup(v)),
    decreases vs.len(),
{
    if vs.len() > 1 {
        lemma_join_lookup(join_all::<MultiConstLat>(vs.drop_last()), vs.last(), v);
        if i < vs.len() - 1 {
            lemma_join_all_above(vs.drop_last(), i, v);
        }
    }
}

/// Constant propagation is sound: at a fixed point on a graph whose entry
/// is an `Init` node that no edge enters, the environment that enters a
/// node describes the memory of every state of every run that enters the
/// node. So a variable
/// that the environment maps to a constant holds that constant there.
pub proof fn lemma_constants_sound(c: CfgView<MfpAnnot<MultiConstLat>>, input: i32, run: Seq<RunState>, k: int)
    requires
        c.wf(),
        solved::<MultiConstLat>(c),
        c.graph.nodes[c.init] == NodeView::Init,
        forall|j: int| 0 <= j < c.graph.edges.len() ==> (#[trigger] c.graph.edges[j]).target != c.init,
        is_run(c.graph, c.init, input, run),
        0 <= k < run.len(),
    ensures
        describes(c.annots[run[k].node].pre@, run[k].mem),
        forall|v: Name|
            (#[trigger] c.annots[run[k].node].pre@.lookup(v)) matches ConstLat::Const(n) ==> mem_lookup(
                run[k].mem,
                v,
            ) == n,
    decreases k,
{
    let g = c.graph;
    if k == 0 {
        assert(run[0].node == c.init);
        let e = c.annots[c.init].pre@;
        let m = initial_memory(input);
        assert(e == entry_env());
        assert forall|v: Name|
            match #[trigger] e.lookup(v) {
                ConstLat::Top => true,
                ConstLat::Const(n) => mem_lookup(m, v) == n,
                ConstLat::Bot => false,
            } by {
            if v == "x"@ {
                assert(e.map.contains_key(v));
            } else {
                assert(!e.map.contains_key(v));
                assert(!m.contains_key(v));
            }
        }
    } else {
        lemma_constants_sound(c, input, run, k - 1);
        let s = run[k - 1];
        let t = run[k];
        assert(steps_to(g, run[k - 1], run[k - 1 + 1]));
        assert(0 <= run[k - 1].node < g.nodes.len());
        assert(0 <= run[k].node < g.nodes.len());
        let pre_s = c.annots[s.node].pre@;
        let post_s = c.annots[s.node].post@;
        assert(describes(post_s, t.mem)) by {
            if s.node == c.init {
                assert(post_s == pre_s);
            } else {
                assert(node_solved::<MultiConstLat>(g, c.annots, s.node));
                match g.nodes[s.node] {
                    NodeView::Assign(x, a) => {
                        lemma_eval_sound(pre_s, s.mem, a);
                        assert forall|v: Name|
                            match #[trigger] post_s.lookup(v) {
                                ConstLat::Top => true,
                                ConstLat::Const(n) => mem_lookup(t.mem, v) == n,
                                ConstLat::Bot => false,
                            } by {
                            if v != x {
                                assert(post_s.lookup(v) == pre_s.lookup(v));
                            }
                        }
                    },
                    _ => {},
                }
            }
        }
        let j = choose|j: int|
            0 <= j < g.edges.len() && (#[trigger] g.edges[j]).source == s.node && g.edges[j].target == t.node
                && taken(g.nodes[s.node], s.mem, g.edges[j].label);
        assert(t.node != c.init);
        assert(node_solved::<MultiConstLat>(g, c.annots, t.node));
        assert(edge_between(g, s.node, t.node));
        let posts = post_views(c.annots);
        lemma_entering(g, posts, s.node, t.node);
        let i = choose|i: int|
            0 <= i < entering(g, posts, t.node).len() && preds(g, t.node)[i] == s.node && #[trigger] entering(
                g,
                posts,
                t.node,
            )[i] == posts[s.node];
        let pre_t = c.annots[t.node].pre@;
        assert(posts[s.node] == post_s);
        assert forall|v: Name|
            match #[trigger] pre_t.lookup(v) {
                ConstLat::Top => true,
                ConstLat::Const(n) => mem_lookup(t.mem, v) == n,
                ConstLat::Bot => false,
            } by {
            lemma_join_all_above(entering(g, posts, t.node), i, v);
            assert(le_const(post_s.lookup(v), pre_t.lookup(v)));
            let w = post_s.lookup(v);
        }
    }
}

/// The nodes that the states of a run enter.
pub open spec fn nodes_of(run: Seq<RunState>) -> Seq<int> {
    run.map_values(|s: RunState| s.node)
}

/// The nodes of the start of a run are a path through the graph.
proof fn lemma_run_path(g: GraphView, init: int, input: i32, run: Seq<RunState>, k: int)
    requires
        is_run(g, init, input, run),
        0 <= k < run.len(),
    ensures
        is_path(g, init, nodes_of(run.take(k + 1))),
        nodes_of(run.take(k + 1)).len() == k + 1,
        forall|i: int| 0 <= i <= k ==> #[trigger] nodes_of(run.take(k + 1))[i] == run[i].node,
{
    let path = nodes_of(run.take(k + 1));
    assert forall|i: int| 0 <= i < path.len() implies 0 <= #[trigger] path[i] < g.nodes.len() by {
        assert(path[i] == run[i].node);
    }
    assert forall|i: int| 0 <= i < path.len() - 1 implies edge_between(g, #[trigger] path[i], path[i + 1]) by {
        assert(steps_to(g, run[i], run[i + 1]));
        assert(path[i] == run[i].node && path[i + 1] == run[i + 1].node);
    }
}

/// Writing to a variable that does not occur in an expression does not
/// change the value of the expression.
proof fn lemma_value_kept(e: AExpView, x: Name, v: i32, m: Memory)
    requires
        !e.mentions(x),
    ensures
        aexp_value(e, m.insert(x, v)) == aexp_value(e, m),
    decreases e,
{
    match e {
        AExpView::Num(_) => {},
        AExpView::Var(y) => {},
        AExpView::Add(l, r) => {
            lemma_value_kept(*l, x, v, m);
            lemma_value_kept(*r, x, v, m);
        },
        AExpView::Mul(l, r) => {
            lemma_value_kept(*l, x, v, m);
            lemma_value_kept(*r, x, v, m);
        },
    }
}

/// The value of an expression stays the same along a run as long as no
/// node assigns to a variable that occurs in it.
proof fn lemma_values_along(g: GraphView, init: int, input: i32, run: Seq<RunState>, e: AExpView, j: int, k: int)
    requires
        is_run(g, init, input, run),
        0 <= j <= k < run.len(),
        forall|i: int| j <= i < k ==> !kills(g.nodes[(#[trigger] run[i]).node], e),
    ensures
        aexp_value(e, run[j].mem) == aexp_value(e, run[k].mem),
    decreases k - j,
{
    if j < k {
        lemma_values_along(g, init, input, run, e, j, k - 1);
        assert(steps_to(g, run[k - 1], run[k - 1 + 1]));
        assert(!kills(g.nodes[run[k - 1].node], e));
        if let NodeView::Assign(x, a) = g.nodes[run[k - 1].node] {
            lemma_value_kept(e, x, aexp_value(a, run[k - 1].mem), run[k - 1].mem);
        }
    }
}

/// Available expressions are sound on every run: at a fixed point, an
/// expression that is available where a state of a run enters a node was
/// computed by the node of an earlier state of the run, and has the same
/// value in both states.
pub proof fn lemma_available_on_run(
    c: CfgView<MfpAnnot<ExpSetLat>>,
    input: i32,
    run: Seq<RunState>,
    k: int,
    e: AExpView,
)
    requires
        c.wf(),
        solved::<ExpSetLat>(c),
        is_run(c.graph, c.init, input, run),
        0 <= k < run.len(),
        c.annots[run[k].node].pre@.contains(e),
    ensures
        exists|j: int|
            0 <= j < k && node_terms(c.graph.nodes[(#[trigger] run[j]).node]).contains(e) && aexp_value(
                e,
                run[j].mem,
            ) == aexp_value(e, run[k].mem),
{
    let g = c.graph;
    let path = nodes_of(run.take(k + 1));
    lemma_run_path(g, c.init, input, run, k);
    assert(path.last() == run[k].node);
    lemma_available_sound(c, path, e);
    let j = choose|j: int|
        0 <= j < path.len() - 1 && node_terms(g.nodes[#[trigger] path[j]]).contains(e) && forall|i: int|
            j <= i < path.len() - 1 ==> !kills(g.nodes[#[trigger] path[i]], e);
    assert forall|i: int| j <= i < k implies !kills(g.nodes[(#[trigger] run[i]).node], e) by {
        assert(path[i] == run[i].node);
        assert(!kills(g.nodes[path[i]], e));
    }
    lemma_values_along(g, c.init, input, run, e, j, k);
    assert(path[j] == run[j].node);
}

} // verus!
