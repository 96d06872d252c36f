//! Every node of the control-flow graph of a program can be reached from
//! the entry, and when the graph has a terminal.

use vstd::prelude::*;
use crate::ast::AtomView;
use crate::cfg::{Edge, GraphView, LooseEnd, NodeView, dangling, ends_in_range, entry_ends, entry_graph, final_ends,
    lower_atom, lower_prog, lowered, wire, wiring};
use crate::flow_analysis::soundness::{edge_between, is_path};
use crate::graph::FlowEdge;
use crate::simulation::{enters, extends, has_edge, lemma_extends_trans, lemma_lowering_atom,
    lemma_wire};
use crate::well_formed::{lemma_dangling, lemma_lowered_invariants};

verus! {

/// Whether an edge enters node `n` from a node with a smaller index.
pub open spec fn has_earlier_pred(edges: Seq<FlowEdge>, n: int) -> bool {
    exists|j: int| 0 <= j < edges.len() && (#[trigger] edges[j]).target == n && 0 <= edges[j].source < n
}

/// Whether a path through the graph leads from the entry `init` to the
/// node `n`.
pub open spec fn reachable(g: GraphView, init: int, n: int) -> bool {
    exists|path: Seq<int>| #[trigger] is_path(g, init, path) && path.last() == n
}

/// Whether every node of the graph can be reached from the entry `init`.
pub open spec fn all_reachable(g: GraphView, init: int) -> bool {
    forall|n: int| 0 <= n < g.nodes.len() ==> #[trigger] reachable(g, init, n)
}

/// Whether the graph has a `Terminal` node.
pub open spec fn has_terminal(g: GraphView) -> bool {
    exists|i: int| 0 <= i < g.nodes.len() && g.nodes[i] == NodeView::Terminal
}

/// Whether a statement leaves an edge with the outcome of a guard to what
/// follows it: a loop does, and a conditional of which a branch is empty
/// or ends with such a statement.
pub open spec fn leaves_open(a: AtomView) -> bool
    decreases a,
{
    match a {
        AtomView::Skip => false,
        AtomView::Assign(_, _) => false,
        AtomView::While(_, _) => true,
        AtomView::Cond(_, p, q) => p.len() == 0 || q.len() == 0 || leaves_open(p[p.len() - 1]) || leaves_open(
            q[q.len() - 1],
        ),
    }
}

/// Whether a program ends with a statement that leaves an edge with the
/// outcome of a guard to what follows it.
pub open spec fn open_prog(p: Seq<AtomView>) -> bool {
    p.len() > 0 && leaves_open(p[p.len() - 1])
}

/// Whether one of the loose ends carries the outcome of a guard.
pub open spec fn some_outcome(ends: Seq<LooseEnd>) -> bool {
    exists|i: int| 0 <= i < ends.len() && (#[trigger] ends[i]).label != Edge::Plain
}

proof fn lemma_earlier_kept(g: GraphView, h: GraphView, i: int)
    requires
        extends(g, h),
        has_earlier_pred(g.edges, i),
    ensures
        has_earlier_pred(h.edges, i),
{
    let j = choose|j: int| 0 <= j < g.edges.len() && (#[trigger] g.edges[j]).target == i && 0 <= g.edges[j].source < i;
    assert(h.edges[j] == g.edges[j]);
}

proof fn lemma_enters_earlier(h: GraphView, ends: Seq<LooseEnd>, t: int)
    requires
        enters(h, ends, t),
        ends.len() >= 1,
        t >= 0,
        ends_in_range(ends, t as nat),
    ensures
        has_earlier_pred(h.edges, t),
{
    assert(has_edge(h, ends[0].source, t, ends[0].label));
    let j = choose|j: int|
        0 <= j < h.edges.len() && #[trigger] h.edges[j] == (FlowEdge {
            source: ends[0].source,
            target: t,
            label: ends[0].label,
        });
    assert(h.edges[j].target == t && 0 <= h.edges[j].source < t);
}

/// Joining loose ends of a graph to one of its nodes keeps the edges
/// within the graph.
proof fn lemma_wire_in_range(g: GraphView, ends: Seq<LooseEnd>, t: int)
    requires
        g.edges_in_range(),
        ends_in_range(ends, g.nodes.len()),
        0 <= t < g.nodes.len(),
    ensures
        wire(g, ends, t).edges_in_range(),
{
    let h = wire(g, ends, t);
    assert forall|i: int| 0 <= i < h.edges.len() implies 0 <= (#[trigger] h.edges[i]).source < h.nodes.len() && 0
        <= h.edges[i].target < h.nodes.len() by {
        if i < g.edges.len() {
            assert(h.edges[i] == g.edges[i]);
        } else {
            assert(h.edges[i] == wiring(ends, t)[i - g.edges.len()]);
            assert(0 <= ends[i - g.edges.len()].source < g.nodes.len());
        }
    }
}

/// The loose ends of a graph are loose ends of every graph that has more
/// nodes.
proof fn lemma_ends_wider(ends: Seq<LooseEnd>, n: nat, m: nat)
    requires
        ends_in_range(ends, n),
        n <= m,
    ensures
        ends_in_range(ends, m),
{
    assert forall|i: int| 0 <= i < ends.len() implies 0 <= (#[trigger] ends[i]).source < m by {
        assert(0 <= ends[i].source < n);
    }
}

/// What lowering keeps and establishes for reaching the nodes: every new
/// node has a predecessor with a smaller index, the edges stay within the
/// graph, and there are loose ends, which leave nodes of the graph.
spec fn step_reaches(g: GraphView, h: GraphView, out: Seq<LooseEnd>) -> bool {
    &&& extends(g, h)
    &&& h.edges_in_range()
    &&& out.len() >= 1
    &&& ends_in_range(out, h.nodes.len())
    &&& forall|i: int| g.nodes.len() <= i < h.nodes.len() ==> #[trigger] has_earlier_pred(h.edges, i)
}

#[verifier::rlimit(50)]
#[verifier::spinoff_prover]
proof fn lemma_earlier_atom(g: GraphView, ends: Seq<LooseEnd>, a: AtomView)
    requires
        g.edges_in_range(),
        ends.len() >= 1,
        ends_in_range(ends, g.nodes.len()),
    ensures
        step_reaches(g, lower_atom(g, ends, a).0, lower_atom(g, ends, a).1),
    decreases a,
{
    let s = g.nodes.len() as int;
    let (h, out) = lower_atom(g, ends, a);
    lemma_lowering_atom(g, ends, a);
    lemma_enters_earlier(h, ends, s);
    let g0 = g.with_node(crate::simulation::node_of(a));
    let g1 = wire(g0, ends, s);
    assert(g0.edges_in_range());
    lemma_ends_wider(ends, g.nodes.len(), g0.nodes.len());
    lemma_wire_in_range(g0, ends, s);
    match a {
        AtomView::Skip => {},
        AtomView::Assign(_, _) => {},
        AtomView::Cond(b, p, q) => {
            let et = seq![LooseEnd { source: s, label: Edge::True }];
            let ef = seq![LooseEnd { source: s, label: Edge::False }];
            lemma_earlier_prog(g1, et, p);
            let (g2, ep) = lower_prog(g1, et, p);
            lemma_earlier_prog(g2, ef, q);
            let (g3, eq) = lower_prog(g2, ef, q);
            lemma_ends_wider(ep, g2.nodes.len(), g3.nodes.len());
            assert forall|i: int| 0 <= i < (ep + eq).len() implies 0 <= (#[trigger] (ep + eq)[i]).source
                < g3.nodes.len() by {
                if i < ep.len() {
                    assert((ep + eq)[i] == ep[i]);
                } else {
                    assert((ep + eq)[i] == eq[i - ep.len()]);
                }
            }
            assert forall|i: int| g.nodes.len() <= i < g3.nodes.len() implies #[trigger] has_earlier_pred(
                g3.edges,
                i,
            ) by {
                if s < i < g2.nodes.len() {
                    assert(has_earlier_pred(g2.edges, i));
                    lemma_earlier_kept(g2, g3, i);
                }
            }
        },
        AtomView::While(b, p) => {
            let et = seq![LooseEnd { source: s, label: Edge::True }];
            lemma_earlier_prog(g1, et, p);
            let (g2, ep) = lower_prog(g1, et, p);
            lemma_wire(g2, ep, s);
            lemma_wire_in_range(g2, ep, s);
            let g3 = wire(g2, ep, s);
            assert forall|i: int| g.nodes.len() <= i < g3.nodes.len() implies #[trigger] has_earlier_pred(
                g3.edges,
                i,
            ) by {
                if s < i {
                    assert(has_earlier_pred(g2.edges, i));
                    lemma_earlier_kept(g2, g3, i);
                }
            }
        },
    }
}

#[verifier::rlimit(50)]
#[verifier::spinoff_prover]
proof fn lemma_earlier_prog(g: GraphView, ends: Seq<LooseEnd>, p: Seq<AtomView>)
    requires
        g.edges_in_range(),
        ends.len() >= 1,
        ends_in_range(ends, g.nodes.len()),
    ensures
        step_reaches(g, lower_prog(g, ends, p).0, lower_prog(g, ends, p).1),
    decreases p,
{
    if p.len() > 0 {
        lemma_earlier_atom(g, ends, p[0]);
        let (g1, e1) = lower_atom(g, ends, p[0]);
        lemma_earlier_prog(g1, e1, p.drop_first());
        let (h, out) = lower_prog(g1, e1, p.drop_first());
        lemma_extends_trans(g, g1, h);
        assert forall|i: int| g.nodes.len() <= i < h.nodes.len() implies #[trigger] has_earlier_pred(h.edges, i) by {
            if i < g1.nodes.len() {
                assert(has_earlier_pred(g1.edges, i));
                lemma_earlier_kept(g1, h, i);
            }
        }
    }
}

/// In a graph in which every node but node 0 has a predecessor with a
/// smaller index, a path leads from node 0 to every node.
proof fn lemma_path_to(h: GraphView, n: int) -> (path: Seq<int>)
    requires
        0 <= n < h.nodes.len(),
        forall|i: int| 1 <= i < h.nodes.len() ==> #[trigger] has_earlier_pred(h.edges, i),
    ensures
        is_path(h, 0, path),
        path.last() == n,
    decreases n,
{
    if n == 0 {
        seq![0int]
    } else {
        assert(has_earlier_pred(h.edges, n));
        let j = choose|j: int|
            0 <= j < h.edges.len() && (#[trigger] h.edges[j]).target == n && 0 <= h.edges[j].source < n;
        let before = lemma_path_to(h, h.edges[j].source);
        let path = before.push(n);
        assert(edge_between(h, h.edges[j].source, n));
        assert forall|k: int| 0 <= k < path.len() implies 0 <= #[trigger] path[k] < h.nodes.len() by {
            if k < before.len() {
                assert(path[k] == before[k]);
            }
        }
        assert forall|k: int| 0 <= k < path.len() - 1 implies edge_between(h, #[trigger] path[k], path[k + 1]) by {
            if k < before.len() - 1 {
                assert(path[k] == before[k] && path[k + 1] == before[k + 1]);
                assert(edge_between(h, before[k], before[k + 1]));
            } else {
                assert(path[k] == before[before.len() - 1] && path[k + 1] == n);
            }
        }
        path
    }
}

/// Every node but the entry of the control-flow graph of a program has a
/// predecessor with a smaller index, and the edges of the graph that
/// lowering makes before the terminal stay within it.
proof fn lemma_lowered_earlier(p: Seq<AtomView>)
    ensures
        forall|i: int| 1 <= i < lowered(p).nodes.len() ==> #[trigger] has_earlier_pred(lowered(p).edges, i),
        lower_prog(entry_graph(), entry_ends(), p).0.edges_in_range(),
        extends(lower_prog(entry_graph(), entry_ends(), p).0, lowered(p)),
        ends_in_range(final_ends(p), lower_prog(entry_graph(), entry_ends(), p).0.nodes.len()),
{
    let g0 = entry_graph();
    let e0 = entry_ends();
    lemma_earlier_prog(g0, e0, p);
    let (g, ends) = lower_prog(g0, e0, p);
    let d = dangling(ends);
    let h = lowered(p);
    if d.len() > 0 {
        let t = g.nodes.len() as int;
        let gt = g.with_node(NodeView::Terminal);
        lemma_wire(gt, d, t);
        assert(extends(g, gt));
        lemma_extends_trans(g, gt, h);
        lemma_dangling(ends, g.nodes.len(), 0, Edge::Plain);
        lemma_enters_earlier(h, d, t);
        assert forall|i: int| 1 <= i < h.nodes.len() implies #[trigger] has_earlier_pred(h.edges, i) by {
            if i < t {
                assert(has_earlier_pred(g.edges, i));
                lemma_earlier_kept(g, h, i);
            }
        }
    }
}

/// Every node of the control-flow graph of a program can be reached from
/// the entry along the edges of the graph.
pub proof fn lemma_lowered_reachable(p: Seq<AtomView>, n: int)
    requires
        0 <= n < lowered(p).nodes.len(),
    ensures
        reachable(lowered(p), 0, n),
{
    lemma_lowered_earlier(p);
    let path = lemma_path_to(lowered(p), n);
    assert(is_path(lowered(p), 0, path) && path.last() == n);
}

/// The loose ends with the outcome of a guard are those that carry one.
proof fn lemma_dangling_outcomes(ends: Seq<LooseEnd>)
    ensures
        dangling(ends).len() > 0 <==> some_outcome(ends),
        forall|i: int|
            0 <= i < dangling(ends).len() ==> (#[trigger] dangling(ends)[i]).label != Edge::Plain && exists|e: int|
                0 <= e < ends.len() && #[trigger] ends[e] == dangling(ends)[i],
        forall|e: int|
            0 <= e < ends.len() && (#[trigger] ends[e]).label != Edge::Plain ==> exists|i: int|
                0 <= i < dangling(ends).len() && #[trigger] dangling(ends)[i] == ends[e],
    decreases ends.len(),
{
    if ends.len() > 0 {
        let rest = ends.drop_last();
        lemma_dangling_outcomes(rest);
        let d = dangling(ends);
        let dr = dangling(rest);
        assert forall|i: int| 0 <= i < d.len() implies (#[trigger] d[i]).label != Edge::Plain && exists|e: int|
            0 <= e < ends.len() && #[trigger] ends[e] == d[i] by {
            if i < dr.len() {
                assert(d[i] == dr[i]);
                let e = choose|e: int| 0 <= e < rest.len() && #[trigger] rest[e] == dr[i];
                assert(ends[e] == d[i]);
            } else {
                assert(ends[ends.len() - 1] == d[i]);
            }
        }
        assert forall|e: int| 0 <= e < ends.len() && (#[trigger] ends[e]).label != Edge::Plain implies exists|i: int|
            0 <= i < d.len() && #[trigger] d[i] == ends[e] by {
            if e < rest.len() {
                assert(rest[e] == ends[e]);
                let i = choose|i: int| 0 <= i < dr.len() && #[trigger] dr[i] == rest[e];
                assert(d[i] == ends[e]);
            } else {
                assert(d[d.len() - 1] == ends[e]);
            }
        }
        if some_outcome(ends) {
            let e = choose|e: int| 0 <= e < ends.len() && (#[trigger] ends[e]).label != Edge::Plain;
            let i = choose|i: int| 0 <= i < d.len() && #[trigger] d[i] == ends[e];
        }
        if d.len() > 0 {
            assert(d[0].label != Edge::Plain);
            let e = choose|e: int| 0 <= e < ends.len() && #[trigger] ends[e] == d[0];
            assert(ends[e].label != Edge::Plain);
        }
    }
}

/// A statement leaves a loose end with the outcome of a guard exactly if
/// it leaves an edge open.
proof fn lemma_open_atom(g: GraphView, ends: Seq<LooseEnd>, a: AtomView)
    ensures
        some_outcome(lower_atom(g, ends, a).1) <==> leaves_open(a),
    decreases a,
{
    let s = g.nodes.len() as int;
    let out = lower_atom(g, ends, a).1;
    match a {
        AtomView::Skip => {
            if some_outcome(out) {
                let i = choose|i: int| 0 <= i < out.len() && (#[trigger] out[i]).label != Edge::Plain;
            }
        },
        AtomView::Assign(_, _) => {
            if some_outcome(out) {
                let i = choose|i: int| 0 <= i < out.len() && (#[trigger] out[i]).label != Edge::Plain;
            }
        },
        AtomView::While(_, _) => {
            assert(out[0].label != Edge::Plain);
        },
        AtomView::Cond(b, p, q) => {
            let g1 = wire(g.with_node(NodeView::Branch(b)), ends, s);
            let et = seq![LooseEnd { source: s, label: Edge::True }];
            let ef = seq![LooseEnd { source: s, label: Edge::False }];
            let (g2, ep) = lower_prog(g1, et, p);
            let (g3, eq) = lower_prog(g2, ef, q);
            lemma_open_prog(g1, et, p);
            lemma_open_prog(g2, ef, q);
            assert(et[0].label != Edge::Plain);
            assert(ef[0].label != Edge::Plain);
            assert(out == ep + eq);
            if some_outcome(ep) {
                let i = choose|i: int| 0 <= i < ep.len() && (#[trigger] ep[i]).label != Edge::Plain;
                assert(out[i] == ep[i]);
            }
            if some_outcome(eq) {
                let i = choose|i: int| 0 <= i < eq.len() && (#[trigger] eq[i]).label != Edge::Plain;
                assert(out[ep.len() + i] == eq[i]);
            }
            if some_outcome(out) {
                let i = choose|i: int| 0 <= i < out.len() && (#[trigger] out[i]).label != Edge::Plain;
                if i < ep.len() {
                    assert(ep[i] == out[i]);
                } else {
                    assert(eq[i - ep.len()] == out[i]);
                }
            }
        },
    }
}

/// A program leaves a loose end with the outcome of a guard exactly if it
/// ends with a statement that leaves an edge open, or is empty and
/// started from such a loose end.
proof fn lemma_open_prog(g: GraphView, ends: Seq<LooseEnd>, p: Seq<AtomView>)
    ensures
        some_outcome(lower_prog(g, ends, p).1) <==> if p.len() == 0 {
            some_outcome(ends)
        } else {
            leaves_open(p[p.len() - 1])
        },
    decreases p,
{
    if p.len() > 0 {
        lemma_open_atom(g, ends, p[0]);
        let (g1, e1) = lower_atom(g, ends, p[0]);
        let rest = p.drop_first();
        lemma_open_prog(g1, e1, rest);
        if rest.len() > 0 {
            assert(rest[rest.len() - 1] == p[p.len() - 1]);
        }
    }
}

/// The control-flow graph of a program has a `Terminal` node exactly if
/// the program ends with a statement that leaves an edge open. The
/// terminal is then the last node; every edge that enters it carries the
/// outcome of a guard and joins one of the loose ends that lowering left;
/// and every loose end that lowering left with the outcome of a guard is
/// joined to it.
pub proof fn lemma_terminal(p: Seq<AtomView>)
    ensures
        has_terminal(lowered(p)) <==> open_prog(p),
        open_prog(p) ==> {
            let h = lowered(p);
            let t = h.nodes.len() - 1;
            &&& h.nodes[t] == NodeView::Terminal
            &&& forall|j: int|
                0 <= j < h.edges.len() && (#[trigger] h.edges[j]).target == t ==> h.edges[j].label != Edge::Plain
                    && exists|e: int|
                    0 <= e < final_ends(p).len() && #[trigger] final_ends(p)[e] == (LooseEnd {
                        source: h.edges[j].source,
                        label: h.edges[j].label,
                    })
            &&& forall|e: int|
                0 <= e < final_ends(p).len() && (#[trigger] final_ends(p)[e]).label != Edge::Plain ==> has_edge(
                    h,
                    final_ends(p)[e].source,
                    t,
                    final_ends(p)[e].label,
                )
        },
{
    let g0 = entry_graph();
    let e0 = entry_ends();
    let (g, ends) = lower_prog(g0, e0, p);
    let d = dangling(ends);
    let h = lowered(p);
    lemma_lowered_invariants(p);
    lemma_lowered_earlier(p);
    lemma_open_prog(g0, e0, p);
    lemma_dangling_outcomes(ends);
    if some_outcome(e0) {
        let i = choose|i: int| 0 <= i < e0.len() && (#[trigger] e0[i]).label != Edge::Plain;
    }
    if open_prog(p) {
        let t = g.nodes.len() as int;
        let gt = g.with_node(NodeView::Terminal);
        assert(h == wire(gt, d, t));
        assert(h.nodes[t] == NodeView::Terminal);
        lemma_wire(gt, d, t);
        assert forall|j: int| 0 <= j < h.edges.len() && (#[trigger] h.edges[j]).target == t implies h.edges[j].label
            != Edge::Plain && exists|e: int|
            0 <= e < ends.len() && #[trigger] ends[e] == (LooseEnd {
                source: h.edges[j].source,
                label: h.edges[j].label,
            }) by {
            if j < g.edges.len() {
                assert(h.edges[j] == g.edges[j]);
                assert(0 <= g.edges[j].target < g.nodes.len());
            } else {
                let i = j - g.edges.len();
                assert(h.edges[j] == wiring(d, t)[i]);
                assert(d[i].label != Edge::Plain);
                let e = choose|e: int| 0 <= e < ends.len() && #[trigger] ends[e] == d[i];
                assert(ends[e] == LooseEnd { source: h.edges[j].source, label: h.edges[j].label });
            }
        }
        assert forall|e: int| 0 <= e < ends.len() && (#[trigger] ends[e]).label != Edge::Plain implies has_edge(
            h,
            ends[e].source,
            t,
            ends[e].label,
        ) by {
            let i = choose|i: int| 0 <= i < d.len() && #[trigger] d[i] == ends[e];
            assert(has_edge(h, d[i].source, t, d[i].label));
        }
    }
}

} // verus!
