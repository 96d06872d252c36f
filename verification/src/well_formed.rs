//! The shape of the control-flow graphs that lowering produces.

use vstd::prelude::*;
use crate::ast::AtomView;
use crate::cfg::{Edge, GraphView, LooseEnd, NodeView, dangling, entry_ends, entry_graph, ends_in_range,
    final_ends, lower_atom, lower_prog, lowered, wire, wiring};
use crate::graph::FlowEdge;

verus! {

/// The number of edges that leave node `n` with the label `label`.
pub open spec fn out_count(edges: Seq<FlowEdge>, n: int, label: Edge) -> nat
    decreases edges.len(),
{
    if edges.len() == 0 {
        0
    } else {
        out_count(edges.drop_last(), n, label) + if edges.last().source == n && edges.last().label == label {
            1nat
        } else {
            0nat
        }
    }
}

/// The number of loose ends that leave node `n` with the label `label`.
pub open spec fn end_count(ends: Seq<LooseEnd>, n: int, label: Edge) -> nat
    decreases ends.len(),
{
    if ends.len() == 0 {
        0
    } else {
        end_count(ends.drop_last(), n, label) + if ends.last().source == n && ends.last().label == label {
            1nat
        } else {
            0nat
        }
    }
}

/// Whether some edge enters node `n`.
pub open spec fn has_pred(edges: Seq<FlowEdge>, n: int) -> bool {
    exists|j: int| 0 <= j < edges.len() && (#[trigger] edges[j]).target == n
}

/// The number of edges with the label `label` that leave a node with the
/// operation `node` once its flow is complete: a guard has one edge for
/// each outcome, a terminal none, any other node one plain edge.
pub open spec fn capacity(node: NodeView, label: Edge) -> nat {
    match node {
        NodeView::Branch(_) => if label == Edge::Plain { 0 } else { 1 },
        NodeView::Terminal => 0,
        _ => if label == Edge::Plain { 1 } else { 0 },
    }
}

/// Whether the operation stands for a statement of the program.
pub open spec fn is_statement(node: NodeView) -> bool {
    node is Skip || node is Assign || node is Branch
}

/// The shape of a control-flow graph with the entry `init`.
///
/// - The entry is the one `Init` node, and no edge enters it.
/// - Every other node has a predecessor.
/// - A `Branch` node has one outgoing `True` edge, one outgoing `False`
///   edge and no plain one.
/// - Any other node has only plain outgoing edges, at most one.
/// - A `Terminal` node has no outgoing edge, and only the last node can be
///   one.
pub open spec fn flow_invariants(g: GraphView, init: int) -> bool {
    &&& g.edges_in_range()
    &&& 0 <= init < g.nodes.len()
    &&& g.nodes[init] == NodeView::Init
    &&& forall|i: int| 0 <= i < g.nodes.len() && g.nodes[i] == NodeView::Init ==> i == init
    &&& forall|j: int| 0 <= j < g.edges.len() ==> (#[trigger] g.edges[j]).target != init
    &&& forall|i: int| 0 <= i < g.nodes.len() && i != init ==> has_pred(g.edges, i)
    &&& forall|i: int, l: Edge|
        0 <= i < g.nodes.len() && g.nodes[i] is Branch ==> #[trigger] out_count(g.edges, i, l) == if l
            == Edge::Plain {
            0nat
        } else {
            1nat
        }
    &&& forall|i: int, l: Edge|
        0 <= i < g.nodes.len() && !(g.nodes[i] is Branch) && l != Edge::Plain ==> #[trigger] out_count(
            g.edges,
            i,
            l,
        ) == 0
    &&& forall|i: int|
        0 <= i < g.nodes.len() && !(g.nodes[i] is Branch) ==> #[trigger] out_count(g.edges, i, Edge::Plain)
            <= 1
    &&& forall|i: int, l: Edge|
        0 <= i < g.nodes.len() && g.nodes[i] == NodeView::Terminal ==> #[trigger] out_count(g.edges, i, l)
            == 0
    &&& forall|i: int| 0 <= i < g.nodes.len() && g.nodes[i] == NodeView::Terminal ==> i == g.nodes.len() - 1
}

/// Every node accounts for its outgoing flow: the edges that leave it,
/// together with its loose ends in `ends` and in `frame`, are as many as
/// its operation asks for.
pub open spec fn balanced(g: GraphView, ends: Seq<LooseEnd>, frame: Seq<LooseEnd>) -> bool {
    forall|u: int, l: Edge|
        0 <= u < g.nodes.len() ==> #[trigger] out_count(g.edges, u, l) + end_count(ends, u, l) + end_count(
            frame,
            u,
            l,
        ) == capacity(g.nodes[u], l)
}

/// The graph `h` continues the graph `g`: it keeps the nodes and edges of
/// `g` under their indices, its further edges enter only its further
/// nodes, and each further node stands for a statement and has a
/// predecessor.
pub open spec fn grows(g: GraphView, h: GraphView) -> bool {
    &&& g.nodes.len() <= h.nodes.len()
    &&& g.edges.len() <= h.edges.len()
    &&& forall|i: int| 0 <= i < g.nodes.len() ==> h.nodes[i] == g.nodes[i]
    &&& forall|j: int| 0 <= j < g.edges.len() ==> h.edges[j] == g.edges[j]
    &&& forall|j: int| g.edges.len() <= j < h.edges.len() ==> (#[trigger] h.edges[j]).target >= g.nodes.len()
    &&& forall|i: int|
        g.nodes.len() <= i < h.nodes.len() ==> is_statement(#[trigger] h.nodes[i]) && has_pred(h.edges, i)
}

proof fn lemma_out_count_add(a: Seq<FlowEdge>, b: Seq<FlowEdge>, n: int, l: Edge)
    ensures
        out_count(a + b, n, l) == out_count(a, n, l) + out_count(b, n, l),
    decreases b.len(),
{
    if b.len() == 0 {
        assert(a + b =~= a);
    } else {
        assert((a + b).drop_last() =~= a + b.drop_last());
        lemma_out_count_add(a, b.drop_last(), n, l);
    }
}

proof fn lemma_end_count_add(a: Seq<LooseEnd>, b: Seq<LooseEnd>, n: int, l: Edge)
    ensures
        end_count(a + b, n, l) == end_count(a, n, l) + end_count(b, n, l),
    decreases b.len(),
{
    if b.len() == 0 {
        assert(a + b =~= a);
    } else {
        assert((a + b).drop_last() =~= a + b.drop_last());
        lemma_end_count_add(a, b.drop_last(), n, l);
    }
}

proof fn lemma_end_count_single(e: LooseEnd, n: int, l: Edge)
    ensures
        end_count(seq![e], n, l) == if e.source == n && e.label == l {
            1nat
        } else {
            0nat
        },
{
    assert(seq![e].drop_last() =~= Seq::<LooseEnd>::empty());
    assert(end_count(seq![e].drop_last(), n, l) == 0);
}

proof fn lemma_out_count_wiring(ends: Seq<LooseEnd>, target: int, n: int, l: Edge)
    ensures
        out_count(wiring(ends, target), n, l) == end_count(ends, n, l),
    decreases ends.len(),
{
    if ends.len() > 0 {
        assert(wiring(ends, target).drop_last() =~= wiring(ends.drop_last(), target));
        lemma_out_count_wiring(ends.drop_last(), target, n, l);
    }
}

proof fn lemma_end_count_none(ends: Seq<LooseEnd>, k: nat, n: int, l: Edge)
    requires
        ends_in_range(ends, k),
        n >= k,
    ensures
        end_count(ends, n, l) == 0,
    decreases ends.len(),
{
    if ends.len() > 0 {
        assert(ends[ends.len() - 1].source < k);
        assert forall|i: int| 0 <= i < ends.drop_last().len() implies 0 <= (#[trigger] ends.drop_last()[i]).source
            < k by {
            assert(ends.drop_last()[i] == ends[i]);
        }
        lemma_end_count_none(ends.drop_last(), k, n, l);
    }
}

proof fn lemma_out_count_none(edges: Seq<FlowEdge>, k: nat, n: int, l: Edge)
    requires
        forall|j: int| 0 <= j < edges.len() ==> (#[trigger] edges[j]).source < k,
        n >= k,
    ensures
        out_count(edges, n, l) == 0,
    decreases edges.len(),
{
    if edges.len() > 0 {
        assert(edges[edges.len() - 1].source < k);
        assert forall|j: int| 0 <= j < edges.drop_last().len() implies (#[trigger] edges.drop_last()[j]).source
            < k by {
            assert(edges.drop_last()[j] == edges[j]);
        }
        lemma_out_count_none(edges.drop_last(), k, n, l);
    }
}

pub(crate) proof fn lemma_dangling(ends: Seq<LooseEnd>, k: nat, n: int, l: Edge)
    ensures
        end_count(dangling(ends), n, l) == if l != Edge::Plain {
            end_count(ends, n, l)
        } else {
            0nat
        },
        ends_in_range(ends, k) ==> ends_in_range(dangling(ends), k),
        dangling(ends).len() <= ends.len(),
    decreases ends.len(),
{
    if ends.len() > 0 {
        lemma_dangling(ends.drop_last(), k, n, l);
        if ends_in_range(ends, k) {
            assert forall|i: int| 0 <= i < ends.drop_last().len() implies 0 <= (#[trigger] ends.drop_last()[i]).source
                < k by {
                assert(ends.drop_last()[i] == ends[i]);
            }
            assert(ends[ends.len() - 1].source < k);
        }
        if ends.last().label != Edge::Plain {
            assert(dangling(ends).drop_last() =~= dangling(ends.drop_last()));
        }
    }
}

proof fn lemma_grows_trans(g: GraphView, h: GraphView, k: GraphView)
    requires
        grows(g, h),
        grows(h, k),
    ensures
        grows(g, k),
{
    assert forall|i: int| g.nodes.len() <= i < k.nodes.len() implies is_statement(#[trigger] k.nodes[i])
        && has_pred(k.edges, i) by {
        if i < h.nodes.len() {
            assert(is_statement(h.nodes[i]) && has_pred(h.edges, i));
            assert(k.nodes[i] == h.nodes[i]);
            let j = choose|j: int| 0 <= j < h.edges.len() && (#[trigger] h.edges[j]).target == i;
            assert(k.edges[j] == h.edges[j]);
            assert(has_pred(k.edges, i));
        } else {
            assert(is_statement(k.nodes[i]));
            assert(has_pred(k.edges, i));
        }
    }
    assert forall|j: int| g.edges.len() <= j < k.edges.len() implies (#[trigger] k.edges[j]).target
        >= g.nodes.len() by {
        if j < h.edges.len() {
            assert(h.edges[j].target >= g.nodes.len());
        }
    }
}

/// What joining the loose ends `ends` to a node does to a graph `g`, where
/// the node is the new node `node` (`Some`) or the node `target` of the graph.
proof fn lemma_wire(g: GraphView, ends: Seq<LooseEnd>, target: int, n: int, l: Edge)
    ensures
        out_count(wire(g, ends, target).edges, n, l) == out_count(g.edges, n, l) + end_count(ends, n, l),
{
    lemma_out_count_add(g.edges, wiring(ends, target), n, l);
    lemma_out_count_wiring(ends, target, n, l);
}

/// Adding a node for a statement and joining the loose ends `ends` to it
/// keeps the flow balanced, with the new node's own ends `own` added.
#[verifier::rlimit(50)]
#[verifier::spinoff_prover]
proof fn lemma_new_node(g: GraphView, ends: Seq<LooseEnd>, frame: Seq<LooseEnd>, node: NodeView, own: Seq<LooseEnd>)
    requires
        g.edges_in_range(),
        ends_in_range(ends, g.nodes.len()),
        ends_in_range(frame, g.nodes.len()),
        ends.len() >= 1,
        balanced(g, ends, frame),
        is_statement(node),
        forall|l: Edge| #[trigger] end_count(own, g.nodes.len() as int, l) == capacity(node, l),
        ends_in_range(own, g.nodes.len() + 1),
        forall|u: int, l: Edge| 0 <= u < g.nodes.len() ==> #[trigger] end_count(own, u, l) == 0,
    ensures
        ({
            let h = wire(g.with_node(node), ends, g.nodes.len() as int);
            &&& h.edges_in_range()
            &&& grows(g, h)
            &&& balanced(h, own, frame)
            &&& h.nodes.len() == g.nodes.len() + 1
        }),
{
    let s = g.nodes.len() as int;
    let h = wire(g.with_node(node), ends, s);
    assert forall|i: int| 0 <= i < h.edges.len() implies 0 <= (#[trigger] h.edges[i]).source < h.nodes.len() && 0
        <= h.edges[i].target < h.nodes.len() by {
        if i < g.edges.len() {
            assert(h.edges[i] == g.edges[i]);
        } else {
            assert(h.edges[i] == wiring(ends, s)[i - g.edges.len()]);
            assert(0 <= ends[i - g.edges.len()].source < g.nodes.len());
        }
    }
    assert(h.edges[g.edges.len() as int] == wiring(ends, s)[0]);
    assert(h.edges[g.edges.len() as int].target == s);
    assert(has_pred(h.edges, s));
    assert forall|j: int| g.edges.len() <= j < h.edges.len() implies (#[trigger] h.edges[j]).target
        >= g.nodes.len() by {
        assert(h.edges[j] == wiring(ends, s)[j - g.edges.len()]);
    }
    assert(grows(g, h));
    assert forall|u: int, l: Edge| 0 <= u < h.nodes.len() implies #[trigger] out_count(h.edges, u, l)
        + end_count(own, u, l) + end_count(frame, u, l) == capacity(h.nodes[u], l) by {
        lemma_wire(g.with_node(node), ends, s, u, l);
        if u < s {
            assert(out_count(g.edges, u, l) + end_count(ends, u, l) + end_count(frame, u, l) == capacity(
                g.nodes[u],
                l,
            ));
            assert(end_count(own, u, l) == 0);
        } else {
            lemma_out_count_none(g.edges, g.nodes.len(), u, l);
            lemma_end_count_none(ends, g.nodes.len(), u, l);
            lemma_end_count_none(frame, g.nodes.len(), u, l);
            assert(end_count(own, s, l) == capacity(node, l));
        }
    }
}

/// Loose ends may be regrouped between the two lists of a balance.
proof fn lemma_regroup(g: GraphView, e1: Seq<LooseEnd>, f1: Seq<LooseEnd>, e2: Seq<LooseEnd>, f2: Seq<LooseEnd>)
    requires
        balanced(g, e1, f1),
        forall|u: int, l: Edge|
            #![trigger end_count(e2, u, l)]
            end_count(e1, u, l) + end_count(f1, u, l) == end_count(e2, u, l) + end_count(f2, u, l),
    ensures
        balanced(g, e2, f2),
{
    assert forall|u: int, l: Edge| 0 <= u < g.nodes.len() implies #[trigger] out_count(g.edges, u, l)
        + end_count(e2, u, l) + end_count(f2, u, l) == capacity(g.nodes[u], l) by {
        assert(end_count(e1, u, l) + end_count(f1, u, l) == end_count(e2, u, l) + end_count(f2, u, l));
    }
}

/// All loose ends of `ends` leave a node with an index of at least `k`.
pub open spec fn ends_from(ends: Seq<LooseEnd>, k: nat) -> bool {
    forall|i: int| 0 <= i < ends.len() ==> (#[trigger] ends[i]).source >= k
}

/// The two loose ends of a guard at node `s`.
spec fn guard_ends(s: int) -> Seq<LooseEnd> {
    seq![LooseEnd { source: s, label: Edge::True }] + seq![LooseEnd { source: s, label: Edge::False }]
}

proof fn lemma_guard_ends(s: int, b: crate::bexp::BExpView)
    ensures
        forall|l: Edge| #[trigger] end_count(guard_ends(s), s, l) == capacity(NodeView::Branch(b), l),
        forall|u: int, l: Edge| u != s ==> #[trigger] end_count(guard_ends(s), u, l) == 0,
{
    let t = LooseEnd { source: s, label: Edge::True };
    let f = LooseEnd { source: s, label: Edge::False };
    assert forall|u: int, l: Edge| true implies #[trigger] end_count(guard_ends(s), u, l) == end_count(
        seq![t],
        u,
        l,
    ) + end_count(seq![f], u, l) by {
        lemma_end_count_add(seq![t], seq![f], u, l);
    }
    assert forall|l: Edge| #[trigger] end_count(guard_ends(s), s, l) == capacity(NodeView::Branch(b), l) by {
        lemma_end_count_single(t, s, l);
        lemma_end_count_single(f, s, l);
        assert(end_count(guard_ends(s), s, l) == end_count(seq![t], s, l) + end_count(seq![f], s, l));
    }
    assert forall|u: int, l: Edge| u != s implies #[trigger] end_count(guard_ends(s), u, l) == 0 by {
        lemma_end_count_single(t, u, l);
        lemma_end_count_single(f, u, l);
        assert(end_count(guard_ends(s), u, l) == end_count(seq![t], u, l) + end_count(seq![f], u, l));
    }
}

proof fn lemma_plain_end(s: int, node: NodeView)
    requires
        node is Skip || node is Assign,
    ensures
        forall|l: Edge| #[trigger] end_count(seq![LooseEnd { source: s, label: Edge::Plain }], s, l) == capacity(node, l),
        forall|u: int, l: Edge| u != s ==> #[trigger] end_count(seq![LooseEnd { source: s, label: Edge::Plain }], u, l) == 0,
{
    let e = LooseEnd { source: s, label: Edge::Plain };
    assert forall|l: Edge| #[trigger] end_count(seq![e], s, l) == capacity(node, l) by {
        lemma_end_count_single(e, s, l);
    }
    assert forall|u: int, l: Edge| u != s implies #[trigger] end_count(seq![e], u, l) == 0 by {
        lemma_end_count_single(e, u, l);
    }
}

/// What lowering a statement keeps and establishes.
pub open spec fn lowering_step(
    g: GraphView,
    ends: Seq<LooseEnd>,
    frame: Seq<LooseEnd>,
    h: GraphView,
    out: Seq<LooseEnd>,
) -> bool {
    &&& h.edges_in_range()
    &&& ends_in_range(out, h.nodes.len())
    &&& out.len() >= 1
    &&& balanced(h, out, frame)
    &&& grows(g, h)
}

/// Lowering a statement into a balanced graph leaves a balanced graph
/// that continues it, and loose ends that leave the new nodes.
#[verifier::rlimit(50)]
#[verifier::spinoff_prover]
proof fn lemma_lower_atom(g: GraphView, ends: Seq<LooseEnd>, frame: Seq<LooseEnd>, a: AtomView)
    requires
        g.edges_in_range(),
        ends_in_range(ends, g.nodes.len()),
        ends_in_range(frame, g.nodes.len()),
        ends.len() >= 1,
        balanced(g, ends, frame),
    ensures
        lowering_step(g, ends, frame, lower_atom(g, ends, a).0, lower_atom(g, ends, a).1),
        ends_from(lower_atom(g, ends, a).1, g.nodes.len()),
    decreases a,
{
    let s = g.nodes.len() as int;
    match a {
        AtomView::Skip => {
            let own = seq![LooseEnd { source: s, label: Edge::Plain }];
            lemma_plain_end(s, NodeView::Skip);
            lemma_new_node(g, ends, frame, NodeView::Skip, own);
        },
        AtomView::Assign(x, e) => {
            let own = seq![LooseEnd { source: s, label: Edge::Plain }];
            lemma_plain_end(s, NodeView::Assign(x, e));
            lemma_new_node(g, ends, frame, NodeView::Assign(x, e), own);
        },
        AtomView::Cond(b, p, q) => {
            let node = NodeView::Branch(b);
            let et = seq![LooseEnd { source: s, label: Edge::True }];
            let ef = seq![LooseEnd { source: s, label: Edge::False }];
            lemma_guard_ends(s, b);
            lemma_new_node(g, ends, frame, node, guard_ends(s));
            let g1 = wire(g.with_node(node), ends, s);
            assert forall|u: int, l: Edge|
                #![trigger end_count(et, u, l)]
                end_count(guard_ends(s), u, l) + end_count(frame, u, l) == end_count(et, u, l) + end_count(
                    ef + frame,
                    u,
                    l,
                ) by {
                lemma_end_count_add(et, ef, u, l);
                lemma_end_count_add(ef, frame, u, l);
            }
            lemma_regroup(g1, guard_ends(s), frame, et, ef + frame);
            lemma_lower_prog(g1, et, ef + frame, p);
            let (g2, ends_p) = lower_prog(g1, et, p);
            assert forall|u: int, l: Edge|
                #![trigger end_count(ef, u, l)]
                end_count(ends_p, u, l) + end_count(ef + frame, u, l) == end_count(ef, u, l) + end_count(
                    ends_p + frame,
                    u,
                    l,
                ) by {
                lemma_end_count_add(ef, frame, u, l);
                lemma_end_count_add(ends_p, frame, u, l);
            }
            lemma_regroup(g2, ends_p, ef + frame, ef, ends_p + frame);
            lemma_lower_prog(g2, ef, ends_p + frame, q);
            let (g3, ends_q) = lower_prog(g2, ef, q);
            assert forall|u: int, l: Edge|
                #![trigger end_count(ends_p + ends_q, u, l)]
                end_count(ends_q, u, l) + end_count(ends_p + frame, u, l) == end_count(ends_p + ends_q, u, l)
                    + end_count(frame, u, l) by {
                lemma_end_count_add(ends_p, frame, u, l);
                lemma_end_count_add(ends_p, ends_q, u, l);
            }
            lemma_regroup(g3, ends_q, ends_p + frame, ends_p + ends_q, frame);
            lemma_grows_trans(g, g1, g2);
            lemma_grows_trans(g, g2, g3);
            assert forall|i: int| 0 <= i < (ends_p + ends_q).len() implies (#[trigger] (ends_p + ends_q)[i]).source
                >= g.nodes.len() by {
                if i < ends_p.len() {
                    assert((ends_p + ends_q)[i] == ends_p[i]);
                    if p.len() > 0 {
                        assert(ends_p[i].source >= g1.nodes.len());
                    }
                } else {
                    assert((ends_p + ends_q)[i] == ends_q[i - ends_p.len()]);
                    if q.len() > 0 {
                        assert(ends_q[i - ends_p.len()].source >= g2.nodes.len());
                    }
                }
            }
            assert forall|i: int| 0 <= i < (ends_p + ends_q).len() implies 0 <= (#[trigger] (ends_p + ends_q)[i]).source
                < g3.nodes.len() by {
                if i < ends_p.len() {
                    assert((ends_p + ends_q)[i] == ends_p[i]);
                    assert(ends_p[i].source < g2.nodes.len());
                } else {
                    assert((ends_p + ends_q)[i] == ends_q[i - ends_p.len()]);
                }
            }
        },
        AtomView::While(b, p) => {
            let node = NodeView::Branch(b);
            let et = seq![LooseEnd { source: s, label: Edge::True }];
            let ef = seq![LooseEnd { source: s, label: Edge::False }];
            lemma_guard_ends(s, b);
            lemma_new_node(g, ends, frame, node, guard_ends(s));
            let g1 = wire(g.with_node(node), ends, s);
            assert forall|u: int, l: Edge|
                #![trigger end_count(et, u, l)]
                end_count(guard_ends(s), u, l) + end_count(frame, u, l) == end_count(et, u, l) + end_count(
                    ef + frame,
                    u,
                    l,
                ) by {
                lemma_end_count_add(et, ef, u, l);
                lemma_end_count_add(ef, frame, u, l);
            }
            lemma_regroup(g1, guard_ends(s), frame, et, ef + frame);
            lemma_lower_prog(g1, et, ef + frame, p);
            let (g2, ends_p) = lower_prog(g1, et, p);
            let h = wire(g2, ends_p, s);
            lemma_grows_trans(g, g1, g2);
            assert(grows(g, g2));
            assert(h.nodes == g2.nodes);
            assert forall|i: int| 0 <= i < h.edges.len() implies 0 <= (#[trigger] h.edges[i]).source
                < h.nodes.len() && 0 <= h.edges[i].target < h.nodes.len() by {
                if i < g2.edges.len() {
                    assert(h.edges[i] == g2.edges[i]);
                } else {
                    assert(h.edges[i] == wiring(ends_p, s)[i - g2.edges.len()]);
                    assert(0 <= ends_p[i - g2.edges.len()].source < g2.nodes.len());
                }
            }
            assert forall|j: int| g.edges.len() <= j < h.edges.len() implies (#[trigger] h.edges[j]).target
                >= g.nodes.len() by {
                if j < g2.edges.len() {
                    assert(h.edges[j] == g2.edges[j]);
                } else {
                    assert(h.edges[j] == wiring(ends_p, s)[j - g2.edges.len()]);
                }
            }
            assert forall|i: int| g.nodes.len() <= i < h.nodes.len() implies is_statement(#[trigger] h.nodes[i])
                && has_pred(h.edges, i) by {
                assert(grows(g, g2));
                assert(h.nodes[i] == g2.nodes[i]);
                assert(is_statement(g2.nodes[i]) && has_pred(g2.edges, i));
                let j = choose|j: int| 0 <= j < g2.edges.len() && (#[trigger] g2.edges[j]).target == i;
                assert(h.edges[j] == g2.edges[j]);
            }
            assert forall|j: int| 0 <= j < g.edges.len() implies h.edges[j] == g.edges[j] by {
                assert(h.edges[j] == g2.edges[j]);
            }
            assert(grows(g, h));
            assert forall|u: int, l: Edge| 0 <= u < h.nodes.len() implies #[trigger] out_count(h.edges, u, l)
                + end_count(ef, u, l) + end_count(frame, u, l) == capacity(h.nodes[u], l) by {
                lemma_wire(g2, ends_p, s, u, l);
                lemma_end_count_add(ef, frame, u, l);
                assert(out_count(g2.edges, u, l) + end_count(ends_p, u, l) + end_count(ef + frame, u, l)
                    == capacity(g2.nodes[u], l));
            }
        },
    }
}

/// Lowering a sequence of statements into a balanced graph leaves a
/// balanced graph that continues it.
proof fn lemma_lower_prog(g: GraphView, ends: Seq<LooseEnd>, frame: Seq<LooseEnd>, p: Seq<AtomView>)
    requires
        g.edges_in_range(),
        ends_in_range(ends, g.nodes.len()),
        ends_in_range(frame, g.nodes.len()),
        ends.len() >= 1,
        balanced(g, ends, frame),
    ensures
        lowering_step(g, ends, frame, lower_prog(g, ends, p).0, lower_prog(g, ends, p).1),
        p.len() == 0 ==> lower_prog(g, ends, p) == (g, ends),
        p.len() > 0 ==> ends_from(lower_prog(g, ends, p).1, g.nodes.len()),
    decreases p,
{
    if p.len() > 0 {
        lemma_lower_atom(g, ends, frame, p[0]);
        let (g1, ends1) = lower_atom(g, ends, p[0]);
        lemma_lower_prog(g1, ends1, frame, p.drop_first());
        lemma_grows_trans(g, g1, lower_prog(g1, ends1, p.drop_first()).0);
        let out = lower_prog(g1, ends1, p.drop_first()).1;
        assert forall|i: int| 0 <= i < out.len() implies (#[trigger] out[i]).source >= g.nodes.len() by {
            if p.drop_first().len() > 0 {
                assert(out[i].source >= g1.nodes.len());
            }
        }
    }
}

/// The operations of the nodes that a sequence of statements becomes:
/// each statement followed by the statements nested in it, in the order
/// in which they are written.
pub open spec fn statement_nodes(p: Seq<AtomView>) -> Seq<NodeView>
    decreases p,
{
    if p.len() == 0 {
        Seq::empty()
    } else {
        statement_node(p[0]) + statement_nodes(p.drop_first())
    }
}

/// The operations of the nodes that a statement becomes.
pub open spec fn statement_node(a: AtomView) -> Seq<NodeView>
    decreases a,
{
    match a {
        AtomView::Skip => seq![NodeView::Skip],
        AtomView::Assign(x, e) => seq![NodeView::Assign(x, e)],
        AtomView::Cond(b, p, q) => seq![NodeView::Branch(b)] + statement_nodes(p) + statement_nodes(q),
        AtomView::While(b, p) => seq![NodeView::Branch(b)] + statement_nodes(p),
    }
}

/// Lowering a statement appends one node for each statement in it.
proof fn lemma_nodes_atom(g: GraphView, ends: Seq<LooseEnd>, a: AtomView)
    ensures
        lower_atom(g, ends, a).0.nodes == g.nodes + statement_node(a),
    decreases a,
{
    let s = g.nodes.len() as int;
    match a {
        AtomView::Skip => {
            assert(lower_atom(g, ends, a).0.nodes =~= g.nodes + statement_node(a));
        },
        AtomView::Assign(x, e) => {
            assert(lower_atom(g, ends, a).0.nodes =~= g.nodes + statement_node(a));
        },
        AtomView::Cond(b, p, q) => {
            let g1 = wire(g.with_node(NodeView::Branch(b)), ends, s);
            let et = seq![LooseEnd { source: s, label: Edge::True }];
            let ef = seq![LooseEnd { source: s, label: Edge::False }];
            lemma_nodes_prog(g1, et, p);
            let g2 = lower_prog(g1, et, p).0;
            lemma_nodes_prog(g2, ef, q);
            assert(lower_atom(g, ends, a).0.nodes =~= g.nodes + statement_node(a));
        },
        AtomView::While(b, p) => {
            let g1 = wire(g.with_node(NodeView::Branch(b)), ends, s);
            let et = seq![LooseEnd { source: s, label: Edge::True }];
            lemma_nodes_prog(g1, et, p);
            assert(lower_atom(g, ends, a).0.nodes =~= g.nodes + statement_node(a));
        },
    }
}

/// Lowering a sequence of statements appends one node for each statement
/// in it.
proof fn lemma_nodes_prog(g: GraphView, ends: Seq<LooseEnd>, p: Seq<AtomView>)
    ensures
        lower_prog(g, ends, p).0.nodes == g.nodes + statement_nodes(p),
    decreases p,
{
    if p.len() == 0 {
        assert(g.nodes =~= g.nodes + statement_nodes(p));
    } else {
        lemma_nodes_atom(g, ends, p[0]);
        let (g1, ends1) = lower_atom(g, ends, p[0]);
        lemma_nodes_prog(g1, ends1, p.drop_first());
        assert(lower_prog(g, ends, p).0.nodes =~= g.nodes + statement_nodes(p));
    }
}

/// The nodes of a program's control-flow graph are the entry, then one
/// node for each statement of the program in the order in which the
/// statements are written, then the terminal if there is one: every
/// `Assign` and `Branch` node stands for one statement, and every
/// statement for one node.
pub proof fn lemma_lowered_nodes(p: Seq<AtomView>)
    ensures
        lowered(p).nodes == seq![NodeView::Init] + statement_nodes(p) + if dangling(final_ends(p)).len() > 0 {
            seq![NodeView::Terminal]
        } else {
            Seq::<NodeView>::empty()
        },
{
    lemma_nodes_prog(entry_graph(), entry_ends(), p);
    assert(lowered(p).nodes =~= seq![NodeView::Init] + statement_nodes(p) + if dangling(final_ends(p)).len() > 0 {
        seq![NodeView::Terminal]
    } else {
        Seq::<NodeView>::empty()
    });
}

/// The control-flow graph of every program has the shape that
/// `flow_invariants` describes, with node 0 as its entry. It has a
/// `Terminal` node exactly if lowering left a loose end with the outcome of
/// a guard, and if the program is not empty, the entry has one outgoing
/// edge: the first edge, a plain one to node 1.
#[verifier::rlimit(50)]
#[verifier::spinoff_prover]
pub proof fn lemma_lowered_invariants(p: Seq<AtomView>)
    ensures
        flow_invariants(lowered(p), 0),
        (exists|i: int| 0 <= i < lowered(p).nodes.len() && lowered(p).nodes[i] == NodeView::Terminal)
            <==> dangling(final_ends(p)).len() > 0,
        p.len() > 0 ==> {
            &&& lowered(p).edges.len() > 0
            &&& lowered(p).edges[0] == FlowEdge { source: 0, target: 1, label: Edge::Plain }
            &&& out_count(lowered(p).edges, 0, Edge::Plain) == 1
        },
{
    let g0 = entry_graph();
    let e0 = entry_ends();
    let none = Seq::<LooseEnd>::empty();
    assert forall|u: int, l: Edge| 0 <= u < g0.nodes.len() implies #[trigger] out_count(g0.edges, u, l)
        + end_count(e0, u, l) + end_count(none, u, l) == capacity(g0.nodes[u], l) by {
        lemma_end_count_single(LooseEnd { source: 0, label: Edge::Plain }, u, l);
    }
    lemma_lower_prog(g0, e0, none, p);
    let (g, ends) = lower_prog(g0, e0, p);
    let d = dangling(ends);
    let h = lowered(p);
    let t = g.nodes.len() as int;
    assert(g.nodes[0] == g0.nodes[0]);
    assert forall|u: int, l: Edge| true implies end_count(d, u, l) == if l != Edge::Plain {
        end_count(ends, u, l)
    } else {
        0nat
    } by {
        lemma_dangling(ends, g.nodes.len(), u, l);
    }
    lemma_dangling(ends, g.nodes.len(), 0, Edge::Plain);
    assert forall|u: int, l: Edge| 0 <= u < g.nodes.len() implies out_count(g.edges, u, l) + end_count(d, u, l)
        == if l != Edge::Plain {
        capacity(g.nodes[u], l)
    } else {
        out_count(g.edges, u, l)
    } by {
        assert(out_count(g.edges, u, l) + end_count(ends, u, l) + end_count(none, u, l) == capacity(
            g.nodes[u],
            l,
        ));
    }
    assert forall|u: int| 0 <= u < g.nodes.len() implies out_count(g.edges, u, Edge::Plain) <= capacity(
        g.nodes[u],
        Edge::Plain,
    ) by {
        assert(out_count(g.edges, u, Edge::Plain) + end_count(ends, u, Edge::Plain) + end_count(
            none,
            u,
            Edge::Plain,
        ) == capacity(g.nodes[u], Edge::Plain));
    }
    assert(g0.nodes.len() == 1);
    assert(g0.edges.len() == 0);
    assert(grows(g0, g));
    assert forall|i: int| 1 <= i < g.nodes.len() implies is_statement(g.nodes[i]) && has_pred(g.edges, i) by {
        assert(g0.nodes.len() <= i < g.nodes.len());
        assert(is_statement(g.nodes[i]) && has_pred(g.edges, i));
    }
    if d.len() > 0 {
        assert(h == wire(g.with_node(NodeView::Terminal), d, t));
        assert(h.nodes[t] == NodeView::Terminal);
        assert forall|i: int| 0 <= i < h.edges.len() implies 0 <= (#[trigger] h.edges[i]).source < h.nodes.len()
            && 0 <= h.edges[i].target < h.nodes.len() && h.edges[i].target != 0 by {
            if i < g.edges.len() {
                assert(h.edges[i] == g.edges[i]);
                assert(g.edges[i].target >= g0.nodes.len());
            } else {
                assert(h.edges[i] == wiring(d, t)[i - g.edges.len()]);
                assert(0 <= d[i - g.edges.len()].source < g.nodes.len());
            }
        }
        assert(h.edges[g.edges.len() as int] == wiring(d, t)[0]);
        assert(has_pred(h.edges, t));
        assert forall|i: int| 0 <= i < h.nodes.len() && i != 0 implies has_pred(h.edges, i) by {
            if i < t {
                assert(has_pred(g.edges, i));
                let j = choose|j: int| 0 <= j < g.edges.len() && (#[trigger] g.edges[j]).target == i;
                assert(h.edges[j] == g.edges[j]);
            }
        }
        assert forall|u: int, l: Edge| 0 <= u < h.nodes.len() implies #[trigger] out_count(h.edges, u, l) == (if u
            < t {
            out_count(g.edges, u, l) + end_count(d, u, l)
        } else {
            0
        }) by {
            lemma_wire(g.with_node(NodeView::Terminal), d, t, u, l);
            if u >= t {
                lemma_out_count_none(g.edges, g.nodes.len(), u, l);
                lemma_end_count_none(d, g.nodes.len(), u, l);
            }
        }
        assert forall|i: int| 0 <= i < h.nodes.len() && h.nodes[i] == NodeView::Init implies i == 0 by {
            if 1 <= i < t {
                assert(is_statement(g.nodes[i]));
            }
        }
        assert forall|i: int| 0 <= i < h.nodes.len() && h.nodes[i] == NodeView::Terminal implies i
            == h.nodes.len() - 1 by {
            if 1 <= i < t {
                assert(is_statement(g.nodes[i]));
            }
        }
        assert forall|i: int, l: Edge| 0 <= i < h.nodes.len() && h.nodes[i] is Branch implies #[trigger] out_count(
            h.edges,
            i,
            l,
        ) == if l == Edge::Plain {
            0nat
        } else {
            1nat
        } by {
            assert(h.nodes[i] == g.nodes[i]);
            assert(out_count(g.edges, i, l) + end_count(d, i, l) == if l != Edge::Plain {
                capacity(g.nodes[i], l)
            } else {
                out_count(g.edges, i, l)
            });
            assert(out_count(g.edges, i, Edge::Plain) <= capacity(g.nodes[i], Edge::Plain));
        }
        assert forall|i: int, l: Edge|
            0 <= i < h.nodes.len() && !(h.nodes[i] is Branch) && l != Edge::Plain implies #[trigger] out_count(
            h.edges,
            i,
            l,
        ) == 0 by {
            if i < t {
                assert(h.nodes[i] == g.nodes[i]);
                assert(out_count(g.edges, i, l) + end_count(d, i, l) == if l != Edge::Plain {
                    capacity(g.nodes[i], l)
                } else {
                    out_count(g.edges, i, l)
                });
            }
        }
        assert forall|i: int| 0 <= i < h.nodes.len() && !(h.nodes[i] is Branch) implies #[trigger] out_count(
            h.edges,
            i,
            Edge::Plain,
        ) <= 1 by {
            if i < t {
                assert(h.nodes[i] == g.nodes[i]);
                assert(out_count(g.edges, i, Edge::Plain) <= capacity(g.nodes[i], Edge::Plain));
                assert(end_count(d, i, Edge::Plain) == 0);
            }
        }
        assert(flow_invariants(h, 0));
    } else {
        assert(h == g);
        assert forall|j: int| 0 <= j < g.edges.len() implies (#[trigger] g.edges[j]).target != 0 by {
            assert(g.edges[j].target >= g0.nodes.len());
        }
        assert forall|i: int, l: Edge| 0 <= i < g.nodes.len() && g.nodes[i] is Branch implies #[trigger] out_count(
            g.edges,
            i,
            l,
        ) == if l == Edge::Plain {
            0nat
        } else {
            1nat
        } by {
            assert(out_count(g.edges, i, l) + end_count(d, i, l) == if l != Edge::Plain {
                capacity(g.nodes[i], l)
            } else {
                out_count(g.edges, i, l)
            });
            assert(out_count(g.edges, i, Edge::Plain) <= capacity(g.nodes[i], Edge::Plain));
            assert(d =~= Seq::<LooseEnd>::empty());
        }
        assert forall|i: int, l: Edge|
            0 <= i < g.nodes.len() && !(g.nodes[i] is Branch) && l != Edge::Plain implies #[trigger] out_count(
            g.edges,
            i,
            l,
        ) == 0 by {
            assert(out_count(g.edges, i, l) + end_count(d, i, l) == if l != Edge::Plain {
                capacity(g.nodes[i], l)
            } else {
                out_count(g.edges, i, l)
            });
        }
        assert forall|i: int| 0 <= i < g.nodes.len() && !(g.nodes[i] is Branch) implies #[trigger] out_count(
            g.edges,
            i,
            Edge::Plain,
        ) <= 1 by {
            assert(out_count(g.edges, i, Edge::Plain) <= capacity(g.nodes[i], Edge::Plain));
        }
        assert forall|i: int| 0 <= i < g.nodes.len() implies g.nodes[i] != NodeView::Terminal && (g.nodes[i]
            == NodeView::Init ==> i == 0) by {
            if i >= 1 {
                assert(is_statement(g.nodes[i]));
            }
        }
        assert(flow_invariants(h, 0));
    }
    if p.len() > 0 {
        lemma_entry_edge(p);
        assert(ends_from(ends, g0.nodes.len()));
        lemma_end_count_from(ends, 1, 0, Edge::Plain);
        assert(out_count(g.edges, 0, Edge::Plain) + end_count(ends, 0, Edge::Plain) + end_count(
            none,
            0,
            Edge::Plain,
        ) == capacity(g.nodes[0], Edge::Plain));
        if d.len() > 0 {
            assert(h.edges[0] == g.edges[0]);
            assert(out_count(h.edges, 0, Edge::Plain) == out_count(g.edges, 0, Edge::Plain) + end_count(
                d,
                0,
                Edge::Plain,
            ));
        }
    }
}

proof fn lemma_end_count_from(ends: Seq<LooseEnd>, k: nat, n: int, l: Edge)
    requires
        ends_from(ends, k),
        n < k,
    ensures
        end_count(ends, n, l) == 0,
    decreases ends.len(),
{
    if ends.len() > 0 {
        assert(ends[ends.len() - 1].source >= k);
        assert forall|i: int| 0 <= i < ends.drop_last().len() implies (#[trigger] ends.drop_last()[i]).source
            >= k by {
            assert(ends.drop_last()[i] == ends[i]);
        }
        lemma_end_count_from(ends.drop_last(), k, n, l);
    }
}

/// Lowering keeps the edges that are there.
proof fn lemma_edges_kept_atom(g: GraphView, ends: Seq<LooseEnd>, a: AtomView)
    ensures
        lower_atom(g, ends, a).0.edges.len() >= g.edges.len() + ends.len(),
        forall|j: int| 0 <= j < g.edges.len() + ends.len() ==> lower_atom(g, ends, a).0.edges[j] == (g.edges
            + wiring(ends, g.nodes.len() as int))[j],
    decreases a,
{
    let s = g.nodes.len() as int;
    let h = lower_atom(g, ends, a).0;
    match a {
        AtomView::Skip => {},
        AtomView::Assign(x, e) => {},
        AtomView::Cond(b, p, q) => {
            let g1 = wire(g.with_node(NodeView::Branch(b)), ends, s);
            let et = seq![LooseEnd { source: s, label: Edge::True }];
            let ef = seq![LooseEnd { source: s, label: Edge::False }];
            lemma_edges_kept_prog(g1, et, p);
            let g2 = lower_prog(g1, et, p).0;
            lemma_edges_kept_prog(g2, ef, q);
            assert forall|j: int| 0 <= j < g.edges.len() + ends.len() implies h.edges[j] == (g.edges + wiring(
                ends,
                s,
            ))[j] by {
                assert(h.edges[j] == g2.edges[j]);
                assert(g2.edges[j] == g1.edges[j]);
            }
        },
        AtomView::While(b, p) => {
            let g1 = wire(g.with_node(NodeView::Branch(b)), ends, s);
            let et = seq![LooseEnd { source: s, label: Edge::True }];
            lemma_edges_kept_prog(g1, et, p);
            let g2 = lower_prog(g1, et, p).0;
            assert forall|j: int| 0 <= j < g.edges.len() + ends.len() implies h.edges[j] == (g.edges + wiring(
                ends,
                s,
            ))[j] by {
                assert(h.edges[j] == g2.edges[j]);
                assert(g2.edges[j] == g1.edges[j]);
            }
        },
    }
}

proof fn lemma_edges_kept_prog(g: GraphView, ends: Seq<LooseEnd>, p: Seq<AtomView>)
    ensures
        lower_prog(g, ends, p).0.edges.len() >= g.edges.len(),
        forall|j: int| 0 <= j < g.edges.len() ==> lower_prog(g, ends, p).0.edges[j] == g.edges[j],
    decreases p,
{
    if p.len() > 0 {
        lemma_edges_kept_atom(g, ends, p[0]);
        let (g1, ends1) = lower_atom(g, ends, p[0]);
        lemma_edges_kept_prog(g1, ends1, p.drop_first());
        let h = lower_prog(g1, ends1, p.drop_first()).0;
        assert forall|j: int| 0 <= j < g.edges.len() implies h.edges[j] == g.edges[j] by {
            assert(h.edges[j] == g1.edges[j]);
            assert(g1.edges[j] == (g.edges + wiring(ends, g.nodes.len() as int))[j]);
        }
    }
}

/// The first edge of the graph of a program that is not empty joins the
/// entry to node 1.
proof fn lemma_entry_edge(p: Seq<AtomView>)
    requires
        p.len() > 0,
    ensures
        lower_prog(entry_graph(), entry_ends(), p).0.edges.len() > 0,
        lower_prog(entry_graph(), entry_ends(), p).0.edges[0] == (FlowEdge {
            source: 0,
            target: 1,
            label: Edge::Plain,
        }),
{
    let g0 = entry_graph();
    let e0 = entry_ends();
    lemma_edges_kept_atom(g0, e0, p[0]);
    let (g1, ends1) = lower_atom(g0, e0, p[0]);
    lemma_edges_kept_prog(g1, ends1, p.drop_first());
    assert((g0.edges + wiring(e0, 1))[0] == FlowEdge { source: 0, target: 1, label: Edge::Plain });
    assert(g1.edges[0] == (g0.edges + wiring(e0, 1))[0]);
}

} // verus!
