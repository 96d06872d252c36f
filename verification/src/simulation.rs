//! The runs of the interpreter are runs of the control-flow graph.

use vstd::prelude::*;
use crate::ast::AtomView;
use crate::cfg::{Edge, GraphView, LooseEnd, NodeView, dangling, entry_ends, entry_graph, lower_atom, lower_prog,
    lowered, wire, wiring};
use crate::aexp::AExpView;
use crate::cfg::CfgView;
use crate::common::Name;
use crate::flow_analysis::avail_exp::{ExpSetLat, node_terms};
use crate::flow_analysis::const_prop::{ConstLat, MultiConstLat};
use crate::flow_analysis::mfp::{MfpAnnot, solved};
use crate::flow_analysis::soundness::{RunState, describes, effect, is_run, lemma_available_on_run,
    lemma_constants_sound, steps_to, taken};
use crate::interpreter::{aexp_value, mem_lookup};
use crate::well_formed::lemma_lowered_invariants;
use crate::graph::FlowEdge;
use crate::interpreter::{Memory, bexp_value, initial_memory, run_atom, run_prog};

verus! {

/// Whether the graph `h` has the nodes and edges of `g` under their
/// indices.
pub open spec fn extends(g: GraphView, h: GraphView) -> bool {
    &&& g.nodes.len() <= h.nodes.len()
    &&& g.edges.len() <= h.edges.len()
    &&& forall|i: int| 0 <= i < g.nodes.len() ==> #[trigger] h.nodes[i] == g.nodes[i]
    &&& forall|j: int| 0 <= j < g.edges.len() ==> #[trigger] h.edges[j] == g.edges[j]
}

/// Whether the graph `h` has an edge from `u` to `t` with the label `l`.
pub open spec fn has_edge(h: GraphView, u: int, t: int, l: Edge) -> bool {
    exists|j: int| 0 <= j < h.edges.len() && #[trigger] h.edges[j] == (FlowEdge { source: u, target: t, label: l })
}

/// Whether the graph `h` joins every loose end of `ends` to the node `t`.
pub open spec fn enters(h: GraphView, ends: Seq<LooseEnd>, t: int) -> bool {
    forall|e: int| 0 <= e < ends.len() ==> has_edge(h, (#[trigger] ends[e]).source, t, ends[e].label)
}

/// The operation of the node that a statement becomes.
pub open spec fn node_of(a: AtomView) -> NodeView {
    match a {
        AtomView::Skip => NodeView::Skip,
        AtomView::Assign(x, e) => NodeView::Assign(x, e),
        AtomView::Cond(b, _, _) => NodeView::Branch(b),
        AtomView::While(b, _) => NodeView::Branch(b),
    }
}

/// A graph extends the graphs that a graph which it extends extends.
pub(crate) proof fn lemma_extends_trans(g: GraphView, h: GraphView, k: GraphView)
    requires
        extends(g, h),
        extends(h, k),
    ensures
        extends(g, k),
{
    assert forall|i: int| 0 <= i < g.nodes.len() implies #[trigger] k.nodes[i] == g.nodes[i] by {
        assert(h.nodes[i] == g.nodes[i]);
    }
    assert forall|j: int| 0 <= j < g.edges.len() implies #[trigger] k.edges[j] == g.edges[j] by {
        assert(h.edges[j] == g.edges[j]);
    }
}

/// Joining loose ends to the node `t` of a graph extends the graph by the
/// edges that join them.
pub(crate) proof fn lemma_wire(g: GraphView, ends: Seq<LooseEnd>, t: int)
    ensures
        extends(g, wire(g, ends, t)),
        enters(wire(g, ends, t), ends, t),
        wire(g, ends, t).nodes == g.nodes,
{
    let h = wire(g, ends, t);
    assert forall|e: int| 0 <= e < ends.len() implies has_edge(h, (#[trigger] ends[e]).source, t, ends[e].label) by {
        assert(h.edges[g.edges.len() + e] == wiring(ends, t)[e]);
    }
}

/// A graph that extends a graph joins the loose ends that the graph joins.
proof fn lemma_enters_kept(g: GraphView, h: GraphView, ends: Seq<LooseEnd>, t: int)
    requires
        extends(g, h),
        enters(g, ends, t),
    ensures
        enters(h, ends, t),
{
    assert forall|e: int| 0 <= e < ends.len() implies has_edge(h, (#[trigger] ends[e]).source, t, ends[e].label) by {
        assert(has_edge(g, ends[e].source, t, ends[e].label));
        let j = choose|j: int|
            0 <= j < g.edges.len() && #[trigger] g.edges[j] == (FlowEdge {
                source: ends[e].source,
                target: t,
                label: ends[e].label,
            });
        assert(h.edges[j] == g.edges[j]);
    }
}

/// Lowering a statement extends the graph by a node with the statement's
/// operation, to which it joins the loose ends, and by more.
#[verifier::rlimit(50)]
#[verifier::spinoff_prover]
pub(crate) proof fn lemma_lowering_atom(g: GraphView, ends: Seq<LooseEnd>, a: AtomView)
    ensures
        extends(g, lower_atom(g, ends, a).0),
        g.nodes.len() < lower_atom(g, ends, a).0.nodes.len(),
        lower_atom(g, ends, a).0.nodes[g.nodes.len() as int] == node_of(a),
        enters(lower_atom(g, ends, a).0, ends, g.nodes.len() as int),
    decreases a,
{
    let s = g.nodes.len() as int;
    let g0 = g.with_node(node_of(a));
    let g1 = wire(g0, ends, s);
    lemma_wire(g0, ends, s);
    assert(extends(g, g1));
    match a {
        AtomView::Skip => {},
        AtomView::Assign(_, _) => {},
        AtomView::Cond(b, p, q) => {
            let et = seq![LooseEnd { source: s, label: Edge::True }];
            let ef = seq![LooseEnd { source: s, label: Edge::False }];
            lemma_lowering_prog(g1, et, p);
            let g2 = lower_prog(g1, et, p).0;
            lemma_lowering_prog(g2, ef, q);
            let g3 = lower_prog(g2, ef, q).0;
            lemma_extends_trans(g1, g2, g3);
            lemma_extends_trans(g, g1, g3);
            lemma_enters_kept(g1, g3, ends, s);
            assert(g3.nodes[s] == g1.nodes[s]);
        },
        AtomView::While(b, p) => {
            let et = seq![LooseEnd { source: s, label: Edge::True }];
            lemma_lowering_prog(g1, et, p);
            let g2 = lower_prog(g1, et, p).0;
            let ep = lower_prog(g1, et, p).1;
            lemma_wire(g2, ep, s);
            let g3 = wire(g2, ep, s);
            lemma_extends_trans(g1, g2, g3);
            lemma_extends_trans(g, g1, g3);
            lemma_enters_kept(g1, g3, ends, s);
            assert(g3.nodes[s] == g1.nodes[s]);
        },
    }
}

/// Lowering a sequence of statements extends the graph, and joins the
/// loose ends to its first new node if there is a statement.
proof fn lemma_lowering_prog(g: GraphView, ends: Seq<LooseEnd>, p: Seq<AtomView>)
    ensures
        extends(g, lower_prog(g, ends, p).0),
        p.len() > 0 ==> g.nodes.len() < lower_prog(g, ends, p).0.nodes.len() && enters(
            lower_prog(g, ends, p).0,
            ends,
            g.nodes.len() as int,
        ),
    decreases p,
{
    if p.len() > 0 {
        lemma_lowering_atom(g, ends, p[0]);
        let (g1, ends1) = lower_atom(g, ends, p[0]);
        lemma_lowering_prog(g1, ends1, p.drop_first());
        lemma_extends_trans(g, g1, lower_prog(g1, ends1, p.drop_first()).0);
        lemma_enters_kept(g1, lower_prog(g1, ends1, p.drop_first()).0, ends, g.nodes.len() as int);
    }
}

/// Whether each state of `seg` is a state of the graph `h` and can follow
/// the state before it.
pub open spec fn chain(h: GraphView, seg: Seq<RunState>) -> bool {
    &&& forall|k: int| 0 <= k < seg.len() ==> 0 <= (#[trigger] seg[k]).node < h.nodes.len()
    &&& forall|k: int| 0 <= k < seg.len() - 1 ==> steps_to(h, #[trigger] seg[k], seg[k + 1])
}

/// Whether a run that is in the state `s` leaves its node along one of
/// the loose ends `ends`, with the memory `m`.
pub open spec fn leaves(h: GraphView, s: RunState, ends: Seq<LooseEnd>, m: Memory) -> bool {
    &&& effect(h.nodes[s.node], s.mem) == m
    &&& exists|e: int|
        0 <= e < ends.len() && (#[trigger] ends[e]).source == s.node && taken(h.nodes[s.node], s.mem, ends[e].label)
}

/// A state that leaves along a loose end that the graph joins to the node
/// `t` steps to `t`.
proof fn lemma_leaves_steps(h: GraphView, s: RunState, ends: Seq<LooseEnd>, m: Memory, t: int)
    requires
        leaves(h, s, ends, m),
        enters(h, ends, t),
    ensures
        steps_to(h, s, RunState { node: t, mem: m }),
{
    let e = choose|e: int|
        0 <= e < ends.len() && (#[trigger] ends[e]).source == s.node && taken(h.nodes[s.node], s.mem, ends[e].label);
    assert(has_edge(h, ends[e].source, t, ends[e].label));
    let j = choose|j: int|
        0 <= j < h.edges.len() && #[trigger] h.edges[j] == (FlowEdge {
            source: ends[e].source,
            target: t,
            label: ends[e].label,
        });
    assert(h.edges[j].source == s.node && h.edges[j].target == t && taken(h.nodes[s.node], s.mem, h.edges[j].label));
}

/// Two chains, of which the second starts with a state that can follow
/// the last state of the first, are a chain.
proof fn lemma_chain_join(h: GraphView, a: Seq<RunState>, b: Seq<RunState>)
    requires
        chain(h, a),
        chain(h, b),
        a.len() > 0,
        b.len() > 0,
        steps_to(h, a.last(), b[0]),
    ensures
        chain(h, a + b),
        (a + b).len() > 0,
        (a + b)[0] == a[0],
        (a + b).last() == b.last(),
{
    let c = a + b;
    assert forall|k: int| 0 <= k < c.len() implies 0 <= (#[trigger] c[k]).node < h.nodes.len() by {
        if k < a.len() {
            assert(c[k] == a[k]);
        } else {
            assert(c[k] == b[k - a.len()]);
        }
    }
    assert forall|k: int| 0 <= k < c.len() - 1 implies steps_to(h, #[trigger] c[k], c[k + 1]) by {
        if k < a.len() - 1 {
            assert(c[k] == a[k] && c[k + 1] == a[k + 1]);
        } else if k == a.len() - 1 {
            assert(c[k] == a[a.len() - 1] && c[k + 1] == b[0]);
        } else {
            assert(c[k] == b[k - a.len()] && c[k + 1] == b[k - a.len() + 1]);
            assert(steps_to(h, b[k - a.len()], b[k - a.len() + 1]));
        }
    }
}

/// Whether `seg` is a run through the graph `h` that enters the node `s`
/// with the memory `m` and leaves its last node along one of the loose
/// ends `out` with the memory `m2`.
pub open spec fn executes(
    h: GraphView,
    seg: Seq<RunState>,
    s: int,
    m: Memory,
    out: Seq<LooseEnd>,
    m2: Memory,
) -> bool {
    &&& seg.len() > 0
    &&& seg[0] == (RunState { node: s, mem: m })
    &&& chain(h, seg)
    &&& leaves(h, seg.last(), out, m2)
}

/// The run of one state.
proof fn lemma_single(h: GraphView, s: int, m: Memory, out: Seq<LooseEnd>, e: int)
    requires
        0 <= s < h.nodes.len(),
        0 <= e < out.len(),
        out[e].source == s,
        taken(h.nodes[s], m, out[e].label),
    ensures
        executes(h, seq![RunState { node: s, mem: m }], s, m, out, effect(h.nodes[s], m)),
{
}

/// A run that leaves along loose ends which the graph joins to the node
/// where a second run starts, with the memory with which it starts, goes
/// on as the second run.
proof fn lemma_executes_join(
    h: GraphView,
    a: Seq<RunState>,
    s: int,
    m: Memory,
    mid: Seq<LooseEnd>,
    m1: Memory,
    b: Seq<RunState>,
    t: int,
    out: Seq<LooseEnd>,
    m2: Memory,
)
    requires
        executes(h, a, s, m, mid, m1),
        enters(h, mid, t),
        executes(h, b, t, m1, out, m2),
    ensures
        executes(h, a + b, s, m, out, m2),
{
    lemma_leaves_steps(h, a.last(), mid, m1, t);
    lemma_chain_join(h, a, b);
}

/// The run of a loop through the graph: the interpreter's run of the loop
/// from the memory `m` is a run through the graph of the loop.
#[verifier::rlimit(50)]
#[verifier::spinoff_prover]
proof fn lemma_sim_while(
    g: GraphView,
    ends: Seq<LooseEnd>,
    a: AtomView,
    h: GraphView,
    fuel: nat,
    m: Memory,
) -> (seg: Seq<RunState>)
    requires
        a is While,
        extends(lower_atom(g, ends, a).0, h),
        run_atom(a, m, fuel) is Some,
    ensures
        executes(h, seg, g.nodes.len() as int, m, lower_atom(g, ends, a).1, run_atom(a, m, fuel)->Some_0),
    decreases fuel, a, 0int,
{
    let b = a->While_0;
    let body = a->While_1;
    let s = g.nodes.len() as int;
    let g1 = wire(g.with_node(NodeView::Branch(b)), ends, s);
    let et = seq![LooseEnd { source: s, label: Edge::True }];
    let (g2, ep) = lower_prog(g1, et, body);
    let g3 = wire(g2, ep, s);
    let out = seq![LooseEnd { source: s, label: Edge::False }];
    assert(lower_atom(g, ends, a) == (g3, out));
    lemma_lowering_atom(g, ends, a);
    assert(h.nodes[s] == g3.nodes[s]);
    assert(h.nodes[s] == NodeView::Branch(b));
    let here = seq![RunState { node: s, mem: m }];
    if !bexp_value(b, m) {
        lemma_single(h, s, m, out, 0);
        here
    } else {
        let m1 = run_prog(body, m, (fuel - 1) as nat)->Some_0;
        let tail = lemma_sim_while(g, ends, a, h, (fuel - 1) as nat, m1);
        lemma_wire(g2, ep, s);
        lemma_enters_kept(g3, h, ep, s);
        lemma_lowering_prog(g1, et, body);
        lemma_extends_trans(g2, g3, h);
        if body.len() == 0 {
            lemma_single(h, s, m, et, 0);
            lemma_executes_join(h, here, s, m, ep, m1, tail, s, out, run_atom(a, m, fuel)->Some_0);
            here + tail
        } else {
            lemma_single(h, s, m, et, 0);
            let mid = lemma_sim_prog(g1, et, body, h, (fuel - 1) as nat, m);
            lemma_enters_kept(g2, h, et, s + 1);
            lemma_executes_join(h, here, s, m, et, m, mid, s + 1, ep, m1);
            lemma_executes_join(h, here + mid, s, m, ep, m1, tail, s, out, run_atom(a, m, fuel)->Some_0);
            here + mid + tail
        }
    }
}

/// The interpreter's run of a statement from the memory `m` is a run
/// through the graph of the statement.
#[verifier::rlimit(50)]
#[verifier::spinoff_prover]
proof fn lemma_sim_atom(
    g: GraphView,
    ends: Seq<LooseEnd>,
    a: AtomView,
    h: GraphView,
    fuel: nat,
    m: Memory,
) -> (seg: Seq<RunState>)
    requires
        extends(lower_atom(g, ends, a).0, h),
        run_atom(a, m, fuel) is Some,
    ensures
        executes(h, seg, g.nodes.len() as int, m, lower_atom(g, ends, a).1, run_atom(a, m, fuel)->Some_0),
    decreases fuel, a, 1int,
{
    let s = g.nodes.len() as int;
    let out = lower_atom(g, ends, a).1;
    let here = seq![RunState { node: s, mem: m }];
    lemma_lowering_atom(g, ends, a);
    assert(h.nodes[s] == lower_atom(g, ends, a).0.nodes[s]);
    match a {
        AtomView::Skip => {
            lemma_single(h, s, m, out, 0);
            here
        },
        AtomView::Assign(x, e) => {
            lemma_single(h, s, m, out, 0);
            here
        },
        AtomView::Cond(b, p, q) => {
            let g1 = wire(g.with_node(NodeView::Branch(b)), ends, s);
            let et = seq![LooseEnd { source: s, label: Edge::True }];
            let ef = seq![LooseEnd { source: s, label: Edge::False }];
            let (g2, ep) = lower_prog(g1, et, p);
            let (g3, eq) = lower_prog(g2, ef, q);
            assert(out == ep + eq);
            lemma_lowering_prog(g1, et, p);
            lemma_lowering_prog(g2, ef, q);
            lemma_extends_trans(g2, g3, h);
            let result = run_atom(a, m, fuel)->Some_0;
            if bexp_value(b, m) {
                if p.len() == 0 {
                    assert(out[0] == et[0]);
                    lemma_single(h, s, m, out, 0);
                    here
                } else {
                    lemma_single(h, s, m, et, 0);
                    let rest = lemma_sim_prog(g1, et, p, h, fuel, m);
                    lemma_enters_kept(g2, h, et, s + 1);
                    lemma_executes_join(h, here, s, m, et, m, rest, s + 1, ep, result);
                    lemma_leaves_more(h, (here + rest).last(), ep, eq, result);
                    here + rest
                }
            } else {
                if q.len() == 0 {
                    assert(eq == ef);
                    assert(out[ep.len() as int] == ef[0]);
                    lemma_single(h, s, m, out, ep.len() as int);
                    here
                } else {
                    lemma_single(h, s, m, ef, 0);
                    let rest = lemma_sim_prog(g2, ef, q, h, fuel, m);
                    lemma_enters_kept(g3, h, ef, g2.nodes.len() as int);
                    lemma_executes_join(h, here, s, m, ef, m, rest, g2.nodes.len() as int, eq, result);
                    lemma_leaves_more(h, (here + rest).last(), eq, ep, result);
                    assert(leaves(h, (here + rest).last(), out, result)) by {
                        let st = (here + rest).last();
                        let e = choose|e: int|
                            0 <= e < eq.len() && (#[trigger] eq[e]).source == st.node && taken(
                                h.nodes[st.node],
                                st.mem,
                                eq[e].label,
                            );
                        assert(out[ep.len() + e] == eq[e]);
                    }
                    here + rest
                }
            }
        },
        AtomView::While(b, p) => lemma_sim_while(g, ends, a, h, fuel, m),
    }
}

/// A state that leaves along one of some loose ends leaves along one of
/// those and more.
proof fn lemma_leaves_more(h: GraphView, s: RunState, ends: Seq<LooseEnd>, more: Seq<LooseEnd>, m: Memory)
    requires
        leaves(h, s, ends, m),
    ensures
        leaves(h, s, ends + more, m),
{
    let e = choose|e: int|
        0 <= e < ends.len() && (#[trigger] ends[e]).source == s.node && taken(h.nodes[s.node], s.mem, ends[e].label);
    assert((ends + more)[e] == ends[e]);
}

/// The interpreter's run of a sequence of statements from the memory `m`
/// is a run through the graph of the statements.
#[verifier::rlimit(50)]
#[verifier::spinoff_prover]
proof fn lemma_sim_prog(
    g: GraphView,
    ends: Seq<LooseEnd>,
    p: Seq<AtomView>,
    h: GraphView,
    fuel: nat,
    m: Memory,
) -> (seg: Seq<RunState>)
    requires
        p.len() > 0,
        extends(lower_prog(g, ends, p).0, h),
        run_prog(p, m, fuel) is Some,
    ensures
        executes(h, seg, g.nodes.len() as int, m, lower_prog(g, ends, p).1, run_prog(p, m, fuel)->Some_0),
    decreases fuel, p, 0int,
{
    let s = g.nodes.len() as int;
    let (g1, e1) = lower_atom(g, ends, p[0]);
    let rest = p.drop_first();
    lemma_lowering_prog(g1, e1, rest);
    lemma_extends_trans(g1, lower_prog(g1, e1, rest).0, h);
    let m1 = run_atom(p[0], m, fuel)->Some_0;
    let first = lemma_sim_atom(g, ends, p[0], h, fuel, m);
    if rest.len() == 0 {
        first
    } else {
        let second = lemma_sim_prog(g1, e1, rest, h, fuel, m1);
        lemma_enters_kept(lower_prog(g1, e1, rest).0, h, e1, g1.nodes.len() as int);
        lemma_executes_join(
            h,
            first,
            s,
            m,
            e1,
            m1,
            second,
            g1.nodes.len() as int,
            lower_prog(g, ends, p).1,
            run_prog(p, m, fuel)->Some_0,
        );
        first + second
    }
}

/// Lowering preserves the meaning of a program: where the interpreter's
/// run of the program `p` on the input `input` ends, there is a run
/// through the control-flow graph of `p` that leaves its last node with
/// the memory with which the interpreter ends.
#[verifier::rlimit(50)]
#[verifier::spinoff_prover]
pub proof fn lemma_interpreter_run(p: Seq<AtomView>, input: i32, fuel: nat) -> (run: Seq<RunState>)
    requires
        run_prog(p, initial_memory(input), fuel) is Some,
    ensures
        is_run(lowered(p), 0, input, run),
        effect(lowered(p).nodes[run.last().node], run.last().mem) == run_prog(
            p,
            initial_memory(input),
            fuel,
        )->Some_0,
{
    let g0 = entry_graph();
    let e0 = entry_ends();
    let m = initial_memory(input);
    let h = lowered(p);
    let (g, ends) = lower_prog(g0, e0, p);
    lemma_lowering_prog(g0, e0, p);
    if dangling(ends).len() > 0 {
        lemma_wire(g.with_node(NodeView::Terminal), dangling(ends), g.nodes.len() as int);
        assert(extends(g, g.with_node(NodeView::Terminal)));
        lemma_extends_trans(g, g.with_node(NodeView::Terminal), h);
    }
    assert(extends(g, h));
    lemma_extends_trans(g0, g, h);
    assert(h.nodes[0] == g0.nodes[0]);
    let start = seq![RunState { node: 0, mem: m }];
    if p.len() == 0 {
        assert(chain(h, start));
        start
    } else {
        lemma_single(h, 0, m, e0, 0);
        let seg = lemma_sim_prog(g0, e0, p, h, fuel, m);
        lemma_enters_kept(g, h, e0, 1);
        lemma_executes_join(h, start, 0, m, e0, m, seg, 1, ends, run_prog(p, m, fuel)->Some_0);
        start + seg
    }
}

/// Constant propagation is sound for the interpreter: where the
/// interpreter's run of the program `p` on the input `input` ends, it is
/// a run through the control-flow graph of `p`, and at a fixed point of
/// constant propagation on that graph, every variable that the
/// environment which enters a node maps to a constant holds that constant
/// whenever the run enters the node.
pub proof fn lemma_constants_of_interpreter(
    p: Seq<AtomView>,
    c: CfgView<MfpAnnot<MultiConstLat>>,
    input: i32,
    fuel: nat,
) -> (run: Seq<RunState>)
    requires
        c.wf(),
        c.graph == lowered(p),
        c.init == 0,
        solved::<MultiConstLat>(c),
        run_prog(p, initial_memory(input), fuel) is Some,
    ensures
        is_run(lowered(p), 0, input, run),
        effect(lowered(p).nodes[run.last().node], run.last().mem) == run_prog(
            p,
            initial_memory(input),
            fuel,
        )->Some_0,
        forall|k: int, v: Name|
            0 <= k < run.len() ==> ((#[trigger] c.annots[run[k].node].pre@.lookup(v)) matches ConstLat::Const(n)
                ==> mem_lookup(run[k].mem, v) == n),
{
    let run = lemma_interpreter_run(p, input, fuel);
    lemma_lowered_invariants(p);
    assert forall|k: int, v: Name| 0 <= k < run.len() implies ((#[trigger] c.annots[run[k].node].pre@.lookup(
        v,
    )) matches ConstLat::Const(n) ==> mem_lookup(run[k].mem, v) == n) by {
        lemma_constants_sound(c, input, run, k);
        assert(describes(c.annots[run[k].node].pre@, run[k].mem));
    }
    run
}

/// Available expressions are sound for the interpreter: where the
/// interpreter's run of the program `p` on the input `input` ends, it is
/// a run through the control-flow graph of `p`, and at a fixed point of
/// available expressions on that graph, every expression that is
/// available where the run enters a node was computed by a node that the
/// run entered before, and has had the same value since.
pub proof fn lemma_available_of_interpreter(
    p: Seq<AtomView>,
    c: CfgView<MfpAnnot<ExpSetLat>>,
    input: i32,
    fuel: nat,
) -> (run: Seq<RunState>)
    requires
        c.wf(),
        c.graph == lowered(p),
        c.init == 0,
        solved::<ExpSetLat>(c),
        run_prog(p, initial_memory(input), fuel) is Some,
    ensures
        is_run(lowered(p), 0, input, run),
        effect(lowered(p).nodes[run.last().node], run.last().mem) == run_prog(
            p,
            initial_memory(input),
            fuel,
        )->Some_0,
        forall|k: int, e: AExpView|
            0 <= k < run.len() && #[trigger] c.annots[run[k].node].pre@.contains(e) ==> exists|j: int|
                0 <= j < k && node_terms(c.graph.nodes[(#[trigger] run[j]).node]).contains(e) && aexp_value(
                    e,
                    run[j].mem,
                ) == aexp_value(e, run[k].mem),
{
    let run = lemma_interpreter_run(p, input, fuel);
    assert forall|k: int, e: AExpView|
        0 <= k < run.len() && #[trigger] c.annots[run[k].node].pre@.contains(e) implies exists|j: int|
        0 <= j < k && node_terms(c.graph.nodes[(#[trigger] run[j]).node]).contains(e) && aexp_value(e, run[j].mem)
            == aexp_value(e, run[k].mem) by {
        lemma_available_on_run(c, input, run, k, e);
    }
    run
}

} // verus!
