use vstd::prelude::*;
use vstd::std_specs::cmp::{PartialEqSpec, PartialEqSpecImpl};
use petgraph::Direction;
use crate::cfg::{Cfg, CfgView, GraphView, Node, NodeIdx, NodeView, RawAnnot, has_preds, node_views, preds};
use crate::flow_analysis::common::{FlowSemantics, SemiLat, join, join_all, ref_views};
use crate::graph::{lemma_neighbors, links, neighbors, vec1_as_vec};
use crate::text::Show;
use vstd::string::StringExecFns;

verus! {

/// The annotation of a node with the value that enters it and the value
/// that leaves it.
#[derive(Debug, Clone, Eq, Hash)]
pub struct MfpAnnot<L> {
    pub pre: L,
    pub post: L,
}

impl<L: PartialEq> PartialEq for MfpAnnot<L> {
    fn eq(&self, other: &MfpAnnot<L>) -> (r: bool) {
        self.pre == other.pre && self.post == other.post
    }
}

impl<L: PartialEq> PartialEqSpecImpl for MfpAnnot<L> {
    open spec fn obeys_eq_spec() -> bool {
        L::obeys_eq_spec()
    }

    open spec fn eq_spec(&self, other: &MfpAnnot<L>) -> bool {
        self.pre.eq_spec(&other.pre) && self.post.eq_spec(&other.post)
    }
}

impl<L> MfpAnnot<L> {
    /// The annotation with the values `pre` and `post`.
    pub fn new(pre: L, post: L) -> (r: MfpAnnot<L>)
        ensures
            r.pre == pre,
            r.post == post,
    {
        MfpAnnot { pre, post }
    }
}

impl<L: Show> Show for MfpAnnot<L> {
    open spec fn text(&self) -> Seq<char> {
        "pre: "@ + self.pre.text() + "\npost: "@ + self.post.text()
    }

    fn show(&self, out: &mut String) {
        out.append("pre: ");
        self.pre.show(out);
        out.append("\npost: ");
        self.post.show(out);
        proof {
            assert(final(out)@ =~= old(out)@ + self.text());
        }
    }
}

impl<L: Show> MfpAnnot<L> {
    /// The text of the annotation.
    pub fn to_string(&self) -> (r: String)
        ensures
            r@ == self.text(),
    {
        let mut out = String::new();
        self.show(&mut out);
        proof {
            assert(out@ =~= self.text());
        }
        out
    }
}

/// The mathematical values that leave the nodes.
pub open spec fn post_views<L: View>(annots: Seq<MfpAnnot<L>>) -> Seq<L::V> {
    annots.map_values(|a: MfpAnnot<L>| a.post@)
}

/// The mathematical values that enter the nodes.
pub open spec fn pre_views<L: View>(annots: Seq<MfpAnnot<L>>) -> Seq<L::V> {
    annots.map_values(|a: MfpAnnot<L>| a.pre@)
}

/// The values that leave the predecessors of node `n`.
pub open spec fn entering<V>(g: GraphView, posts: Seq<V>, n: int) -> Seq<V> {
    preds(g, n).map_values(|p: int| posts[p])
}

/// The join of the values that leave the predecessors of node `n`.
pub open spec fn inflow<L: SemiLat>(g: GraphView, posts: Seq<L::V>, n: int) -> L::V {
    join_all::<L>(entering(g, posts, n))
}

/// The equations of node `n`: the value that enters it is the join of the
/// values that leave its predecessors, and the value that leaves it is
/// what the node makes of the value that enters it.
pub open spec fn node_solved<L: FlowSemantics>(g: GraphView, annots: Seq<MfpAnnot<L>>, n: int) -> bool {
    &&& annots[n].pre@ == inflow::<L>(g, post_views(annots), n)
    &&& annots[n].post@ == L::transfer_spec(g.nodes[n], annots[n].pre@)
}

/// The annotations are a fixed point: the entry holds the entry value, and
/// the equations hold at every other node.
pub open spec fn solved<L: FlowSemantics>(c: CfgView<MfpAnnot<L>>) -> bool {
    &&& c.annots[c.init].pre@ == L::init_start_spec()
    &&& c.annots[c.init].post@ == L::init_start_spec()
    &&& forall|n: int| 0 <= n < c.graph.nodes.len() && n != c.init ==> node_solved::<L>(c.graph, c.annots, n)
}

/// Every annotation is a valid representation, and the values that leave
/// the nodes are in scope.
pub open spec fn valid_annots<L: FlowSemantics>(annots: Seq<MfpAnnot<L>>, nodes: Seq<NodeView>) -> bool {
    forall|i: int|
        0 <= i < annots.len() ==> {
            &&& (#[trigger] annots[i]).pre.lat_wf()
            &&& annots[i].post.lat_wf()
            &&& L::in_scope(annots[i].post@, nodes)
        }
}

/// At every node but the entry, the value that leaves it is below what
/// the node makes of the values that leave its predecessors.
pub open spec fn ascending<L: FlowSemantics>(g: GraphView, posts: Seq<L::V>, init: int) -> bool {
    forall|n: int|
        0 <= n < g.nodes.len() && n != init ==> L::le(
            #[trigger] posts[n],
            L::transfer_spec(g.nodes[n], inflow::<L>(g, posts, n)),
        )
}

/// The sum of the heights of the values `posts`.
pub open spec fn total_rank<L: FlowSemantics>(posts: Seq<L::V>, nodes: Seq<NodeView>) -> nat
    decreases posts.len(),
{
    if posts.len() == 0 {
        0
    } else {
        total_rank::<L>(posts.drop_last(), nodes) + L::rank(posts.last(), nodes)
    }
}

/// How far the values `posts` are from the greatest height.
pub open spec fn deficit<L: FlowSemantics>(posts: Seq<L::V>, nodes: Seq<NodeView>) -> int {
    posts.len() * L::height(nodes) - total_rank::<L>(posts, nodes)
}

/// All values of `posts` are in scope.
pub open spec fn all_in_scope<L: FlowSemantics>(posts: Seq<L::V>, nodes: Seq<NodeView>) -> bool {
    forall|i: int| 0 <= i < posts.len() ==> L::in_scope(#[trigger] posts[i], nodes)
}

/// The values of `a` are below those of `b`, one by one.
pub open spec fn all_le<L: SemiLat>(a: Seq<L::V>, b: Seq<L::V>) -> bool {
    &&& a.len() == b.len()
    &&& forall|i: int| 0 <= i < a.len() ==> L::le(#[trigger] a[i], b[i])
}

/// The sum of the heights is bounded.
proof fn lemma_total_rank_bound<L: FlowSemantics>(posts: Seq<L::V>, nodes: Seq<NodeView>)
    requires
        all_in_scope::<L>(posts, nodes),
    ensures
        total_rank::<L>(posts, nodes) <= posts.len() * L::height(nodes),
        deficit::<L>(posts, nodes) >= 0,
    decreases posts.len(),
{
    if posts.len() > 0 {
        assert(all_in_scope::<L>(posts.drop_last(), nodes)) by {
            assert forall|i: int| 0 <= i < posts.drop_last().len() implies L::in_scope(
                #[trigger] posts.drop_last()[i],
                nodes,
            ) by {
                assert(posts.drop_last()[i] == posts[i]);
            }
        }
        lemma_total_rank_bound::<L>(posts.drop_last(), nodes);
        assert(L::in_scope(posts[posts.len() - 1], nodes));
        L::lemma_le_preorder(posts.last(), posts.last(), posts.last());
        L::lemma_rank(nodes, posts.last(), posts.last());
        assert(posts.len() * L::height(nodes) == (posts.len() - 1) * L::height(nodes) + L::height(nodes))
            by (nonlinear_arith);
    }
}

/// Replacing one value changes the sum of the heights by the difference
/// of the two heights.
proof fn lemma_total_rank_update<L: FlowSemantics>(posts: Seq<L::V>, nodes: Seq<NodeView>, n: int, v: L::V)
    requires
        0 <= n < posts.len(),
    ensures
        total_rank::<L>(posts.update(n, v), nodes) + L::rank(posts[n], nodes) == total_rank::<L>(posts, nodes)
            + L::rank(v, nodes),
    decreases posts.len(),
{
    if n == posts.len() - 1 {
        assert(posts.update(n, v).drop_last() =~= posts.drop_last());
    } else {
        assert(posts.update(n, v).drop_last() =~= posts.drop_last().update(n, v));
        lemma_total_rank_update::<L>(posts.drop_last(), nodes, n, v);
    }
}

/// The join of values in scope is in scope.
proof fn lemma_join_all_scope<L: FlowSemantics>(vs: Seq<L::V>, nodes: Seq<NodeView>)
    requires
        vs.len() > 0,
        nodes.len() > 0,
        all_in_scope::<L>(vs, nodes),
    ensures
        L::in_scope(join_all::<L>(vs), nodes),
    decreases vs.len(),
{
    if vs.len() > 1 {
        assert forall|i: int| 0 <= i < vs.drop_last().len() implies L::in_scope(
            #[trigger] vs.drop_last()[i],
            nodes,
        ) by {
            assert(vs.drop_last()[i] == vs[i]);
        }
        lemma_join_all_scope::<L>(vs.drop_last(), nodes);
        assert(L::in_scope(vs[vs.len() - 1], nodes));
        L::lemma_scope(nodes, 0, join_all::<L>(vs.drop_last()), vs.last());
    } else {
        assert(L::in_scope(vs[0], nodes));
    }
}

/// The join of a sequence grows with its values.
proof fn lemma_join_all_monotone<L: SemiLat>(a: Seq<L::V>, b: Seq<L::V>)
    requires
        a.len() > 0,
        all_le::<L>(a, b),
    ensures
        L::le(join_all::<L>(a), join_all::<L>(b)),
    decreases a.len(),
{
    if a.len() > 1 {
        assert forall|i: int| 0 <= i < a.drop_last().len() implies L::le(
            #[trigger] a.drop_last()[i],
            b.drop_last()[i],
        ) by {
            assert(a.drop_last()[i] == a[i]);
            assert(L::le(a[i], b[i]));
        }
        lemma_join_all_monotone::<L>(a.drop_last(), b.drop_last());
        assert(L::le(a[a.len() - 1], b[a.len() - 1]));
        L::lemma_join_monotone(join_all::<L>(a.drop_last()), a.last(), join_all::<L>(b.drop_last()), b.last());
    } else {
        assert(L::le(a[0], b[0]));
    }
}

/// The successors of a node are nodes of the graph, and a node is a
/// successor of the predecessors that it has.
proof fn lemma_succs(g: GraphView, n: int)
    requires
        g.edges_in_range(),
    ensures
        forall|j: int|
            0 <= j < neighbors(g.edges, n, Direction::Outgoing).len() ==> 0 <= (#[trigger] neighbors(
                g.edges,
                n,
                Direction::Outgoing,
            )[j]) < g.nodes.len(),
        forall|m: int| #[trigger] preds(g, m).contains(n) ==> neighbors(g.edges, n, Direction::Outgoing).contains(m),
{
    let succs = neighbors(g.edges, n, Direction::Outgoing);
    assert forall|j: int| 0 <= j < succs.len() implies 0 <= (#[trigger] succs[j]) < g.nodes.len() by {
        let m = succs[j];
        assert(succs.contains(m));
        lemma_neighbors(g.edges, n, Direction::Outgoing, m);
        let k = choose|k: int| 0 <= k < g.edges.len() && links(#[trigger] g.edges[k], n, Direction::Outgoing, m);
        assert(0 <= g.edges[k].target < g.nodes.len());
    }
    assert forall|m: int| #[trigger] preds(g, m).contains(n) implies succs.contains(m) by {
        lemma_neighbors(g.edges, m, Direction::Incoming, n);
        lemma_neighbors(g.edges, n, Direction::Outgoing, m);
        let k = choose|k: int| 0 <= k < g.edges.len() && links(#[trigger] g.edges[k], m, Direction::Incoming, n);
        assert(links(g.edges[k], n, Direction::Outgoing, m));
    }
}

/// The predecessors of a node are nodes of the graph.
proof fn lemma_preds_in_range(g: GraphView, n: int)
    requires
        g.edges_in_range(),
    ensures
        forall|j: int| 0 <= j < preds(g, n).len() ==> 0 <= (#[trigger] preds(g, n)[j]) < g.nodes.len(),
{
    assert forall|j: int| 0 <= j < preds(g, n).len() implies 0 <= (#[trigger] preds(g, n)[j]) < g.nodes.len() by {
        let m = preds(g, n)[j];
        assert(preds(g, n).contains(m));
        lemma_neighbors(g.edges, n, Direction::Incoming, m);
        let k = choose|k: int| 0 <= k < g.edges.len() && links(#[trigger] g.edges[k], n, Direction::Incoming, m);
        assert(0 <= g.edges[k].source < g.nodes.len());
    }
}

/// The join of what enters a node is in scope if what leaves the nodes is.
proof fn lemma_inflow_scope<L: FlowSemantics>(g: GraphView, posts: Seq<L::V>, n: int)
    requires
        g.edges_in_range(),
        posts.len() == g.nodes.len(),
        0 <= n < g.nodes.len(),
        preds(g, n).len() > 0,
        all_in_scope::<L>(posts, g.nodes),
    ensures
        L::in_scope(inflow::<L>(g, posts, n), g.nodes),
        L::in_scope(L::transfer_spec(g.nodes[n], inflow::<L>(g, posts, n)), g.nodes),
{
    lemma_preds_in_range(g, n);
    let vs = entering(g, posts, n);
    assert forall|i: int| 0 <= i < vs.len() implies L::in_scope(#[trigger] vs[i], g.nodes) by {
        assert(vs[i] == posts[preds(g, n)[i]]);
    }
    lemma_join_all_scope::<L>(vs, g.nodes);
    L::lemma_scope(g.nodes, n, inflow::<L>(g, posts, n), inflow::<L>(g, posts, n));
}

/// What enters a node grows with what leaves the nodes, and does not
/// change where no predecessor of the node does.
pub(crate) proof fn lemma_inflow_monotone<L: FlowSemantics>(g: GraphView, a: Seq<L::V>, b: Seq<L::V>, n: int)
    requires
        g.edges_in_range(),
        a.len() == g.nodes.len(),
        0 <= n < g.nodes.len(),
        preds(g, n).len() > 0,
        all_le::<L>(a, b),
    ensures
        L::le(inflow::<L>(g, a, n), inflow::<L>(g, b, n)),
        L::le(
            L::transfer_spec(g.nodes[n], inflow::<L>(g, a, n)),
            L::transfer_spec(g.nodes[n], inflow::<L>(g, b, n)),
        ),
{
    lemma_preds_in_range(g, n);
    let va = entering(g, a, n);
    let vb = entering(g, b, n);
    assert forall|i: int| 0 <= i < va.len() implies L::le(#[trigger] va[i], vb[i]) by {
        assert(L::le(a[preds(g, n)[i]], b[preds(g, n)[i]]));
    }
    lemma_join_all_monotone::<L>(va, vb);
    L::lemma_transfer_monotone(g.nodes[n], inflow::<L>(g, a, n), inflow::<L>(g, b, n));
}

/// What enters a node does not change when the value of a node that is
/// not among its predecessors does.
proof fn lemma_inflow_frame<L: FlowSemantics>(g: GraphView, posts: Seq<L::V>, n: int, k: int, v: L::V)
    requires
        g.edges_in_range(),
        posts.len() == g.nodes.len(),
        0 <= k < posts.len(),
        !preds(g, n).contains(k),
    ensures
        inflow::<L>(g, posts.update(k, v), n) == inflow::<L>(g, posts, n),
{
    lemma_preds_in_range(g, n);
    assert(entering(g, posts.update(k, v), n) =~= entering(g, posts, n)) by {
        assert forall|i: int| 0 <= i < preds(g, n).len() implies posts.update(k, v)[preds(g, n)[i]]
            == posts[preds(g, n)[i]] by {
            assert(preds(g, n).contains(preds(g, n)[i]));
        }
    }
}

/// Every annotation is a valid representation.
pub open spec fn annots_wf<L: SemiLat>(annots: Seq<MfpAnnot<L>>) -> bool {
    forall|i: int| 0 <= i < annots.len() ==> (#[trigger] annots[i]).pre.lat_wf() && annots[i].post.lat_wf()
}

/// What one step of the solver at node `n` keeps and changes, where `a`
/// are the annotations before it and `b` those after it.
#[verifier::rlimit(50)]
#[verifier::spinoff_prover]
proof fn lemma_step<L: FlowSemantics>(g: GraphView, init: int, a: Seq<MfpAnnot<L>>, b: Seq<MfpAnnot<L>>, n: int)
    requires
        g.edges_in_range(),
        a.len() == g.nodes.len(),
        0 <= n < g.nodes.len(),
        n != init,
        has_preds(g, init),
        valid_annots::<L>(a, g.nodes),
        ascending::<L>(g, post_views(a), init),
        b == a.update(n, b[n]),
        b[n].pre.lat_wf(),
        b[n].post.lat_wf(),
        b[n].pre@ == inflow::<L>(g, post_views(a), n),
        b[n].post@ == L::transfer_spec(g.nodes[n], b[n].pre@),
    ensures
        valid_annots::<L>(b, g.nodes),
        ascending::<L>(g, post_views(b), init),
        post_views(b) == post_views(a).update(n, b[n].post@),
        b[n].post@ == a[n].post@ ==> post_views(b) == post_views(a),
        b[n].post@ != a[n].post@ ==> deficit::<L>(post_views(b), g.nodes) < deficit::<L>(post_views(a), g.nodes),
        deficit::<L>(post_views(b), g.nodes) >= 0,
{
    let pa = post_views(a);
    let pb = post_views(b);
    let v = b[n].post@;
    assert(pb =~= pa.update(n, v));
    assert(all_in_scope::<L>(pa, g.nodes)) by {
        assert forall|i: int| 0 <= i < pa.len() implies L::in_scope(#[trigger] pa[i], g.nodes) by {
            assert(L::in_scope(a[i].post@, g.nodes));
        }
    }
    assert(preds(g, n).len() > 0);
    lemma_inflow_scope::<L>(g, pa, n);
    assert(L::le(pa[n], v));
    assert(all_le::<L>(pa, pb)) by {
        assert forall|i: int| 0 <= i < pa.len() implies L::le(#[trigger] pa[i], pb[i]) by {
            L::lemma_le_preorder(pa[i], pa[i], pa[i]);
        }
    }
    assert forall|i: int| 0 <= i < b.len() implies (#[trigger] b[i]).pre.lat_wf() && b[i].post.lat_wf()
        && L::in_scope(b[i].post@, g.nodes) by {
        if i != n {
            assert(b[i] == a[i]);
        }
    }
    assert forall|m: int| 0 <= m < g.nodes.len() && m != init implies L::le(
        #[trigger] pb[m],
        L::transfer_spec(g.nodes[m], inflow::<L>(g, pb, m)),
    ) by {
        assert(preds(g, m).len() > 0);
        lemma_inflow_monotone::<L>(g, pa, pb, m);
        let fa = L::transfer_spec(g.nodes[m], inflow::<L>(g, pa, m));
        let fb = L::transfer_spec(g.nodes[m], inflow::<L>(g, pb, m));
        if m != n {
            assert(L::le(pa[m], fa));
            L::lemma_le_preorder(pa[m], fa, fb);
        }
    }
    lemma_total_rank_update::<L>(pa, g.nodes, n, v);
    assert(L::in_scope(pa[n], g.nodes));
    L::lemma_rank(g.nodes, pa[n], v);
    assert(all_in_scope::<L>(pb, g.nodes)) by {
        assert forall|i: int| 0 <= i < pb.len() implies L::in_scope(#[trigger] pb[i], g.nodes) by {
            assert(L::in_scope(b[i].post@, g.nodes));
        }
    }
    lemma_total_rank_bound::<L>(pb, g.nodes);
    if v == a[n].post@ {
        assert(pb =~= pa);
    }
}

/// A node whose equations hold before a step at another node keeps them,
/// unless the value that leaves one of its predecessors changed.
proof fn lemma_solved_kept<L: FlowSemantics>(
    g: GraphView,
    a: Seq<MfpAnnot<L>>,
    b: Seq<MfpAnnot<L>>,
    n: int,
    m: int,
)
    requires
        g.edges_in_range(),
        a.len() == g.nodes.len(),
        0 <= n < g.nodes.len(),
        0 <= m < g.nodes.len(),
        b == a.update(n, b[n]),
        b[n].post@ == a[n].post@ || !preds(g, m).contains(n),
        m != n ==> node_solved::<L>(g, a, m),
        m == n ==> b[n].pre@ == inflow::<L>(g, post_views(a), n) && b[n].post@ == L::transfer_spec(
            g.nodes[n],
            b[n].pre@,
        ),
    ensures
        node_solved::<L>(g, b, m),
{
    let pa = post_views(a);
    let pb = post_views(b);
    assert(pb =~= pa.update(n, b[n].post@));
    if b[n].post@ == a[n].post@ {
        assert(pb =~= pa);
    } else {
        lemma_inflow_frame::<L>(g, pa, m, n, b[n].post@);
    }
    if m != n {
        assert(b[m] == a[m]);
    }
}

/// One step of the solver at node `n`: the value that enters the node
/// becomes the join of the values that leave its predecessors, and the
/// value that leaves it becomes what the node makes of that. Returns
/// whether the value that leaves the node changed.
#[verifier::rlimit(50)]
#[verifier::spinoff_prover]
pub fn step<L: FlowSemantics>(cfg: &mut Cfg<MfpAnnot<L>>, n: NodeIdx) -> (changed: bool)
    requires
        old(cfg).wf(),
        n < old(cfg)@.graph.nodes.len(),
        preds(old(cfg)@.graph, n as int).len() > 0,
        annots_wf::<L>(old(cfg)@.annots),
    ensures
        final(cfg).wf(),
        final(cfg)@.graph == old(cfg)@.graph,
        final(cfg)@.init == old(cfg)@.init,
        final(cfg)@.annots == old(cfg)@.annots.update(n as int, final(cfg)@.annots[n as int]),
        final(cfg)@.annots[n as int].pre.lat_wf(),
        final(cfg)@.annots[n as int].post.lat_wf(),
        final(cfg)@.annots[n as int].pre@ == inflow::<L>(old(cfg)@.graph, post_views(old(cfg)@.annots), n as int),
        final(cfg)@.annots[n as int].post@ == L::transfer_spec(
            old(cfg)@.graph.nodes[n as int],
            final(cfg)@.annots[n as int].pre@,
        ),
        changed == (final(cfg)@.annots[n as int].post@ != old(cfg)@.annots[n as int].post@),
{
    proof {
        lemma_preds_in_range(cfg@.graph, n as int);
    }
    let new_pre = match cfg.predecessors(n) {
        Some(v) => {
            let pv = vec1_as_vec(&v);
            let mut posts: Vec<&L> = Vec::new();
            let mut i: usize = 0;
            while i < pv.len()
                invariant
                    i <= pv.len(),
                    cfg.wf(),
                    pv@.map_values(|i: usize| i as int) == preds(cfg@.graph, n as int),
                    forall|j: int|
                        0 <= j < preds(cfg@.graph, n as int).len() ==> 0 <= (#[trigger] preds(
                            cfg@.graph,
                            n as int,
                        )[j]) < cfg@.graph.nodes.len(),
                    annots_wf::<L>(cfg@.annots),
                    posts@.len() == i,
                    forall|j: int| 0 <= j < i ==> *(#[trigger] posts@[j]) == cfg@.annots[pv@[j] as int].post,
                decreases pv.len() - i,
            {
                assert(pv@.map_values(|i: usize| i as int)[i as int] == pv@[i as int] as int);
                assert(0 <= preds(cfg@.graph, n as int)[i as int] < cfg@.graph.nodes.len());
                posts.push(&cfg.annot(pv[i]).post);
                i += 1;
            }
            proof {
                assert(ref_views(posts@) =~= entering(cfg@.graph, post_views(cfg@.annots), n as int)) by {
                    assert forall|j: int| 0 <= j < posts@.len() implies ref_views(posts@)[j] == entering(
                        cfg@.graph,
                        post_views(cfg@.annots),
                        n as int,
                    )[j] by {
                        assert(pv@.map_values(|i: usize| i as int)[j] == pv@[j] as int);
                        assert(*posts@[j] == cfg@.annots[pv@[j] as int].post);
                    }
                }
                assert forall|j: int| 0 <= j < posts@.len() implies (#[trigger] posts@[j]).lat_wf() by {
                    assert(pv@.map_values(|i: usize| i as int)[j] == pv@[j] as int);
                    assert(0 <= preds(cfg@.graph, n as int)[j] < cfg@.graph.nodes.len());
                    assert(cfg@.annots[pv@[j] as int].post.lat_wf());
                }
            }
            join(&posts)
        },
        None => {
            proof {
                assert(false);
            }
            L::init_start()
        },
    };
    let new_post = L::eval_transfer_function(cfg.node(n), &new_pre);
    let changed = !(new_post == cfg.annot(n).post);
    proof {
        L::lemma_eq(&new_post, &cfg@.annots[n as int].post);
    }
    cfg.set_annot(n, MfpAnnot::new(new_pre, new_post));
    changed
}

/// Whether the annotations `t` of the graph `g` are a fixed point whose
/// values are in scope.
pub open spec fn is_solution<L: FlowSemantics>(g: GraphView, init: int, t: Seq<MfpAnnot<L>>) -> bool {
    &&& t.len() == g.nodes.len()
    &&& all_in_scope::<L>(post_views(t), g.nodes)
    &&& solved::<L>(CfgView { graph: g, annots: t, init })
}

/// Whether the values that leave the nodes in `a` are below those of
/// every fixed point of the graph.
pub open spec fn least<L: FlowSemantics>(g: GraphView, init: int, a: Seq<MfpAnnot<L>>) -> bool {
    forall|t: Seq<MfpAnnot<L>>| #[trigger] is_solution::<L>(g, init, t) ==> all_le::<L>(post_views(a), post_views(t))
}

/// A step of the solver keeps the values below those of a fixed point.
proof fn lemma_step_below<L: FlowSemantics>(
    g: GraphView,
    init: int,
    a: Seq<MfpAnnot<L>>,
    b: Seq<MfpAnnot<L>>,
    n: int,
    t: Seq<MfpAnnot<L>>,
)
    requires
        g.edges_in_range(),
        a.len() == g.nodes.len(),
        0 <= n < g.nodes.len(),
        n != init,
        preds(g, n).len() > 0,
        b == a.update(n, b[n]),
        b[n].post@ == L::transfer_spec(g.nodes[n], inflow::<L>(g, post_views(a), n)),
        is_solution::<L>(g, init, t),
        all_le::<L>(post_views(a), post_views(t)),
    ensures
        all_le::<L>(post_views(b), post_views(t)),
{
    let pa = post_views(a);
    let pb = post_views(b);
    let pt = post_views(t);
    assert(pb =~= pa.update(n, b[n].post@));
    lemma_inflow_monotone::<L>(g, pa, pt, n);
    let c = CfgView { graph: g, annots: t, init };
    assert(node_solved::<L>(c.graph, c.annots, n));
    assert(pt[n] == t[n].post@);
    assert forall|i: int| 0 <= i < pb.len() implies L::le(#[trigger] pb[i], pt[i]) by {
        if i != n {
            assert(L::le(pa[i], pt[i]));
        }
    }
}

/// The state from which the solver reaches a fixed point: the graph is
/// well formed, every node but the entry has a predecessor, the entry
/// holds the entry value, the annotations are valid, and the value that
/// leaves each node is below what the node makes of what enters it.
pub open spec fn ready<L: FlowSemantics>(c: CfgView<MfpAnnot<L>>) -> bool {
    &&& c.wf()
    &&& has_preds(c.graph, c.init)
    &&& valid_annots::<L>(c.annots, c.graph.nodes)
    &&& ascending::<L>(c.graph, post_views(c.annots), c.init)
    &&& c.annots[c.init].pre@ == L::init_start_spec()
    &&& c.annots[c.init].post@ == L::init_start_spec()
}

/// Runs the solver from the annotations that `cfg` has, until they are a
/// fixed point: it takes a node off the worklist, which starts with every
/// node but the entry, makes a step at it, and puts the node's successors
/// on the worklist if the value that leaves the node changed.
///
/// On annotations that are a fixed point already, no value changes.
#[verifier::rlimit(50)]
#[verifier::spinoff_prover]
pub fn iterate<L: FlowSemantics>(cfg: &mut Cfg<MfpAnnot<L>>)
    requires
        old(cfg).wf(),
        ready::<L>(old(cfg)@),
    ensures
        final(cfg).wf(),
        ready::<L>(final(cfg)@),
        final(cfg)@.graph == old(cfg)@.graph,
        final(cfg)@.init == old(cfg)@.init,
        solved::<L>(final(cfg)@),
        solved::<L>(old(cfg)@) ==> pre_views(final(cfg)@.annots) == pre_views(old(cfg)@.annots) && post_views(
            final(cfg)@.annots,
        ) == post_views(old(cfg)@.annots),
        least::<L>(old(cfg)@.graph, old(cfg)@.init, old(cfg)@.annots) ==> least::<L>(
            final(cfg)@.graph,
            final(cfg)@.init,
            final(cfg)@.annots,
        ),
{
    let count = cfg.node_count();
    let init = cfg.init();
    let mut worklist: Vec<NodeIdx> = Vec::new();
    let mut i: usize = 0;
    while i < count
        invariant
            i <= count,
            forall|k: int| 0 <= k < worklist@.len() ==> (#[trigger] worklist@[k]) < count && worklist@[k] != init,
            forall|m: usize| m < i && m != init ==> #[trigger] worklist@.contains(m),
        decreases count - i,
    {
        if i != init {
            let ghost before = worklist@;
            worklist.push(i);
            proof {
                assert(worklist@[before.len() as int] == i);
                assert forall|m: usize| m < i + 1 && m != init implies #[trigger] worklist@.contains(m) by {
                    if m < i {
                        assert(before.contains(m));
                        let k = choose|k: int| 0 <= k < before.len() && before[k] == m;
                        assert(worklist@[k] == m);
                    }
                }
            }
        }
        i += 1;
    }
    proof {
        assert forall|i: int| 0 <= i < post_views(cfg@.annots).len() implies L::in_scope(
            #[trigger] post_views(cfg@.annots)[i],
            cfg@.graph.nodes,
        ) by {
            assert(L::in_scope(cfg@.annots[i].post@, cfg@.graph.nodes));
        }
        lemma_total_rank_bound::<L>(post_views(cfg@.annots), cfg@.graph.nodes);
    }
    while worklist.len() > 0
        invariant
            cfg.wf(),
            ready::<L>(cfg@),
            cfg@.graph == old(cfg)@.graph,
            cfg@.init == old(cfg)@.init,
            init == cfg@.init,
            count == cfg@.graph.nodes.len(),
            deficit::<L>(post_views(cfg@.annots), cfg@.graph.nodes) >= 0,
            forall|k: int| 0 <= k < worklist@.len() ==> (#[trigger] worklist@[k]) < count && worklist@[k] != init,
            forall|m: usize|
                m < count && m != init && !(#[trigger] worklist@.contains(m)) ==> node_solved::<L>(
                    cfg@.graph,
                    cfg@.annots,
                    m as int,
                ),
            solved::<L>(old(cfg)@) ==> pre_views(cfg@.annots) == pre_views(old(cfg)@.annots) && post_views(
                cfg@.annots,
            ) == post_views(old(cfg)@.annots),
            least::<L>(old(cfg)@.graph, old(cfg)@.init, old(cfg)@.annots) ==> least::<L>(
                cfg@.graph,
                cfg@.init,
                cfg@.annots,
            ),
        decreases deficit::<L>(post_views(cfg@.annots), cfg@.graph.nodes), worklist.len(),
    {
        let ghost w0 = worklist@;
        let ghost a = cfg@.annots;
        let ghost g = cfg@.graph;
        let n = worklist.pop().unwrap();
        let ghost w1 = worklist@;
        proof {
            assert(w0[w0.len() - 1] == n);
            assert(preds(g, n as int).len() > 0);
            assert(annots_wf::<L>(a)) by {
                assert forall|i: int| 0 <= i < a.len() implies (#[trigger] a[i]).pre.lat_wf() && a[i].post.lat_wf() by {}
            }
        }
        let changed = step(cfg, n);
        let ghost b = cfg@.annots;
        proof {
            lemma_step::<L>(g, init as int, a, b, n as int);
            lemma_succs(g, n as int);
            if least::<L>(g, init as int, a) {
                assert forall|t: Seq<MfpAnnot<L>>| #[trigger] is_solution::<L>(g, init as int, t) implies all_le::<L>(
                    post_views(b),
                    post_views(t),
                ) by {
                    lemma_step_below::<L>(g, init as int, a, b, n as int, t);
                }
            }
            if solved::<L>(old(cfg)@) {
                assert(node_solved::<L>(g, old(cfg)@.annots, n as int));
                assert(post_views(old(cfg)@.annots)[n as int] == old(cfg)@.annots[n as int].post@);
                assert(pre_views(old(cfg)@.annots)[n as int] == old(cfg)@.annots[n as int].pre@);
                assert(post_views(a)[n as int] == a[n as int].post@);
                assert(pre_views(a)[n as int] == a[n as int].pre@);
                assert(pre_views(b) =~= pre_views(a));
                assert(post_views(b) =~= post_views(a));
            }
        }
        if changed {
            let succ = cfg.successors(n);
            let mut j: usize = 0;
            while j < succ.len()
                invariant
                    j <= succ.len(),
                    cfg.wf(),
                    count == cfg@.graph.nodes.len(),
                    cfg@.graph == g,
                    succ@.map_values(|i: usize| i as int) == neighbors(g.edges, n as int, Direction::Outgoing),
                    forall|j: int|
                        0 <= j < neighbors(g.edges, n as int, Direction::Outgoing).len() ==> 0 <= (#[trigger] neighbors(
                            g.edges,
                            n as int,
                            Direction::Outgoing,
                        )[j]) < g.nodes.len(),
                    forall|k: int|
                        0 <= k < worklist@.len() ==> (#[trigger] worklist@[k]) < count && worklist@[k] != init,
                    forall|x: usize| w1.contains(x) ==> worklist@.contains(x),
                    forall|k: int| 0 <= k < j && succ@[k] != init ==> worklist@.contains(#[trigger] succ@[k]),
                decreases succ.len() - j,
            {
                let s = succ[j];
                proof {
                    assert(succ@.map_values(|i: usize| i as int)[j as int] == s as int);
                    assert(0 <= neighbors(g.edges, n as int, Direction::Outgoing)[j as int] < g.nodes.len());
                }
                if s != init {
                    let ghost before = worklist@;
                    worklist.push(s);
                    proof {
                        assert(worklist@[before.len() as int] == s);
                        assert forall|x: usize| before.contains(x) implies worklist@.contains(x) by {
                            let k = choose|k: int| 0 <= k < before.len() && before[k] == x;
                            assert(worklist@[k] == x);
                        }
                    }
                }
                j += 1;
            }
            proof {
                assert forall|m: usize|
                    m < count && m != init && !(#[trigger] worklist@.contains(m)) implies node_solved::<L>(
                    cfg@.graph,
                    cfg@.annots,
                    m as int,
                ) by {
                    let succs = neighbors(g.edges, n as int, Direction::Outgoing);
                    if preds(g, m as int).contains(n as int) {
                        assert(succs.contains(m as int));
                        let k = choose|k: int| 0 <= k < succs.len() && succs[k] == m as int;
                        assert(succ@.map_values(|i: usize| i as int)[k] == succ@[k] as int);
                        assert(succ@[k] == m);
                        assert(worklist@.contains(succ@[k]));
                        assert(false);
                    }
                    if m != n {
                        if w0.contains(m) {
                            let k = choose|k: int| 0 <= k < w0.len() && w0[k] == m;
                            assert(w1[k] == m);
                            assert(w1.contains(m));
                            assert(false);
                        }
                    }
                    lemma_solved_kept::<L>(g, a, b, n as int, m as int);
                }
            }
        } else {
            proof {
                assert forall|m: usize|
                    m < count && m != init && !(#[trigger] worklist@.contains(m)) implies node_solved::<L>(
                    cfg@.graph,
                    cfg@.annots,
                    m as int,
                ) by {
                    if m != n {
                        if w0.contains(m) {
                            let k = choose|k: int| 0 <= k < w0.len() && w0[k] == m;
                            assert(w1[k] == m);
                            assert(w1.contains(m));
                            assert(false);
                        }
                    }
                    lemma_solved_kept::<L>(g, a, b, n as int, m as int);
                }
            }
        }
    }
    proof {
        assert forall|m: int| 0 <= m < cfg@.graph.nodes.len() && m != cfg@.init implies node_solved::<L>(
            cfg@.graph,
            cfg@.annots,
            m,
        ) by {
            assert(!worklist@.contains(m as usize));
        }
    }
}

/// The operations of the nodes of a graph, by node index.
fn nodes_of_graph<A>(cfg: &Cfg<A>) -> (nodes: Vec<Node>)
    requires
        cfg@.wf(),
    ensures
        node_views(nodes@) == cfg@.graph.nodes,
{
    let count = cfg.node_count();
    let mut nodes: Vec<Node> = Vec::new();
    let mut i: usize = 0;
    while i < count
        invariant
            i <= count,
            count == cfg@.graph.nodes.len(),
            cfg@.wf(),
            node_views(nodes@) == cfg@.graph.nodes.take(i as int),
        decreases count - i,
    {
        let ghost before = nodes@;
        let node = cfg.node(i).clone();
        assert(node@ == cfg@.graph.nodes[i as int]);
        nodes.push(node);
        proof {
            assert(nodes@ == before.push(node));
            assert(node_views(nodes@) =~= node_views(before).push(node@));
            assert(node_views(nodes@) =~= cfg@.graph.nodes.take(i + 1));
        }
        i += 1;
    }
    proof {
        assert(cfg@.graph.nodes.take(count as int) =~= cfg@.graph.nodes);
    }
    nodes
}

/// The maximal fixed point of the analysis `L` on the graph `cfg_raw`:
/// every node starts from the value that `init` gives for the nodes of the
/// graph, the entry from `init_start`, and the solver runs until the
/// equations hold at every node. The values that leave the nodes are then
/// in scope and below those of every fixed point in the order of `L`.
#[verifier::rlimit(50)]
#[verifier::spinoff_prover]
pub fn mfp<L: FlowSemantics>(cfg_raw: &Cfg<RawAnnot>) -> (cfg: Cfg<MfpAnnot<L>>)
    requires
        cfg_raw.wf(),
        has_preds(cfg_raw@.graph, cfg_raw@.init),
    ensures
        cfg.wf(),
        cfg@.graph == cfg_raw@.graph,
        cfg@.init == cfg_raw@.init,
        ready::<L>(cfg@),
        solved::<L>(cfg@),
        least::<L>(cfg@.graph, cfg@.init, cfg@.annots),
        annots_wf::<L>(cfg@.annots),
{
    let nodes = nodes_of_graph(cfg_raw);
    let fresh = |a: &RawAnnot| -> (r: MfpAnnot<L>)
        ensures
            r.pre.lat_wf(),
            r.post.lat_wf(),
            r.pre@ == L::init_spec(node_views(nodes@)),
            r.post@ == L::init_spec(node_views(nodes@)),
        { MfpAnnot::new(L::init(&nodes), L::init(&nodes)) };
    let mut cfg = cfg_raw.map(fresh);
    let init = cfg.init();
    cfg.set_annot(init, MfpAnnot::new(L::init_start(), L::init_start()));
    proof {
        let g = cfg@.graph;
        let a = cfg@.annots;
        let posts = post_views(a);
        let start = L::init_spec(g.nodes);
        L::lemma_scope(g.nodes, 0, start, start);
        assert forall|i: int| 0 <= i < a.len() implies (#[trigger] a[i]).pre.lat_wf() && a[i].post.lat_wf()
            && L::in_scope(a[i].post@, g.nodes) by {}
        assert(all_in_scope::<L>(posts, g.nodes)) by {
            assert forall|i: int| 0 <= i < posts.len() implies L::in_scope(#[trigger] posts[i], g.nodes) by {
                assert(L::in_scope(a[i].post@, g.nodes));
            }
        }
        assert forall|n: int| 0 <= n < g.nodes.len() && n != init implies L::le(
            #[trigger] posts[n],
            L::transfer_spec(g.nodes[n], inflow::<L>(g, posts, n)),
        ) by {
            assert(preds(g, n).len() > 0);
            lemma_inflow_scope::<L>(g, posts, n);
            let f = L::transfer_spec(g.nodes[n], inflow::<L>(g, posts, n));
            L::lemma_scope(g.nodes, 0, f, f);
            assert(a[n].post@ == start);
        }
        assert forall|t: Seq<MfpAnnot<L>>| #[trigger] is_solution::<L>(g, init as int, t) implies all_le::<L>(
            posts,
            post_views(t),
        ) by {
            let pt = post_views(t);
            assert forall|i: int| 0 <= i < posts.len() implies L::le(#[trigger] posts[i], pt[i]) by {
                assert(L::in_scope(pt[i], g.nodes));
                if i == init {
                    let c = CfgView { graph: g, annots: t, init: init as int };
                    assert(c.annots[c.init].post@ == L::init_start_spec());
                    assert(a[i].post@ == L::init_start_spec());
                    assert(pt[i] == t[i].post@);
                    L::lemma_le_preorder(posts[i], posts[i], posts[i]);
                } else {
                    assert(a[i].post@ == start);
                    L::lemma_scope(g.nodes, 0, pt[i], pt[i]);
                }
            }
        }
    }
    iterate(&mut cfg);
    proof {
        assert forall|i: int| 0 <= i < cfg@.annots.len() implies (#[trigger] cfg@.annots[i]).pre.lat_wf()
            && cfg@.annots[i].post.lat_wf() by {}
    }
    cfg
}

/// Two fixed points of a graph that are both in scope and below every
/// fixed point have the same values at every node.
proof fn lemma_least_unique<L: FlowSemantics>(
    g: GraphView,
    init: int,
    a: Seq<MfpAnnot<L>>,
    b: Seq<MfpAnnot<L>>,
)
    requires
        0 <= init < g.nodes.len(),
        is_solution::<L>(g, init, a),
        is_solution::<L>(g, init, b),
        least::<L>(g, init, a),
        least::<L>(g, init, b),
    ensures
        post_views(a) == post_views(b),
        pre_views(a) == pre_views(b),
{
    let pa = post_views(a);
    let pb = post_views(b);
    assert(all_le::<L>(pa, pb));
    assert(all_le::<L>(pb, pa));
    assert forall|i: int| 0 <= i < pa.len() implies pa[i] == pb[i] by {
        assert(L::le(pa[i], pb[i]));
        assert(L::le(pb[i], pa[i]));
        L::lemma_le_antisymmetric(pa[i], pb[i]);
    }
    assert(pa =~= pb);
    let ca = CfgView { graph: g, annots: a, init };
    let cb = CfgView { graph: g, annots: b, init };
    assert forall|i: int| 0 <= i < a.len() implies pre_views(a)[i] == pre_views(b)[i] by {
        if i == init {
            assert(ca.annots[ca.init].pre@ == L::init_start_spec());
            assert(cb.annots[cb.init].pre@ == L::init_start_spec());
        } else {
            assert(node_solved::<L>(ca.graph, ca.annots, i));
            assert(node_solved::<L>(cb.graph, cb.annots, i));
        }
    }
    assert(pre_views(a) =~= pre_views(b));
}

/// Solving a graph again gives the same: two results of the solver on
/// graphs with the same nodes, edges and entry have the same values at
/// every node, whatever the order was in which the solver took the nodes.
pub proof fn lemma_solved_again<L: FlowSemantics>(c: CfgView<MfpAnnot<L>>, d: CfgView<MfpAnnot<L>>)
    requires
        c.graph == d.graph,
        c.init == d.init,
        ready::<L>(c),
        solved::<L>(c),
        least::<L>(c.graph, c.init, c.annots),
        ready::<L>(d),
        solved::<L>(d),
        least::<L>(d.graph, d.init, d.annots),
    ensures
        post_views(c.annots) == post_views(d.annots),
        pre_views(c.annots) == pre_views(d.annots),
{
    lemma_is_solution::<L>(c);
    lemma_is_solution::<L>(d);
    lemma_least_unique::<L>(c.graph, c.init, c.annots, d.annots);
}

/// What `ready` and `solved` say of the annotations of a graph makes them
/// a fixed point in scope.
proof fn lemma_is_solution<L: FlowSemantics>(c: CfgView<MfpAnnot<L>>)
    requires
        ready::<L>(c),
        solved::<L>(c),
    ensures
        is_solution::<L>(c.graph, c.init, c.annots),
{
    let posts = post_views(c.annots);
    assert forall|i: int| 0 <= i < posts.len() implies L::in_scope(#[trigger] posts[i], c.graph.nodes) by {
        assert(L::in_scope(c.annots[i].post@, c.graph.nodes));
    }
    let d = CfgView { graph: c.graph, annots: c.annots, init: c.init };
    assert(d == c);
}

} // verus!
