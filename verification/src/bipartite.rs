//! The bipartiteness walk: a two-coloring traversal of the component
//! reachable from a chosen start node, ignoring edge direction. Only that
//! component is checked; disconnected components are out of its scope.

use vstd::prelude::*;

use crate::graph::{
    lemma_edge_index_is, lemma_node_index_is, EdgeId, Graph, GraphError, NodeId,
};
use crate::reach::{lemma_reach_step, lemma_reach_trans, WalkMode};
use crate::traverse::{
    count_true, lemma_count_true_bounds, lemma_count_true_push, lemma_count_true_update,
    lemma_step_edge_in_list, pending_contains,
};

verus! {

/// One coloring event of the walk: a node, the edge over which it was first
/// reached (absent for the start node), and the color set it was assigned
/// to.
#[derive(Clone, Copy, PartialEq, Eq, Debug)]
pub struct ColorStep {
    pub node: NodeId,
    pub edge: Option<EdgeId>,
    pub color: usize,
}

impl Graph {
    /// `odd` properly two-colors the component of `start`: no edge with an
    /// endpoint reachable from `start` (ignoring direction) joins two nodes
    /// on the same side. A self-loop on a reachable node defeats every
    /// candidate.
    pub open spec fn proper_two_coloring(self, start: NodeId, odd: Set<NodeId>) -> bool {
        forall|k: int|
            0 <= k < self.edges@.len() && self.u_reachable(start, (#[trigger] self.edges@[k]).start)
                ==> (odd.contains(self.edges@[k].start) != odd.contains(self.edges@[k].end))
    }

    /// The component reachable from `start` admits some proper two-coloring.
    pub open spec fn two_colorable_from(self, start: NodeId) -> bool {
        exists|odd: Set<NodeId>| #[trigger] self.proper_two_coloring(start, odd)
    }

    /// Some direction-ignoring walk from `start` to `v` makes `c` steps
    /// modulo two: the parity with which the two-coloring walk colors `v`.
    pub open spec fn parity_reach(self, start: NodeId, v: NodeId, c: int) -> bool {
        exists|p: Seq<NodeId>|
            #[trigger] self.is_walk(WalkMode::Undirected, p) && p[0] == start && p[p.len() - 1] == v
                && (p.len() - 1) % 2 == c
    }

    /// Some registered self-loop sits on node `n`.
    pub open spec fn loop_at(self, n: NodeId) -> bool {
        exists|k: int|
            0 <= k < self.edges@.len() && (#[trigger] self.edges@[k]).start == n
                && self.edges@[k].end == n
    }
}

/// Some position of `order` colors node `n`.
pub open spec fn cstep_listed(order: Seq<ColorStep>, n: NodeId) -> bool {
    exists|p: int| 0 <= p < order.len() && (#[trigger] order[p]).node == n
}

/// The shape of a completed two-coloring: it begins by placing `start` in
/// set zero with no incoming edge, colors each node at most once with one of
/// the two sets at the parity of some walk that reaches it, and colors
/// exactly the nodes reachable from `start` ignoring direction.
pub open spec fn bipartite_output_ok(g: Graph, start: NodeId, order: Seq<ColorStep>) -> bool {
    &&& order.len() >= 1
    &&& order[0].node == start
    &&& order[0].edge is None
    &&& order[0].color == 0
    &&& (forall|i: int, j: int|
        0 <= i < j < order.len() ==> (#[trigger] order[i]).node != (#[trigger] order[j]).node)
    &&& (forall|p: int|
        0 <= p < order.len() ==> g.has_node((#[trigger] order[p]).node) && order[p].color < 2
            && g.parity_reach(start, order[p].node, order[p].color as int))
    &&& (forall|v: NodeId| #[trigger] g.u_reachable(start, v) ==> cstep_listed(order, v))
}

/// Some record carries node `v` colored `c`.
pub(crate) open spec fn opp_colored(g: Graph, color: Seq<Option<usize>>, v: NodeId, c: int) -> bool {
    exists|j: int|
        0 <= j < g.nodes@.len() && (#[trigger] g.nodes@[j]).id == v && color[j] == Some(c as usize)
}

/// Record `i` has been fully expanded without fault: no self-loop touches
/// it, and every neighbor holds the opposite color.
pub(crate) open spec fn expanded_ok(g: Graph, color: Seq<Option<usize>>, i: int) -> bool {
    &&& !g.loop_at(g.nodes@[i].id)
    &&& (forall|v: NodeId|
        #[trigger] g.step_in(WalkMode::Undirected, g.nodes@[i].id, v) ==> opp_colored(
            g,
            color,
            v,
            1 - (color[i].unwrap() as int),
        ))
}

/// The colors agree with the event order: record `i` is colored exactly
/// when its node is listed, and with the listed color.
pub(crate) open spec fn colors_match(g: Graph, color: Seq<Option<usize>>, order: Seq<ColorStep>) -> bool {
    &&& color.len() == g.nodes@.len()
    &&& (forall|i: int|
        0 <= i < color.len() ==> ((#[trigger] color[i]) is Some <==> cstep_listed(
            order,
            g.nodes@[i].id,
        )))
    &&& (forall|i: int, p: int|
        #![trigger order[p], color[i]]
        0 <= i < color.len() && 0 <= p < order.len() && order[p].node == g.nodes@[i].id
            ==> color[i] == Some(order[p].color))
}

/// Every colored record that is neither pending nor the record `excl` has
/// been fully expanded without fault. With `excl == -1` no record is exempt.
pub(crate) open spec fn bp_closed(
    g: Graph,
    color: Seq<Option<usize>>,
    pending: Seq<usize>,
    excl: int,
) -> bool {
    forall|i: int|
        0 <= i < g.nodes@.len() && (#[trigger] color[i]) is Some && !pending_contains(pending, i)
            && i != excl ==> expanded_ok(g, color, i)
}

/// A parity walk extends across one more step with flipped parity.
proof fn lemma_parity_step(g: Graph, start: NodeId, u: NodeId, v: NodeId, c: int)
    requires
        g.parity_reach(start, u, c),
        g.step_in(WalkMode::Undirected, u, v),
        0 <= c < 2,
    ensures
        g.parity_reach(start, v, 1 - c),
{
    let m = WalkMode::Undirected;
    let p = choose|p: Seq<NodeId>|
        #[trigger] g.is_walk(m, p) && p[0] == start && p[p.len() - 1] == u && (p.len() - 1) % 2
            == c;
    let q = p.push(v);
    assert forall|i: int| 0 <= i < q.len() - 1 implies g.step_in(m, #[trigger] q[i], q[i + 1]) by {
        if i < p.len() - 1 {
            assert(q[i] == p[i] && q[i + 1] == p[i + 1]);
            assert(g.step_in(m, p[i], p[i + 1]));
        } else {
            assert(q[i] == u && q[i + 1] == v);
        }
    }
    assert(g.is_walk(m, q));
    assert(q[0] == start && q[q.len() - 1] == v);
    assert((q.len() - 1) % 2 == 1 - c);
}

/// A parity walk witnesses plain reachability.
proof fn lemma_parity_reachable(g: Graph, start: NodeId, u: NodeId, c: int)
    requires
        g.parity_reach(start, u, c),
    ensures
        g.u_reachable(start, u),
{
    let m = WalkMode::Undirected;
    let p = choose|p: Seq<NodeId>|
        #[trigger] g.is_walk(m, p) && p[0] == start && p[p.len() - 1] == u && (p.len() - 1) % 2
            == c;
    assert(g.walk_reach(m, start, u));
}

/// Under a proper two-coloring of the component of `start`, sides alternate
/// along every walk that begins in the component: the side of the end is
/// the side of the beginning exactly when the walk has even length.
proof fn lemma_proper_walk_parity(g: Graph, start: NodeId, odd: Set<NodeId>, p: Seq<NodeId>)
    requires
        g.wf(),
        g.proper_two_coloring(start, odd),
        g.is_walk(WalkMode::Undirected, p),
        g.u_reachable(start, p[0]),
    ensures
        odd.contains(p[p.len() - 1]) == (odd.contains(p[0]) != ((p.len() - 1) % 2 == 1)),
    decreases p.len(),
{
    let m = WalkMode::Undirected;
    if p.len() > 1 {
        assert(g.step_in(m, p[0], p[1]));
        let e = choose|e: EdgeId| g.step_via(m, e, p[0], p[1]);
        let k0 = choose|k: int| 0 <= k < g.edges@.len() && (#[trigger] g.edges@[k]).id == e;
        lemma_edge_index_is(g, e, k0);
        assert(g.u_reachable(start, g.edges@[k0].start)) by {
            lemma_reach_step(g, m, p[0], p[1]);
            lemma_reach_trans(g, m, start, p[0], p[1]);
        }
        assert(odd.contains(g.edges@[k0].start) != odd.contains(g.edges@[k0].end));
        assert(odd.contains(p[0]) != odd.contains(p[1]));
        let q = p.subrange(1, p.len() as int);
        assert forall|i: int| 0 <= i < q.len() - 1 implies g.step_in(m, #[trigger] q[i], q[i + 1]) by {
            assert(g.step_in(m, p[i + 1], p[i + 2]));
        }
        assert(g.is_walk(m, q));
        assert(g.u_reachable(start, q[0])) by {
            lemma_reach_step(g, m, p[0], p[1]);
            lemma_reach_trans(g, m, start, p[0], p[1]);
        }
        lemma_proper_walk_parity(g, start, odd, q);
        assert(q[q.len() - 1] == p[p.len() - 1]);
        assert((q.len() - 1) % 2 == (p.len() - 2) % 2);
        assert(((p.len() - 1) % 2 == 1) == ((p.len() - 2) % 2 == 0));
    }
}

/// Two same-colored nodes joined by an edge defeat every candidate
/// two-coloring: the walk has found an odd cycle.
proof fn lemma_conflict_not_colorable(g: Graph, start: NodeId, u: NodeId, w: NodeId, c: int)
    requires
        g.wf(),
        0 <= c < 2,
        g.parity_reach(start, u, c),
        g.parity_reach(start, w, c),
        g.step_in(WalkMode::Undirected, u, w),
    ensures
        !g.two_colorable_from(start),
{
    let m = WalkMode::Undirected;
    assert forall|odd: Set<NodeId>| !(#[trigger] g.proper_two_coloring(start, odd)) by {
        if g.proper_two_coloring(start, odd) {
            let pu = choose|p: Seq<NodeId>|
                #[trigger] g.is_walk(m, p) && p[0] == start && p[p.len() - 1] == u && (p.len() - 1)
                    % 2 == c;
            let pw = choose|p: Seq<NodeId>|
                #[trigger] g.is_walk(m, p) && p[0] == start && p[p.len() - 1] == w && (p.len() - 1)
                    % 2 == c;
            crate::reach::lemma_reach_refl(g, m, start);
            lemma_proper_walk_parity(g, start, odd, pu);
            lemma_proper_walk_parity(g, start, odd, pw);
            assert(odd.contains(u) == odd.contains(w));
            let e = choose|e: EdgeId| g.step_via(m, e, u, w);
            let k0 = choose|k: int| 0 <= k < g.edges@.len() && (#[trigger] g.edges@[k]).id == e;
            lemma_edge_index_is(g, e, k0);
            assert(g.u_reachable(start, g.edges@[k0].start)) by {
                lemma_parity_reachable(g, start, u, c);
                lemma_parity_reachable(g, start, w, c);
                crate::reach::lemma_reach_step(g, m, u, w);
            }
            assert(odd.contains(g.edges@[k0].start) != odd.contains(g.edges@[k0].end));
            assert(false);
        }
    }
}

/// A self-loop on a reachable node defeats every candidate two-coloring.
proof fn lemma_loop_not_colorable(g: Graph, start: NodeId, u: NodeId)
    requires
        g.wf(),
        g.u_reachable(start, u),
        g.loop_at(u),
    ensures
        !g.two_colorable_from(start),
{
    assert forall|odd: Set<NodeId>| !(#[trigger] g.proper_two_coloring(start, odd)) by {
        if g.proper_two_coloring(start, odd) {
            let k = choose|k: int|
                0 <= k < g.edges@.len() && (#[trigger] g.edges@[k]).start == u && g.edges@[k].end
                    == u;
            assert(odd.contains(g.edges@[k].start) != odd.contains(g.edges@[k].end));
            assert(false);
        }
    }
}

/// Coloring a fresh node `v`, discovered from `u` at the opposite parity,
/// maintains every invariant of the two-coloring walk.
#[verifier::rlimit(100)]
proof fn lemma_bp_discover(
    g: Graph,
    start: NodeId,
    color0: Seq<Option<usize>>,
    order0: Seq<ColorStep>,
    pending0: Seq<usize>,
    iu: usize,
    u: NodeId,
    cu: usize,
    upto: int,
    iv: usize,
    v: NodeId,
    e: EdgeId,
    nc: usize,
)
    requires
        g.wf(),
        colors_match(g, color0, order0),
        order0.len() >= 1,
        order0[0].node == start,
        order0[0].edge is None,
        order0[0].color == 0,
        forall|i2: int, j2: int|
            0 <= i2 < j2 < order0.len() ==> (#[trigger] order0[i2]).node != (
            #[trigger] order0[j2]).node,
        forall|p2: int|
            0 <= p2 < order0.len() ==> g.has_node((#[trigger] order0[p2]).node) && order0[p2].color
                < 2 && g.parity_reach(start, order0[p2].node, order0[p2].color as int),
        forall|q: int|
            0 <= q < pending0.len() ==> (#[trigger] pending0[q]) < g.nodes@.len()
                && color0[pending0[q] as int] is Some,
        bp_closed(g, color0, pending0, iu as int),
        forall|p2: int, w: NodeId|
            0 <= p2 < upto && #[trigger] g.step_via(WalkMode::Undirected, g.edges_of(u)[p2], u, w)
                ==> opp_colored(g, color0, w, 1 - cu as int),
        (iu as int) < g.nodes@.len(),
        g.nodes@[iu as int].id == u,
        color0[iu as int] == Some(cu),
        cu < 2,
        (iv as int) < g.nodes@.len(),
        g.nodes@[iv as int].id == v,
        color0[iv as int] is None,
        g.parity_reach(start, v, nc as int),
        nc as int == 1 - cu as int,
        g.has_node(v),
    ensures
        colors_match(
            g,
            color0.update(iv as int, Some(nc)),
            order0.push(ColorStep { node: v, edge: Some(e), color: nc }),
        ),
        (forall|i2: int, j2: int|
            0 <= i2 < j2 < order0.push(ColorStep { node: v, edge: Some(e), color: nc }).len()
                ==> (#[trigger] order0.push(ColorStep { node: v, edge: Some(e), color: nc })[i2]).node
                != (#[trigger] order0.push(ColorStep { node: v, edge: Some(e), color: nc })[j2]).node),
        (forall|p2: int|
            0 <= p2 < order0.push(ColorStep { node: v, edge: Some(e), color: nc }).len() ==> g.has_node(
                (#[trigger] order0.push(ColorStep { node: v, edge: Some(e), color: nc })[p2]).node,
            ) && order0.push(ColorStep { node: v, edge: Some(e), color: nc })[p2].color < 2
                && g.parity_reach(
                start,
                order0.push(ColorStep { node: v, edge: Some(e), color: nc })[p2].node,
                order0.push(ColorStep { node: v, edge: Some(e), color: nc })[p2].color as int,
            )),
        (forall|q: int|
            0 <= q < pending0.push(iv).len() ==> (#[trigger] pending0.push(iv)[q])
                < g.nodes@.len() && color0.update(iv as int, Some(nc))[pending0.push(iv)[q] as int]
                is Some),
        bp_closed(g, color0.update(iv as int, Some(nc)), pending0.push(iv), iu as int),
        (forall|p2: int, w: NodeId|
            0 <= p2 < upto && #[trigger] g.step_via(WalkMode::Undirected, g.edges_of(u)[p2], u, w)
                ==> opp_colored(g, color0.update(iv as int, Some(nc)), w, 1 - cu as int)),
        opp_colored(g, color0.update(iv as int, Some(nc)), v, 1 - cu as int),
{
    let m = WalkMode::Undirected;
    let part = ColorStep { node: v, edge: Some(e), color: nc };
    let color1 = color0.update(iv as int, Some(nc));
    let order1 = order0.push(part);
    let pending1 = pending0.push(iv);
    assert(order1[order1.len() - 1].node == v);
    assert(cstep_listed(order1, v));
    assert(!cstep_listed(order0, v));
    assert(opp_colored(g, color1, v, 1 - cu as int)) by {
        assert(g.nodes@[iv as int].id == v && color1[iv as int] == Some(nc));
    }
    assert forall|x: NodeId| cstep_listed(order0, x) implies cstep_listed(order1, x) by {
        let q = choose|q: int| 0 <= q < order0.len() && (#[trigger] order0[q]).node == x;
        assert(order1[q].node == x);
    }
    assert forall|j: int|
        0 <= j < g.nodes@.len() implies ((#[trigger] color1[j]) is Some <==> cstep_listed(
        order1,
        g.nodes@[j].id,
    )) by {
        if cstep_listed(order1, g.nodes@[j].id) {
            let q = choose|q: int|
                0 <= q < order1.len() && (#[trigger] order1[q]).node == g.nodes@[j].id;
            if q < order1.len() - 1 {
                assert(cstep_listed(order0, g.nodes@[j].id));
            } else {
                lemma_node_index_is(g, v, j);
            }
        }
    }
    assert forall|j: int, q: int|
        #![trigger order1[q], color1[j]]
        0 <= j < color1.len() && 0 <= q < order1.len() && order1[q].node == g.nodes@[j].id implies
        color1[j] == Some(order1[q].color) by {
        if q < order1.len() - 1 {
            assert(order0[q].node == g.nodes@[j].id);
            if j != iv as int {
                assert(color0[j] == Some(order0[q].color));
            } else {
                assert(cstep_listed(order0, v));
                assert(false);
            }
        } else {
            lemma_node_index_is(g, v, j);
        }
    }
    assert forall|i2: int, j2: int|
        0 <= i2 < j2 < order1.len() implies (#[trigger] order1[i2]).node != (
    #[trigger] order1[j2]).node by {
        if j2 < order1.len() - 1 {
            assert(order0[i2].node != order0[j2].node);
        } else {
            assert(order1[i2].node == order0[i2].node);
            assert(cstep_listed(order0, order0[i2].node));
        }
    }
    assert forall|q: int|
        0 <= q < pending1.len() implies (#[trigger] pending1[q]) < g.nodes@.len()
            && color1[pending1[q] as int] is Some by {
        if q < pending0.len() {
            assert(pending0[q] < g.nodes@.len() && color0[pending0[q] as int] is Some);
        }
    }
    assert forall|i2: int|
        0 <= i2 < g.nodes@.len() && (#[trigger] color1[i2]) is Some && !pending_contains(
            pending1,
            i2,
        ) && i2 != iu as int implies expanded_ok(g, color1, i2) by {
        assert(pending1[pending1.len() - 1] == iv);
        assert(pending_contains(pending1, iv as int));
        assert(i2 != iv as int);
        if pending_contains(pending0, i2) {
            let q = choose|q: int| 0 <= q < pending0.len() && (#[trigger] pending0[q]) as int == i2;
            assert(pending1[q] as int == i2);
            assert(pending_contains(pending1, i2));
        }
        assert(expanded_ok(g, color0, i2));
        assert(!g.loop_at(g.nodes@[i2].id));
        assert forall|w: NodeId| #[trigger] g.step_in(m, g.nodes@[i2].id, w) implies opp_colored(
            g,
            color1,
            w,
            1 - (color1[i2].unwrap() as int),
        ) by {
            assert(opp_colored(g, color0, w, 1 - (color0[i2].unwrap() as int)));
            let j = choose|j: int|
                0 <= j < g.nodes@.len() && (#[trigger] g.nodes@[j]).id == w && color0[j] == Some(
                    (1 - (color0[i2].unwrap() as int)) as usize,
                );
            assert(j != iv as int);
            assert(color1[j] == color0[j]);
        }
    }
    assert forall|p2: int, w: NodeId|
        0 <= p2 < upto && #[trigger] g.step_via(m, g.edges_of(u)[p2], u, w) implies opp_colored(
        g,
        color1,
        w,
        1 - cu as int,
    ) by {
        assert(opp_colored(g, color0, w, 1 - cu as int));
        let j = choose|j: int|
            0 <= j < g.nodes@.len() && (#[trigger] g.nodes@[j]).id == w && color0[j] == Some(
                (1 - cu as int) as usize,
            );
        assert(color1[j] == color0[j] || j == iv as int);
    }
}

/// A drained walk without fault covers the component and its sides form a
/// proper two-coloring: the true result is correct and complete.
proof fn lemma_walk_true_result(g: Graph, start: NodeId, color: Seq<Option<usize>>, order: Seq<ColorStep>)
    requires
        g.wf(),
        colors_match(g, color, order),
        order.len() >= 1,
        order[0].node == start,
        order[0].edge is None,
        order[0].color == 0,
        forall|i2: int, j2: int|
            0 <= i2 < j2 < order.len() ==> (#[trigger] order[i2]).node != (
            #[trigger] order[j2]).node,
        forall|p2: int|
            0 <= p2 < order.len() ==> g.has_node((#[trigger] order[p2]).node) && order[p2].color
                < 2 && g.parity_reach(start, order[p2].node, order[p2].color as int),
        forall|i2: int|
            0 <= i2 < g.nodes@.len() && (#[trigger] color[i2]) is Some ==> expanded_ok(
                g,
                color,
                i2,
            ),
    ensures
        bipartite_output_ok(g, start, order),
        g.two_colorable_from(start),
{
    let m = WalkMode::Undirected;
    let vset = Set::new(|x: NodeId| cstep_listed(order, x));
    assert forall|u2: NodeId, v2: NodeId|
        vset.contains(u2) && #[trigger] g.step_in(m, u2, v2) implies vset.contains(v2) by {
        let q = choose|q: int| 0 <= q < order.len() && (#[trigger] order[q]).node == u2;
        assert(g.has_node(u2));
        let i2 = choose|i2: int| 0 <= i2 < g.nodes@.len() && (#[trigger] g.nodes@[i2]).id == u2;
        assert(color[i2] is Some);
        assert(expanded_ok(g, color, i2));
        assert(opp_colored(g, color, v2, 1 - (color[i2].unwrap() as int)));
        let j = choose|j: int|
            0 <= j < g.nodes@.len() && (#[trigger] g.nodes@[j]).id == v2 && color[j] == Some(
                (1 - (color[i2].unwrap() as int)) as usize,
            );
        assert(cstep_listed(order, g.nodes@[j].id));
    }
    assert(g.closed_under_step(m, vset));
    assert forall|b: NodeId| #[trigger] g.u_reachable(start, b) implies cstep_listed(order, b) by {
        assert(order[0].node == start);
        assert(vset.contains(start));
        crate::reach::lemma_reach_in_closed(g, m, start, b, vset);
    }
    assert(bipartite_output_ok(g, start, order));
    // the sides assigned by the walk form a proper two-coloring
    let odd = Set::new(
        |x: NodeId|
            exists|j: int|
                0 <= j < g.nodes@.len() && (#[trigger] g.nodes@[j]).id == x && color[j] == Some(
                    1usize,
                ),
    );
    assert forall|k: int|
        0 <= k < g.edges@.len() && g.u_reachable(start, (#[trigger] g.edges@[k]).start) implies (
    odd.contains(g.edges@[k].start) != odd.contains(g.edges@[k].end)) by {
        let sk = g.edges@[k].start;
        let tk = g.edges@[k].end;
        assert(cstep_listed(order, sk));
        let qs = choose|q: int| 0 <= q < order.len() && (#[trigger] order[q]).node == sk;
        assert(g.has_node(sk));
        let is_ = choose|i2: int| 0 <= i2 < g.nodes@.len() && (#[trigger] g.nodes@[i2]).id == sk;
        assert(color[is_] is Some);
        assert(expanded_ok(g, color, is_));
        if sk == tk {
            assert(g.loop_at(sk)) by {
                assert(g.edges@[k].start == sk && g.edges@[k].end == sk);
            }
            assert(false);
        }
        assert(g.step_via(m, g.edges@[k].id, sk, tk)) by {
            lemma_edge_index_is(g, g.edges@[k].id, k);
        }
        assert(g.step_in(m, g.nodes@[is_].id, tk));
        assert(opp_colored(g, color, tk, 1 - (color[is_].unwrap() as int)));
        let jt = choose|j: int|
            0 <= j < g.nodes@.len() && (#[trigger] g.nodes@[j]).id == tk && color[j] == Some(
                (1 - (color[is_].unwrap() as int)) as usize,
            );
        let cs = color[is_].unwrap() as int;
        assert(cs == 0 || cs == 1) by {
            assert(color[is_] == Some(order[qs].color));
            assert(order[qs].color < 2);
        }
        assert(odd.contains(sk) == (cs == 1)) by {
            if cs == 1 {
                assert(g.nodes@[is_].id == sk && color[is_] == Some(1usize));
            }
            if odd.contains(sk) {
                let j0 = choose|j: int|
                    0 <= j < g.nodes@.len() && (#[trigger] g.nodes@[j]).id == sk && color[j]
                        == Some(1usize);
                lemma_node_index_is(g, sk, j0);
                lemma_node_index_is(g, sk, is_);
            }
        }
        assert(odd.contains(tk) == (cs == 0)) by {
            if cs == 0 {
                assert(g.nodes@[jt].id == tk && color[jt] == Some(1usize));
            }
            if odd.contains(tk) {
                let j0 = choose|j: int|
                    0 <= j < g.nodes@.len() && (#[trigger] g.nodes@[j]).id == tk && color[j]
                        == Some(1usize);
                lemma_node_index_is(g, tk, j0);
                lemma_node_index_is(g, tk, jt);
            }
        }
    }
    assert(g.proper_two_coloring(start, odd));
    assert(g.two_colorable_from(start));
}

impl Graph {
    /// Walks the component of `start` ignoring edge direction, assigning
    /// alternating color sets 0 and 1 at discovery time, and reports whether
    /// the component admits a proper two-coloring: false exactly when the
    /// walk meets a self-loop or an edge joining two same-colored nodes.
    /// On success the coloring events cover the whole component, each node
    /// once, at the parity of a walk that reaches it.
    ///
    /// Fails when `start` is not a registered node.
    #[verifier::rlimit(100)]
    pub fn bipartite_walk(&self, start: NodeId) -> (r: Result<(bool, Vec<ColorStep>), GraphError>)
        requires
            self.wf(),
        ensures
            match r {
                Ok(res) => {
                    &&& self.has_node(start)
                    &&& res.0 == self.two_colorable_from(start)
                    &&& (res.0 ==> bipartite_output_ok(*self, start, res.1@))
                },
                Err(e) => !self.has_node(start) && e == GraphError::PreconditionViolation,
            },
    {
        let ghost g = *self;
        let ghost m = WalkMode::Undirected;
        let si = match self.find_node(start) {
            Some(i) => i,
            None => {
                return Err(GraphError::PreconditionViolation);
            },
        };
        proof {
            lemma_node_index_is(g, start, si as int);
        }

        let n = self.nodes.len();
        let mut marked: Vec<bool> = Vec::new();
        let mut color: Vec<Option<usize>> = Vec::new();
        let mut i: usize = 0;
        while i < n
            invariant
                i <= n,
                marked@.len() == i && color@.len() == i,
                forall|j: int| 0 <= j < i ==> !(#[trigger] marked@[j]),
                forall|j: int| 0 <= j < i ==> (#[trigger] color@[j]) is None,
                count_true(marked@) == 0,
            decreases n - i,
        {
            proof {
                lemma_count_true_push(marked@, false);
            }
            marked.push(false);
            color.push(None);
            i = i + 1;
        }

        let mut order: Vec<ColorStep> = Vec::new();
        let mut pending: Vec<usize> = Vec::new();
        proof {
            lemma_count_true_update(marked@, si as int);
            crate::reach::lemma_reach_refl(g, m, start);
            assert(g.parity_reach(start, start, 0)) by {
                let p: Seq<NodeId> = seq![start];
                assert(g.is_walk(m, p));
                assert(p[0] == start && p[p.len() - 1] == start && (p.len() - 1) % 2 == 0);
            }
        }
        marked.set(si, true);
        color.set(si, Some(0));
        order.push(ColorStep { node: start, edge: None, color: 0 });
        pending.push(si);
        proof {
            assert(pending@[0] == si);
            assert(pending_contains(pending@, si as int));
            assert(order@[0].node == start);
            assert(cstep_listed(order@, start));
        }

        while pending.len() > 0
            invariant
                g == *self,
                g.wf(),
                m == WalkMode::Undirected,
                marked@.len() == g.nodes@.len(),
                color@.len() == g.nodes@.len(),
                forall|j: int|
                    0 <= j < g.nodes@.len() ==> ((#[trigger] marked@[j]) <==> color@[j] is Some),
                colors_match(g, color@, order@),
                count_true(marked@) == order@.len(),
                count_true(marked@) <= g.nodes@.len(),
                order@.len() >= 1,
                order@[0].node == start,
                order@[0].edge is None,
                order@[0].color == 0,
                forall|i2: int, j2: int|
                    0 <= i2 < j2 < order@.len() ==> (#[trigger] order@[i2]).node != (
                    #[trigger] order@[j2]).node,
                forall|p2: int|
                    0 <= p2 < order@.len() ==> g.has_node((#[trigger] order@[p2]).node)
                        && order@[p2].color < 2 && g.parity_reach(
                        start,
                        order@[p2].node,
                        order@[p2].color as int,
                    ),
                forall|q: int|
                    0 <= q < pending@.len() ==> (#[trigger] pending@[q]) < g.nodes@.len()
                        && color@[pending@[q] as int] is Some,
                bp_closed(g, color@, pending@, -1),
            decreases g.nodes@.len() - count_true(marked@), pending@.len(),
        {
            proof {
                lemma_count_true_bounds(marked@);
            }
            let ghost ct0 = count_true(marked@);
            let ghost plen0 = pending@.len();
            let ghost pend0 = pending@;
            let iu = match pending.pop() {
                Some(x) => x,
                None => {
                    proof {
                        assert(false);
                    }
                    0
                },
            };
            let u = self.nodes[iu].id;
            let cu = match color[iu] {
                Some(c) => c,
                None => {
                    proof {
                        assert(false);
                    }
                    0
                },
            };
            proof {
                assert(pend0 =~= pending@.push(iu));
                assert forall|i2: int|
                    0 <= i2 < g.nodes@.len() && (#[trigger] color@[i2]) is Some
                        && !pending_contains(pending@, i2) && i2 != iu as int implies expanded_ok(
                    g,
                    color@,
                    i2,
                ) by {
                    if pending_contains(pend0, i2) {
                        let q = choose|q: int|
                            0 <= q < pend0.len() && (#[trigger] pend0[q]) as int == i2;
                        if q < pend0.len() - 1 {
                            assert(pending@[q] as int == i2);
                            assert(pending_contains(pending@, i2));
                        }
                        assert(false);
                    }
                }
                lemma_node_index_is(g, u, iu as int);
                assert(cstep_listed(order@, u));
                assert(cu < 2 && g.parity_reach(start, u, cu as int)) by {
                    let p = choose|p: int|
                        0 <= p < order@.len() && (#[trigger] order@[p]).node == u;
                    assert(color@[iu as int] == Some(order@[p].color));
                }
            }

            let edge_count = self.nodes[iu].edges.len();
            let mut p: usize = 0;
            while p < edge_count
                invariant
                    g == *self,
                    g.wf(),
                    m == WalkMode::Undirected,
                    iu < g.nodes@.len(),
                    g.nodes@[iu as int].id == u,
                    g.node_index(u) == iu as int,
                    marked@[iu as int],
                    color@[iu as int] == Some(cu),
                    cu < 2,
                    g.parity_reach(start, u, cu as int),
                    marked@.len() == g.nodes@.len(),
                    color@.len() == g.nodes@.len(),
                    forall|j: int|
                        0 <= j < g.nodes@.len() ==> ((#[trigger] marked@[j]) <==> color@[j]
                            is Some),
                    colors_match(g, color@, order@),
                    count_true(marked@) == order@.len(),
                    count_true(marked@) <= g.nodes@.len(),
                    count_true(marked@) >= ct0,
                    pending@.len() + ct0 == plen0 - 1 + count_true(marked@),
                    order@.len() >= 1,
                    order@[0].node == start,
                    order@[0].edge is None,
                    order@[0].color == 0,
                    forall|i2: int, j2: int|
                        0 <= i2 < j2 < order@.len() ==> (#[trigger] order@[i2]).node != (
                        #[trigger] order@[j2]).node,
                    forall|p2: int|
                        0 <= p2 < order@.len() ==> g.has_node((#[trigger] order@[p2]).node)
                            && order@[p2].color < 2 && g.parity_reach(
                            start,
                            order@[p2].node,
                            order@[p2].color as int,
                        ),
                    forall|q: int|
                        0 <= q < pending@.len() ==> (#[trigger] pending@[q]) < g.nodes@.len()
                            && color@[pending@[q] as int] is Some,
                    bp_closed(g, color@, pending@, iu as int),
                    p <= edge_count,
                    edge_count == g.edges_of(u).len(),
                    forall|p2: int|
                        0 <= p2 < p ==> !((#[trigger] g.edges@[g.edge_index(g.edges_of(u)[p2])]).start
                            == g.edges@[g.edge_index(g.edges_of(u)[p2])].end),
                    forall|p2: int, v: NodeId|
                        0 <= p2 < p && #[trigger] g.step_via(m, g.edges_of(u)[p2], u, v)
                            ==> opp_colored(g, color@, v, 1 - cu as int),
                decreases edge_count - p,
            {
                let e = self.nodes[iu].edges[p];
                proof {
                    assert(g.edges_of(u)[p as int] == e);
                    assert(g.has_edge(g.nodes@[iu as int].edges@[p as int]) && g.touches(
                        g.nodes@[iu as int].edges@[p as int],
                        g.nodes@[iu as int].id,
                    ));
                }
                let k = match self.find_edge(e) {
                    Some(k) => k,
                    None => {
                        proof {
                            assert(false);
                        }
                        0
                    },
                };
                proof {
                    lemma_edge_index_is(g, e, k as int);
                }
                let s = self.edges[k].start;
                let t = self.edges[k].end;
                if s == t {
                    proof {
                        assert(g.loop_at(u)) by {
                            assert(g.edges@[k as int].start == u && g.edges@[k as int].end == u);
                        }
                        lemma_parity_reachable(g, start, u, cu as int);
                        lemma_loop_not_colorable(g, start, u);
                    }
                    return Ok((false, order));
                }
                let v: NodeId = if u == s {
                    t
                } else {
                    s
                };
                proof {
                    assert(g.step_via(m, e, u, v));
                    assert forall|w: NodeId| #[trigger] g.step_via(m, e, u, w) implies w == v by {}
                }
                let iv = match self.find_node(v) {
                    Some(x) => x,
                    None => {
                        proof {
                            assert(false);
                        }
                        0
                    },
                };
                proof {
                    lemma_node_index_is(g, v, iv as int);
                }
                let nc = 1 - cu;
                match color[iv] {
                    Some(cv) => {
                        if cv == cu {
                            proof {
                                assert(g.parity_reach(start, v, cu as int)) by {
                                    assert(cstep_listed(order@, v));
                                    let p2 = choose|p2: int|
                                        0 <= p2 < order@.len() && (#[trigger] order@[p2]).node
                                            == v;
                                    assert(color@[iv as int] == Some(order@[p2].color));
                                }
                                lemma_conflict_not_colorable(g, start, u, v, cu as int);
                            }
                            return Ok((false, order));
                        }
                        proof {
                            assert(color@[iv as int] == Some(nc));
                            assert(opp_colored(g, color@, v, 1 - cu as int));
                        }
                    },
                    None => {
                        proof {
                            lemma_count_true_update(marked@, iv as int);
                            lemma_count_true_bounds(marked@.update(iv as int, true));
                            lemma_parity_step(g, start, u, v, cu as int);
                            lemma_bp_discover(
                                g,
                                start,
                                color@,
                                order@,
                                pending@,
                                iu,
                                u,
                                cu,
                                p as int,
                                iv,
                                v,
                                e,
                                nc,
                            );
                        }
                        marked.set(iv, true);
                        color.set(iv, Some(nc));
                        order.push(ColorStep { node: v, edge: Some(e), color: nc });
                        pending.push(iv);
                    },
                }
                proof {
                    assert(!(g.edges@[g.edge_index(g.edges_of(u)[p as int])].start
                        == g.edges@[g.edge_index(g.edges_of(u)[p as int])].end));
                    assert forall|p2: int, w: NodeId|
                        0 <= p2 < p + 1 && #[trigger] g.step_via(m, g.edges_of(u)[p2], u, w)
                            implies opp_colored(g, color@, w, 1 - cu as int) by {
                        if p2 == p as int {
                            assert(w == v);
                        }
                    }
                }
                p = p + 1;
            }
            proof {
                assert(expanded_ok(g, color@, iu as int)) by {
                    assert(!g.loop_at(u)) by {
                        if g.loop_at(u) {
                            let k = choose|k: int|
                                0 <= k < g.edges@.len() && (#[trigger] g.edges@[k]).start == u
                                    && g.edges@[k].end == u;
                            let e = g.edges@[k].id;
                            lemma_edge_index_is(g, e, k);
                            assert(g.edges_of(g.edges@[k].start).contains(g.edges@[k].id));
                            let p2 = choose|p2: int|
                                0 <= p2 < g.edges_of(u).len() && g.edges_of(u)[p2] == e;
                            assert(g.edges@[g.edge_index(g.edges_of(u)[p2])].start
                                == g.edges@[g.edge_index(g.edges_of(u)[p2])].end);
                        }
                    }
                    assert forall|w: NodeId| #[trigger] g.step_in(m, u, w) implies opp_colored(
                        g,
                        color@,
                        w,
                        1 - cu as int,
                    ) by {
                        let e = choose|e: EdgeId| g.step_via(m, e, u, w);
                        lemma_step_edge_in_list(g, m, e, u, w);
                        let p2 = choose|p2: int|
                            0 <= p2 < g.edges_of(u).len() && g.edges_of(u)[p2] == e;
                        assert(g.step_via(m, g.edges_of(u)[p2], u, w));
                    }
                    assert(color@[iu as int].unwrap() == cu);
                }
                assert forall|i2: int|
                    0 <= i2 < g.nodes@.len() && (#[trigger] color@[i2]) is Some
                        && !pending_contains(pending@, i2) && i2 != -1 implies expanded_ok(
                    g,
                    color@,
                    i2,
                ) by {}
            }
        }

        proof {
            assert forall|i2: int|
                0 <= i2 < g.nodes@.len() && (#[trigger] color@[i2]) is Some implies expanded_ok(
                g,
                color@,
                i2,
            ) by {
                assert(!pending_contains(pending@, i2));
            }
            lemma_walk_true_result(g, start, color@, order@);
        }
        Ok((true, order))
    }
}

} // verus!
