//! The depth-first walk at the heart of every traversal query: the
//! spanning-tree walk, the connectivity test, and the bridge test.

use vstd::prelude::*;

use crate::graph::{
    lemma_edge_index_is, lemma_node_index_is, EdgeId, Graph, GraphError, NodeId, PathPart,
};
use crate::reach::{
    lemma_reach_in_closed, lemma_reach_refl, lemma_reach_step, lemma_reach_trans, WalkMode,
};

verus! {

/// The number of true entries of a boolean sequence: the progress measure of
/// the walk, which marks each node at most once.
pub open spec fn count_true(s: Seq<bool>) -> int
    decreases s.len(),
{
    if s.len() == 0 {
        0
    } else {
        count_true(s.drop_last()) + (if s.last() {
            1int
        } else {
            0int
        })
    }
}

pub(crate) proof fn lemma_count_true_bounds(s: Seq<bool>)
    ensures
        0 <= count_true(s) <= s.len(),
    decreases s.len(),
{
    if s.len() > 0 {
        lemma_count_true_bounds(s.drop_last());
    }
}

pub(crate) proof fn lemma_count_true_push(s: Seq<bool>, b: bool)
    ensures
        count_true(s.push(b)) == count_true(s) + (if b {
            1int
        } else {
            0int
        }),
{
    assert(s.push(b).drop_last() =~= s);
}

pub(crate) proof fn lemma_count_true_update(s: Seq<bool>, i: int)
    requires
        0 <= i < s.len(),
        !s[i],
    ensures
        count_true(s.update(i, true)) == count_true(s) + 1,
    decreases s.len(),
{
    if i == s.len() - 1 {
        assert(s.update(i, true).drop_last() =~= s.drop_last());
        assert(s.update(i, true).last());
    } else {
        assert(s.update(i, true).drop_last() =~= s.drop_last().update(i, true));
        lemma_count_true_update(s.drop_last(), i);
        assert(s.update(i, true).last() == s.last());
    }
}

/// Some position of `order` lists node `n`.
pub open spec fn order_contains(order: Seq<PathPart>, n: NodeId) -> bool {
    exists|p: int| 0 <= p < order.len() && (#[trigger] order[p]).node == n
}

/// Position `i` of `order` was discovered from an earlier position over its
/// recorded edge: the spanning-tree property of the walk.
pub open spec fn discovery_ok(g: Graph, m: WalkMode, order: Seq<PathPart>, i: int) -> bool {
    exists|j: int, e: EdgeId|
        0 <= j < i && order[i].edge == Some(e) && #[trigger] g.step_via(
            m,
            e,
            order[j].node,
            order[i].node,
        )
}

/// The shape every walk prefix keeps: it begins at `start` with no incoming
/// edge, lists each node at most once, lists only registered nodes reachable
/// from `start`, and records for every later node the edge over which it was
/// first reached from an earlier one.
pub open spec fn order_sound(g: Graph, m: WalkMode, start: NodeId, order: Seq<PathPart>) -> bool {
    &&& order.len() >= 1
    &&& order[0].node == start
    &&& order[0].edge is None
    &&& (forall|i: int, j: int|
        0 <= i < j < order.len() ==> (#[trigger] order[i]).node != (#[trigger] order[j]).node)
    &&& (forall|i: int|
        0 <= i < order.len() ==> g.has_node((#[trigger] order[i]).node) && g.walk_reach(
            m,
            start,
            order[i].node,
        ))
    &&& (forall|i: int| 1 <= i < order.len() ==> discovery_ok(g, m, order, i))
}

/// The full contract of a completed walk from `start` under mode `m`: a
/// sound order that lists every node reachable from `start`.
pub open spec fn walk_output_ok(g: Graph, m: WalkMode, start: NodeId, order: Seq<PathPart>) -> bool {
    &&& order_sound(g, m, start, order)
    &&& (forall|b: NodeId| #[trigger] g.walk_reach(m, start, b) ==> order_contains(order, b))
}

/// The marks agree with the discovery order: node record `i` is marked
/// exactly when its node has been listed.
pub(crate) open spec fn marks_match(g: Graph, marked: Seq<bool>, order: Seq<PathPart>) -> bool {
    &&& marked.len() == g.nodes@.len()
    &&& (forall|i: int|
        0 <= i < marked.len() ==> ((#[trigger] marked[i]) <==> order_contains(
            order,
            g.nodes@[i].id,
        )))
}

/// Every pending entry is a valid, marked node record index.
pub(crate) open spec fn pending_ok(g: Graph, marked: Seq<bool>, pending: Seq<usize>) -> bool {
    forall|q: int|
        0 <= q < pending.len() ==> (#[trigger] pending[q]) < g.nodes@.len() && marked[pending[q] as int]
}

/// Some pending entry is the node record index `i`.
pub(crate) open spec fn pending_contains(pending: Seq<usize>, i: int) -> bool {
    exists|q: int| 0 <= q < pending.len() && (#[trigger] pending[q]) as int == i
}

/// Every marked node that is neither pending nor the record `excl` has had
/// all its step successors listed. With `excl == -1` no record is exempt.
pub(crate) open spec fn closure_except(
    g: Graph,
    m: WalkMode,
    marked: Seq<bool>,
    pending: Seq<usize>,
    order: Seq<PathPart>,
    excl: int,
) -> bool {
    forall|i: int, v: NodeId|
        0 <= i < g.nodes@.len() && marked[i] && !pending_contains(pending, i) && i != excl && (
        #[trigger] g.step_in(m, g.nodes@[i].id, v)) ==> order_contains(order, v)
}

/// The first `upto` incident edges of `u` lead only to listed nodes.
pub(crate) open spec fn list_closed(
    g: Graph,
    m: WalkMode,
    order: Seq<PathPart>,
    u: NodeId,
    upto: int,
) -> bool {
    forall|p2: int, v: NodeId|
        0 <= p2 < upto && (#[trigger] g.step_via(m, g.edges_of(u)[p2], u, v)) ==> order_contains(
            order,
            v,
        )
}

/// An edge that permits a step from `u` appears in `u`'s incident list.
pub(crate) proof fn lemma_step_edge_in_list(g: Graph, m: WalkMode, e: EdgeId, u: NodeId, v: NodeId)
    requires
        g.wf(),
        g.step_via(m, e, u, v),
    ensures
        g.edges_of(u).contains(e),
{
    let k0 = choose|k: int| 0 <= k < g.edges@.len() && (#[trigger] g.edges@[k]).id == e;
    lemma_edge_index_is(g, e, k0);
    assert(g.edges_of(g.edges@[k0].start).contains(g.edges@[k0].id));
}

/// Listing one more node keeps every earlier containment witness valid.
proof fn lemma_order_push_contains(order0: Seq<PathPart>, part: PathPart)
    ensures
        forall|n: NodeId|
            #[trigger] order_contains(order0, n) ==> order_contains(order0.push(part), n),
        order_contains(order0.push(part), part.node),
{
    let order1 = order0.push(part);
    assert(order1[order1.len() - 1].node == part.node);
    assert forall|n: NodeId| #[trigger] order_contains(order0, n) implies order_contains(
        order1,
        n,
    ) by {
        let q = choose|q: int| 0 <= q < order0.len() && (#[trigger] order0[q]).node == n;
        assert(order1[q].node == n);
    }
}

/// Marking a fresh node and listing it keeps the marks in step with the
/// order.
proof fn lemma_discover_marks(
    g: Graph,
    marked0: Seq<bool>,
    order0: Seq<PathPart>,
    iv: int,
    v: NodeId,
    e: EdgeId,
)
    requires
        g.nodes_distinct(),
        marks_match(g, marked0, order0),
        0 <= iv < g.nodes@.len(),
        g.nodes@[iv].id == v,
        !marked0[iv],
    ensures
        marks_match(g, marked0.update(iv, true), order0.push(PathPart { node: v, edge: Some(e) })),
        !order_contains(order0, v),
{
    let part = PathPart { node: v, edge: Some(e) };
    let order1 = order0.push(part);
    let marked1 = marked0.update(iv, true);
    let last = order1.len() - 1;
    lemma_order_push_contains(order0, part);
    assert forall|i: int| 0 <= i < marked1.len() implies ((#[trigger] marked1[i])
        <==> order_contains(order1, g.nodes@[i].id)) by {
        if order_contains(order1, g.nodes@[i].id) {
            let q = choose|q: int|
                0 <= q < order1.len() && (#[trigger] order1[q]).node == g.nodes@[i].id;
            if q < last {
                assert(order_contains(order0, g.nodes@[i].id));
            } else {
                lemma_node_index_is(g, v, i);
                assert(i == iv);
            }
        }
    }
}

/// Appending a node freshly discovered over a recorded edge keeps the order
/// sound.
proof fn lemma_discover_sound(
    g: Graph,
    m: WalkMode,
    start: NodeId,
    order0: Seq<PathPart>,
    u: NodeId,
    v: NodeId,
    e: EdgeId,
)
    requires
        order_sound(g, m, start, order0),
        !order_contains(order0, v),
        order_contains(order0, u),
        g.walk_reach(m, start, u),
        g.step_via(m, e, u, v),
        g.has_node(v),
    ensures
        order_sound(g, m, start, order0.push(PathPart { node: v, edge: Some(e) })),
{
    let part = PathPart { node: v, edge: Some(e) };
    let order1 = order0.push(part);
    let last = order1.len() - 1;
    lemma_reach_step(g, m, u, v);
    lemma_reach_trans(g, m, start, u, v);
    assert forall|i: int, j: int| 0 <= i < j < order1.len() implies (#[trigger] order1[i]).node != (
    #[trigger] order1[j]).node by {
        if j < last {
            assert(order0[i].node != order0[j].node);
        } else {
            assert(order1[i].node == order0[i].node);
            assert(order_contains(order0, order0[i].node));
        }
    }
    let j0 = choose|j: int| 0 <= j < order0.len() && (#[trigger] order0[j]).node == u;
    assert(g.step_via(m, e, order1[j0].node, order1[last].node));
    assert(discovery_ok(g, m, order1, last));
    assert forall|i: int| 1 <= i < order1.len() implies discovery_ok(g, m, order1, i) by {
        if i < last {
            assert(discovery_ok(g, m, order0, i));
            let (j, e2): (int, EdgeId) = choose|j: int, e2: EdgeId|
                0 <= j < i && order0[i].edge == Some(e2) && (#[trigger] g.step_via(
                    m,
                    e2,
                    order0[j].node,
                    order0[i].node,
                ));
            assert(g.step_via(m, e2, order1[j].node, order1[i].node));
        }
    }
}

/// Pushing the fresh node onto the pending stack keeps the pending set, the
/// closure bookkeeping, and the partial list closure of the node under
/// expansion.
proof fn lemma_discover_closure(
    g: Graph,
    m: WalkMode,
    marked0: Seq<bool>,
    order0: Seq<PathPart>,
    pending0: Seq<usize>,
    excl: int,
    u: NodeId,
    upto: int,
    iv: usize,
    v: NodeId,
    e: EdgeId,
)
    requires
        marks_match(g, marked0, order0),
        pending_ok(g, marked0, pending0),
        closure_except(g, m, marked0, pending0, order0, excl),
        list_closed(g, m, order0, u, upto),
        iv < g.nodes@.len(),
        g.nodes@[iv as int].id == v,
        !marked0[iv as int],
    ensures
        pending_ok(g, marked0.update(iv as int, true), pending0.push(iv)),
        closure_except(
            g,
            m,
            marked0.update(iv as int, true),
            pending0.push(iv),
            order0.push(PathPart { node: v, edge: Some(e) }),
            excl,
        ),
        list_closed(g, m, order0.push(PathPart { node: v, edge: Some(e) }), u, upto),
{
    let part = PathPart { node: v, edge: Some(e) };
    let order1 = order0.push(part);
    let marked1 = marked0.update(iv as int, true);
    let pending1 = pending0.push(iv);
    lemma_order_push_contains(order0, part);
    assert forall|q: int| 0 <= q < pending1.len() implies (#[trigger] pending1[q])
        < g.nodes@.len() && marked1[pending1[q] as int] by {
        if q < pending0.len() {
            assert(pending0[q] < g.nodes@.len() && marked0[pending0[q] as int]);
        }
    }
    assert forall|i: int, w: NodeId|
        0 <= i < g.nodes@.len() && marked1[i] && !pending_contains(pending1, i) && i != excl && (
        #[trigger] g.step_in(m, g.nodes@[i].id, w)) implies order_contains(order1, w) by {
        assert(pending1[pending1.len() - 1] == iv);
        assert(pending_contains(pending1, iv as int));
        assert(i != iv as int);
        if pending_contains(pending0, i) {
            let q = choose|q: int| 0 <= q < pending0.len() && (#[trigger] pending0[q]) as int == i;
            assert(pending1[q] as int == i);
            assert(pending_contains(pending1, i));
        }
        assert(order_contains(order0, w));
    }
    assert forall|p2: int, w: NodeId|
        0 <= p2 < upto && (#[trigger] g.step_via(m, g.edges_of(u)[p2], u, w)) implies
        order_contains(order1, w) by {
        assert(order_contains(order0, w));
    }
}

/// Popping a pending record exempts exactly that record from the closure
/// bookkeeping.
proof fn lemma_pop_closure(
    g: Graph,
    m: WalkMode,
    marked: Seq<bool>,
    pend0: Seq<usize>,
    pending1: Seq<usize>,
    order: Seq<PathPart>,
    iu: usize,
)
    requires
        pend0 == pending1.push(iu),
        closure_except(g, m, marked, pend0, order, -1),
    ensures
        closure_except(g, m, marked, pending1, order, iu as int),
{
    assert forall|i: int, v: NodeId|
        0 <= i < g.nodes@.len() && marked[i] && !pending_contains(pending1, i) && i != iu as int
            && (#[trigger] g.step_in(m, g.nodes@[i].id, v)) implies order_contains(order, v) by {
        if pending_contains(pend0, i) {
            let q = choose|q: int| 0 <= q < pend0.len() && (#[trigger] pend0[q]) as int == i;
            if q < pend0.len() - 1 {
                assert(pending1[q] as int == i);
                assert(pending_contains(pending1, i));
            }
            assert(false);
        }
    }
}

/// A fully expanded record rejoins the closure bookkeeping: every step out
/// of `u` runs over some edge of `u`'s list, all of which now lead to listed
/// nodes.
proof fn lemma_expand_done(
    g: Graph,
    m: WalkMode,
    marked: Seq<bool>,
    pending: Seq<usize>,
    order: Seq<PathPart>,
    iu: int,
    u: NodeId,
)
    requires
        g.wf(),
        0 <= iu < g.nodes@.len(),
        g.nodes@[iu].id == u,
        closure_except(g, m, marked, pending, order, iu),
        list_closed(g, m, order, u, g.edges_of(u).len() as int),
    ensures
        closure_except(g, m, marked, pending, order, -1),
{
    assert forall|i: int, v: NodeId|
        0 <= i < g.nodes@.len() && marked[i] && !pending_contains(pending, i) && i != -1 && (
        #[trigger] g.step_in(m, g.nodes@[i].id, v)) implies order_contains(order, v) by {
        if i == iu {
            let e = choose|e: EdgeId| g.step_via(m, e, u, v);
            lemma_step_edge_in_list(g, m, e, u, v);
            let p2 = choose|p2: int| 0 <= p2 < g.edges_of(u).len() && g.edges_of(u)[p2] == e;
            assert(g.step_via(m, g.edges_of(u)[p2], u, v));
        }
    }
}

impl Graph {
    /// Whether any position of `order` lists node `b`.
    fn order_find(order: &Vec<PathPart>, b: NodeId) -> (r: bool)
        ensures
            r == order_contains(order@, b),
    {
        let mut p: usize = 0;
        while p < order.len()
            invariant
                p <= order@.len(),
                forall|q: int| 0 <= q < p ==> (#[trigger] order@[q]).node != b,
            decreases order@.len() - p,
        {
            if order[p].node == b {
                return true;
            }
            p = p + 1;
        }
        false
    }

    /// The iterative depth-first walk: discovers, in depth-first order, every
    /// node reachable from `start` under mode `m`, recording for each the
    /// edge over which it was first reached.
    #[verifier::loop_isolation(false)]
    #[verifier::rlimit(60)]
    pub(crate) fn walk_core(&self, m: WalkMode, start: NodeId) -> (order: Vec<PathPart>)
        requires
            self.wf(),
            self.has_node(start),
        ensures
            walk_output_ok(*self, m, start, order@),
    {
        let ghost g = *self;
        let si = match self.find_node(start) {
            Some(i) => i,
            None => {
                proof {
                    assert(false);
                }
                0
            },
        };

        let mut marked: Vec<bool> = Vec::new();
        while marked.len() < self.nodes.len()
            invariant
                marked@.len() <= g.nodes@.len(),
                forall|i: int| 0 <= i < marked@.len() ==> !(#[trigger] marked@[i]),
                count_true(marked@) == 0,
            decreases g.nodes@.len() - marked@.len(),
        {
            proof {
                lemma_count_true_push(marked@, false);
            }
            marked.push(false);
        }

        let mut order: Vec<PathPart> = Vec::new();
        let mut pending: Vec<usize> = Vec::new();

        proof {
            lemma_count_true_update(marked@, si as int);
            lemma_reach_refl(g, m, start);
            lemma_node_index_is(g, start, si as int);
        }
        marked.set(si, true);
        order.push(PathPart::without_edge(start));
        pending.push(si);
        proof {
            assert(pending@[0] == si);
            assert(pending@.contains(si));
            assert(order@[0].node == start);
        }

        while pending.len() > 0
            invariant
                marks_match(g, marked@, order@),
                count_true(marked@) == order@.len(),
                count_true(marked@) <= g.nodes@.len(),
                order_sound(g, m, start, order@),
                pending_ok(g, marked@, pending@),
                closure_except(g, m, marked@, pending@, order@, -1),
            decreases g.nodes@.len() - count_true(marked@), pending@.len(),
        {
            proof {
                lemma_count_true_bounds(marked@);
            }
            let ghost ct0 = count_true(marked@);
            let ghost plen0 = pending@.len();
            let ghost pend0 = pending@;
            let iu = match pending.pop() {
                Some(i) => i,
                None => {
                    proof {
                        assert(false);
                    }
                    0
                },
            };
            let u = self.nodes[iu].id;
            proof {
                assert(pend0 =~= pending@.push(iu));
                lemma_pop_closure(g, m, marked@, pend0, pending@, order@, iu);
                lemma_node_index_is(g, u, iu as int);
                assert(order_contains(order@, u));
                let q0 = choose|q: int| 0 <= q < order@.len() && (#[trigger] order@[q]).node == u;
                assert(g.walk_reach(m, start, u));
            }

            let edge_count = self.nodes[iu].edges.len();
            let mut p: usize = 0;
            while p < edge_count
                invariant
                    p <= edge_count,
                    edge_count == g.edges_of(u).len(),
                    iu < g.nodes@.len(),
                    g.nodes@[iu as int].id == u,
                    g.node_index(u) == iu as int,
                    order_contains(order@, u),
                    g.walk_reach(m, start, u),
                    marks_match(g, marked@, order@),
                    count_true(marked@) == order@.len(),
                    count_true(marked@) <= g.nodes@.len(),
                    count_true(marked@) >= ct0,
                    pending@.len() + ct0 == plen0 - 1 + count_true(marked@),
                    order_sound(g, m, start, order@),
                    pending_ok(g, marked@, pending@),
                    closure_except(g, m, marked@, pending@, order@, iu as int),
                    list_closed(g, m, order@, u, p as int),
                decreases edge_count - p,
            {
                let e = self.nodes[iu].edges[p];
                proof {
                    assert(g.edges_of(u)[p as int] == e);
                }
                let avoided = match m {
                    WalkMode::Avoiding(x) => (e == x),
                    _ => false,
                };
                if !avoided {
                    let kk = match self.find_edge(e) {
                        Some(k) => k,
                        None => {
                            proof {
                                assert(false);
                            }
                            0
                        },
                    };
                    proof {
                        lemma_edge_index_is(g, e, kk as int);
                    }
                    let s = self.edges[kk].start;
                    let t = self.edges[kk].end;
                    if s != t {
                        let follow_back = match m {
                            WalkMode::Forward => !self.directed,
                            _ => true,
                        };
                        let mut vopt: Option<NodeId> = None;
                        if u == s {
                            vopt = Some(t);
                        } else if u == t && follow_back {
                            vopt = Some(s);
                        }
                        if let Some(v) = vopt {
                            proof {
                                assert(g.step_via(m, e, u, v));
                                assert forall|w: NodeId| #[trigger] g.step_via(m, e, u, w) implies w
                                    == v by {}
                            }
                            let iv = match self.find_node(v) {
                                Some(i) => i,
                                None => {
                                    proof {
                                        assert(false);
                                    }
                                    0
                                },
                            };
                            proof {
                                lemma_node_index_is(g, v, iv as int);
                            }
                            if !marked[iv] {
                                proof {
                                    lemma_count_true_update(marked@, iv as int);
                                    lemma_discover_marks(g, marked@, order@, iv as int, v, e);
                                    lemma_discover_sound(g, m, start, order@, u, v, e);
                                    lemma_discover_closure(
                                        g,
                                        m,
                                        marked@,
                                        order@,
                                        pending@,
                                        iu as int,
                                        u,
                                        p as int,
                                        iv,
                                        v,
                                        e,
                                    );
                                    lemma_count_true_bounds(marked@.update(iv as int, true));
                                    lemma_order_push_contains(
                                        order@,
                                        PathPart { node: v, edge: Some(e) },
                                    );
                                }
                                marked.set(iv, true);
                                order.push(PathPart::with_edge(v, e));
                                pending.push(iv);
                            }
                            proof {
                                assert(marked@[iv as int]);
                                assert(order_contains(order@, v));
                                assert forall|w: NodeId| #[trigger] g.step_via(
                                    m,
                                    g.edges_of(u)[p as int],
                                    u,
                                    w,
                                ) implies order_contains(order@, w) by {
                                    assert(w == v);
                                }
                            }
                        } else {
                            proof {
                                assert forall|w: NodeId| !g.step_via(m, e, u, w) by {}
                            }
                        }
                    } else {
                        proof {
                            assert forall|w: NodeId| !g.step_via(m, e, u, w) by {}
                        }
                    }
                } else {
                    proof {
                        assert forall|w: NodeId| !g.step_via(m, e, u, w) by {}
                    }
                }
                proof {
                    assert(list_closed(g, m, order@, u, p + 1));
                }
                p = p + 1;
            }
            proof {
                lemma_expand_done(g, m, marked@, pending@, order@, iu as int, u);
            }
        }

        proof {
            let vset = Set::new(|n: NodeId| order_contains(order@, n));
            assert forall|u2: NodeId, v2: NodeId|
                vset.contains(u2) && #[trigger] g.step_in(m, u2, v2) implies vset.contains(v2) by {
                let q = choose|q: int| 0 <= q < order@.len() && (#[trigger] order@[q]).node == u2;
                assert(g.has_node(u2));
                let i = choose|i: int| 0 <= i < g.nodes@.len() && (#[trigger] g.nodes@[i]).id == u2;
                assert(marked@[i]);
                assert(order_contains(order@, v2));
            }
            assert(g.closed_under_step(m, vset));
            assert forall|b: NodeId| #[trigger] g.walk_reach(m, start, b) implies order_contains(
                order@,
                b,
            ) by {
                assert(vset.contains(start));
                lemma_reach_in_closed(g, m, start, b, vset);
            }
        }
        order
    }

    /// The depth-first spanning-tree walk from `start`: the produced order
    /// visits each reachable node exactly once, at discovery time, and
    /// records the edge over which it was first reached (none for `start`).
    /// Only forward adjacency is followed: in directed mode edges are crossed
    /// along their stored direction only, and self-loops never.
    ///
    /// Fails when `start` is not a registered node.
    pub fn spanning_tree(&self, start: NodeId) -> (r: Result<Vec<PathPart>, GraphError>)
        requires
            self.wf(),
        ensures
            match r {
                Ok(order) => self.has_node(start) && walk_output_ok(
                    *self,
                    WalkMode::Forward,
                    start,
                    order@,
                ),
                Err(e) => !self.has_node(start) && e == GraphError::PreconditionViolation,
            },
    {
        if !self.contains_node(start) {
            return Err(GraphError::PreconditionViolation);
        }
        Ok(self.walk_core(WalkMode::Forward, start))
    }

    /// Whether `b` can be reached from `a` by a walk that follows edges
    /// forward, exactly as [`Graph::spanning_tree`] does.
    ///
    /// Fails when `a` is not a registered node.
    pub fn connected(&self, a: NodeId, b: NodeId) -> (r: Result<bool, GraphError>)
        requires
            self.wf(),
        ensures
            match r {
                Ok(c) => self.has_node(a) && c == self.fwd_reachable(a, b),
                Err(e) => !self.has_node(a) && e == GraphError::PreconditionViolation,
            },
    {
        if !self.contains_node(a) {
            return Err(GraphError::PreconditionViolation);
        }
        let order = self.walk_core(WalkMode::Forward, a);
        let found = Self::order_find(&order, b);
        proof {
            if found {
                let q = choose|q: int| 0 <= q < order@.len() && (#[trigger] order@[q]).node == b;
                assert(self.walk_reach(WalkMode::Forward, a, b));
            }
        }
        Ok(found)
    }

    /// The distinct nodes one edge away from `node`, following forward and
    /// backward adjacency alike; self-loops contribute nothing. Fails when
    /// `node` is not a registered node.
    #[verifier::loop_isolation(false)]
    pub fn adjacent_nodes(&self, node: NodeId) -> (r: Result<Vec<NodeId>, GraphError>)
        requires
            self.wf(),
        ensures
            match r {
                Ok(v) => {
                    &&& self.has_node(node)
                    &&& (forall|i: int, j: int| 0 <= i < j < v@.len() ==> v@[i] != v@[j])
                    &&& (forall|x: NodeId|
                        v@.contains(x) <==> #[trigger] self.step_in(WalkMode::Undirected, node, x))
                },
                Err(e) => !self.has_node(node) && e == GraphError::PreconditionViolation,
            },
    {
        let ghost g = *self;
        let ghost m = WalkMode::Undirected;
        let ia = match self.find_node(node) {
            Some(i) => i,
            None => {
                return Err(GraphError::PreconditionViolation);
            },
        };
        proof {
            lemma_node_index_is(g, node, ia as int);
        }
        let count = self.nodes[ia].edges.len();
        let mut out: Vec<NodeId> = Vec::new();
        let mut p: usize = 0;
        while p < count
            invariant
                g == *self,
                g.wf(),
                ia < g.nodes@.len(),
                g.node_index(node) == ia as int,
                g.nodes@[ia as int].id == node,
                count == g.edges_of(node).len(),
                p <= count,
                forall|i: int, j: int| 0 <= i < j < out@.len() ==> out@[i] != out@[j],
                forall|i: int|
                    0 <= i < out@.len() ==> g.step_in(m, node, #[trigger] out@[i]),
                forall|q: int, x: NodeId|
                    0 <= q < p && #[trigger] g.step_via(m, g.edges_of(node)[q], node, x)
                        ==> out@.contains(x),
            decreases count - p,
        {
            let e = self.nodes[ia].edges[p];
            proof {
                assert(g.edges_of(node)[p as int] == e);
                assert(g.has_edge(g.nodes@[ia as int].edges@[p as int]) && g.touches(
                    g.nodes@[ia as int].edges@[p as int],
                    g.nodes@[ia as int].id,
                ));
            }
            let k = match self.find_edge(e) {
                Some(k) => k,
                None => {
                    proof {
                        assert(false);
                    }
                    0
                },
            };
            proof {
                lemma_edge_index_is(g, e, k as int);
            }
            let s = self.edges[k].start;
            let t = self.edges[k].end;
            if s != t {
                let other: NodeId = if node == s {
                    t
                } else {
                    s
                };
                proof {
                    assert(g.step_via(m, e, node, other));
                    assert forall|x: NodeId| #[trigger] g.step_via(m, e, node, x) implies x
                        == other by {}
                }
                let mut seen = false;
                let mut i: usize = 0;
                while i < out.len()
                    invariant
                        i <= out@.len(),
                        seen == exists|j: int| 0 <= j < i && out@[j] == other,
                    decreases out@.len() - i,
                {
                    if out[i] == other {
                        proof {
                            assert(out@[i as int] == other);
                        }
                        seen = true;
                    }
                    i = i + 1;
                }
                if !seen {
                    let ghost out0 = out@;
                    out.push(other);
                    proof {
                        assert(out@[out@.len() - 1] == other);
                        assert forall|x: NodeId| out0.contains(x) implies out@.contains(x) by {
                            let i = choose|i: int| 0 <= i < out0.len() && out0[i] == x;
                            assert(out@[i] == x);
                        }
                    }
                }
                proof {
                    assert(out@.contains(other));
                    assert forall|q: int, x: NodeId|
                        0 <= q < p + 1 && #[trigger] g.step_via(
                            m,
                            g.edges_of(node)[q],
                            node,
                            x,
                        ) implies out@.contains(x) by {
                        if q == p as int {
                            assert(x == other);
                        }
                    }
                }
            } else {
                proof {
                    assert forall|x: NodeId| !g.step_via(m, e, node, x) by {}
                }
            }
            p = p + 1;
        }
        proof {
            assert forall|x: NodeId| out@.contains(x) <==> #[trigger] g.step_in(m, node, x) by {
                if out@.contains(x) {
                    let i = choose|i: int| 0 <= i < out@.len() && out@[i] == x;
                    assert(g.step_in(m, node, out@[i]));
                }
                if g.step_in(m, node, x) {
                    let e = choose|e: EdgeId| g.step_via(m, e, node, x);
                    lemma_step_edge_in_list(g, m, e, node, x);
                    let q = choose|q: int|
                        0 <= q < g.edges_of(node).len() && g.edges_of(node)[q] == e;
                    assert(g.step_via(m, g.edges_of(node)[q], node, x));
                }
            }
        }
        Ok(out)
    }

    /// Whether `edge` is a bridge: whether no other route, ignoring
    /// direction, joins its two endpoints once crossing `edge` itself is
    /// forbidden. Fails when `edge` is not a registered edge.
    #[verifier::loop_isolation(false)]
    pub fn is_bridge(&self, edge: EdgeId) -> (r: Result<bool, GraphError>)
        requires
            self.wf(),
        ensures
            match r {
                Ok(b) => self.has_edge(edge) && (b == !self.avoid_connected(
                    edge,
                    self.start_of(edge),
                    self.end_of(edge),
                )),
                Err(e) => !self.has_edge(edge) && e == GraphError::PreconditionViolation,
            },
    {
        let ghost g = *self;
        let k = match self.find_edge(edge) {
            Some(k) => k,
            None => {
                return Err(GraphError::PreconditionViolation);
            },
        };
        proof {
            lemma_edge_index_is(g, edge, k as int);
        }
        let s = self.edges[k].start;
        let t = self.edges[k].end;
        let ghost m = WalkMode::Avoiding(edge);
        proof {
            crate::reach::lemma_avoid_connected_iff(g, edge, s, t);
        }
        let order = self.walk_core(WalkMode::Avoiding(edge), s);
        let mut i: usize = 0;
        while i < order.len()
            invariant
                g == *self,
                g.wf(),
                g.has_edge(edge),
                g.edge_index(edge) == k as int,
                g.start_of(edge) == s,
                g.end_of(edge) == t,
                walk_output_ok(g, m, s, order@),
                i <= order@.len(),
                forall|j: int, q: int|
                    0 <= j < i && 0 <= q < g.edges_of((#[trigger] order@[j]).node).len()
                        ==> !g.step_via(
                        m,
                        #[trigger] g.edges_of(order@[j].node)[q],
                        order@[j].node,
                        t,
                    ),
            decreases order@.len() - i,
        {
            let u = order[i].node;
            let iu = match self.find_node(u) {
                Some(x) => x,
                None => {
                    proof {
                        assert(false);
                    }
                    0
                },
            };
            proof {
                lemma_node_index_is(g, u, iu as int);
            }
            let count = self.nodes[iu].edges.len();
            let mut p: usize = 0;
            while p < count
                invariant
                    g == *self,
                    g.wf(),
                    g.has_edge(edge),
                    g.edge_index(edge) == k as int,
                    g.start_of(edge) == s,
                    g.end_of(edge) == t,
                    walk_output_ok(g, m, s, order@),
                    i < order@.len(),
                    order@[i as int].node == u,
                    iu < g.nodes@.len(),
                    g.node_index(u) == iu as int,
                    g.nodes@[iu as int].id == u,
                    count == g.edges_of(u).len(),
                    p <= count,
                    forall|q: int|
                        0 <= q < p ==> !g.step_via(m, #[trigger] g.edges_of(u)[q], u, t),
                decreases count - p,
            {
                let e2 = self.nodes[iu].edges[p];
                proof {
                    assert(g.edges_of(u)[p as int] == e2);
                    assert(g.has_edge(g.nodes@[iu as int].edges@[p as int]) && g.touches(
                        g.nodes@[iu as int].edges@[p as int],
                        g.nodes@[iu as int].id,
                    ));
                }
                let k2 = match self.find_edge(e2) {
                    Some(x) => x,
                    None => {
                        proof {
                            assert(false);
                        }
                        0
                    },
                };
                proof {
                    lemma_edge_index_is(g, e2, k2 as int);
                }
                let s2 = self.edges[k2].start;
                let t2 = self.edges[k2].end;
                if e2 != edge && s2 != t2 && ((s2 == u && t2 == t) || (t2 == u && s2 == t)) {
                    proof {
                        assert(g.step_via(m, e2, u, t));
                        assert(g.walk_reach(m, s, u));
                        assert(g.step_in(m, u, t));
                        assert(g.avoid_connected(edge, s, t));
                    }
                    return Ok(false);
                }
                proof {
                    assert(!g.step_via(m, g.edges_of(u)[p as int], u, t));
                }
                p = p + 1;
            }
            i = i + 1;
        }
        proof {
            if g.avoid_connected(edge, s, t) {
                let u = choose|u: NodeId|
                    g.walk_reach(m, s, u) && #[trigger] g.step_in(m, u, t);
                let j = choose|j: int| 0 <= j < order@.len() && (#[trigger] order@[j]).node == u;
                let e2 = choose|e2: EdgeId| g.step_via(m, e2, u, t);
                lemma_step_edge_in_list(g, m, e2, u, t);
                let q = choose|q: int| 0 <= q < g.edges_of(u).len() && g.edges_of(u)[q] == e2;
                assert(!g.step_via(m, g.edges_of(order@[j].node)[q], order@[j].node, t));
                assert(false);
            }
        }
        Ok(true)
    }

    /// Whether `a` and `b` lie in the same connected component, ignoring
    /// edge direction: the relation that the component count tracks.
    pub(crate) fn connected_undirected(&self, a: NodeId, b: NodeId) -> (r: bool)
        requires
            self.wf(),
            self.has_node(a),
        ensures
            r == self.u_reachable(a, b),
    {
        let order = self.walk_core(WalkMode::Undirected, a);
        let found = Self::order_find(&order, b);
        proof {
            if found {
                let q = choose|q: int| 0 <= q < order@.len() && (#[trigger] order@[q]).node == b;
                assert(self.walk_reach(WalkMode::Undirected, a, b));
            }
        }
        found
    }
}

} // verus!
