//! The mathematical model of traversal: single steps, walks, and
//! reachability, each parameterized by a walk mode. Every traversal contract
//! in the crate is stated against these definitions.

use vstd::prelude::*;

use crate::graph::{EdgeId, Graph, NodeId};

verus! {

/// How a walk may cross the stored edges.
#[derive(Clone, Copy, PartialEq, Eq, Debug)]
pub enum WalkMode {
    /// Follow an edge only forward: from its first endpoint to its second, or
    /// either way when the graph is undirected.
    Forward,
    /// Follow every edge both ways regardless of the directed flag, as
    /// connectivity-of-components does.
    Undirected,
    /// Follow every edge both ways except the named edge, as the bridge test
    /// does.
    Avoiding(EdgeId),
}

impl Graph {
    /// One step from `u` to `v` across the registered edge `e`, under mode
    /// `m`. Self-loops permit no step in any mode.
    pub open spec fn step_via(self, m: WalkMode, e: EdgeId, u: NodeId, v: NodeId) -> bool {
        &&& self.has_edge(e)
        &&& self.start_of(e) != self.end_of(e)
        &&& (match m {
            WalkMode::Avoiding(x) => e != x,
            _ => true,
        })
        &&& ((self.start_of(e) == u && self.end_of(e) == v) || (self.end_of(e) == u
            && self.start_of(e) == v && (match m {
            WalkMode::Forward => !self.directed,
            _ => true,
        })))
    }

    /// One step from `u` to `v` across some edge, under mode `m`.
    pub open spec fn step_in(self, m: WalkMode, u: NodeId, v: NodeId) -> bool {
        exists|e: EdgeId| self.step_via(m, e, u, v)
    }

    /// `p` lists the nodes of a walk under mode `m`: nonempty, every
    /// consecutive pair one step apart. Nodes and edges may repeat.
    pub open spec fn is_walk(self, m: WalkMode, p: Seq<NodeId>) -> bool {
        &&& p.len() >= 1
        &&& forall|i: int| 0 <= i < p.len() - 1 ==> self.step_in(m, #[trigger] p[i], p[i + 1])
    }

    /// Some walk under mode `m` leads from `a` to `b`. Reflexive: the
    /// single-node walk is a walk.
    pub open spec fn walk_reach(self, m: WalkMode, a: NodeId, b: NodeId) -> bool {
        exists|p: Seq<NodeId>| #[trigger] self.is_walk(m, p) && p[0] == a && p[p.len() - 1] == b
    }

    /// `b` can be reached from `a` by following edges forward, the relation
    /// that the spanning-tree walk and the connectivity test explore.
    pub open spec fn fwd_reachable(self, a: NodeId, b: NodeId) -> bool {
        self.walk_reach(WalkMode::Forward, a, b)
    }

    /// `a` and `b` lie in the same connected component: reachability ignoring
    /// edge direction, the relation behind the component count.
    pub open spec fn u_reachable(self, a: NodeId, b: NodeId) -> bool {
        self.walk_reach(WalkMode::Undirected, a, b)
    }

    /// A direction-ignoring walk of at least one step leads from `a` to `b`
    /// without crossing edge `e`: the relation whose negation makes `e` a
    /// bridge between its endpoints.
    pub open spec fn avoid_connected(self, e: EdgeId, a: NodeId, b: NodeId) -> bool {
        exists|p: Seq<NodeId>|
            #[trigger] self.is_walk(WalkMode::Avoiding(e), p) && p.len() >= 2 && p[0] == a && p[p.len()
                - 1] == b
    }

    /// Steps under mode `m` can always be retraced backward. This holds for
    /// every mode except the forward mode of a directed graph.
    pub open spec fn mode_symmetric(self, m: WalkMode) -> bool {
        forall|u: NodeId, v: NodeId| #[trigger] self.step_in(m, u, v) ==> self.step_in(m, v, u)
    }

    /// The node set `s` is closed under steps of mode `m`: no step leaves it.
    pub open spec fn closed_under_step(self, m: WalkMode, s: Set<NodeId>) -> bool {
        forall|u: NodeId, v: NodeId|
            s.contains(u) && #[trigger] self.step_in(m, u, v) ==> s.contains(v)
    }
}

/// Every node reaches itself by the single-node walk.
pub proof fn lemma_reach_refl(g: Graph, m: WalkMode, a: NodeId)
    ensures
        g.walk_reach(m, a, a),
{
    let p: Seq<NodeId> = seq![a];
    assert(g.is_walk(m, p));
}

/// A single step is a walk of length two.
pub proof fn lemma_reach_step(g: Graph, m: WalkMode, u: NodeId, v: NodeId)
    requires
        g.step_in(m, u, v),
    ensures
        g.walk_reach(m, u, v),
{
    let p: Seq<NodeId> = seq![u, v];
    assert(p[0] == u && p[p.len() - 1] == v);
    assert(g.is_walk(m, p));
}

/// Walks compose: reachability is transitive.
pub proof fn lemma_reach_trans(g: Graph, m: WalkMode, a: NodeId, b: NodeId, c: NodeId)
    requires
        g.walk_reach(m, a, b),
        g.walk_reach(m, b, c),
    ensures
        g.walk_reach(m, a, c),
{
    let p = choose|p: Seq<NodeId>| g.is_walk(m, p) && p[0] == a && p[p.len() - 1] == b;
    let q = choose|q: Seq<NodeId>| g.is_walk(m, q) && q[0] == b && q[q.len() - 1] == c;
    let r = p + q.subrange(1, q.len() as int);
    assert(r[0] == a);
    assert(r[r.len() - 1] == c);
    assert forall|i: int| 0 <= i < r.len() - 1 implies g.step_in(m, #[trigger] r[i], r[i + 1]) by {
        if i < p.len() - 1 {
            assert(r[i] == p[i] && r[i + 1] == p[i + 1]);
        } else if i == p.len() - 1 {
            if q.len() >= 2 {
                assert(r[i] == p[p.len() - 1] && r[i + 1] == q[1]);
                assert(g.step_in(m, q[0], q[1]));
            }
        } else {
            let j = i - p.len() + 1;
            assert(r[i] == q[j] && r[i + 1] == q[j + 1]);
            assert(g.step_in(m, q[j], q[j + 1]));
        }
    }
    assert(g.is_walk(m, r));
}

/// Every mode except directed-forward retraces steps backward.
pub proof fn lemma_mode_symmetric(g: Graph, m: WalkMode)
    requires
        m is Forward ==> !g.directed,
    ensures
        g.mode_symmetric(m),
{
    assert forall|u: NodeId, v: NodeId| #[trigger] g.step_in(m, u, v) implies g.step_in(
        m,
        v,
        u,
    ) by {
        let e = choose|e: EdgeId| g.step_via(m, e, u, v);
        assert(g.step_via(m, e, v, u));
    }
}

/// Under a symmetric mode, reachability is symmetric: walks reverse.
pub proof fn lemma_reach_symm(g: Graph, m: WalkMode, a: NodeId, b: NodeId)
    requires
        g.mode_symmetric(m),
        g.walk_reach(m, a, b),
    ensures
        g.walk_reach(m, b, a),
{
    let p = choose|p: Seq<NodeId>| g.is_walk(m, p) && p[0] == a && p[p.len() - 1] == b;
    let n = p.len() as int;
    let r = Seq::<NodeId>::new(p.len(), |i: int| p[n - 1 - i]);
    assert(r[0] == b);
    assert(r[r.len() - 1] == a);
    assert forall|i: int| 0 <= i < r.len() - 1 implies g.step_in(m, #[trigger] r[i], r[i + 1]) by {
        let j = n - 2 - i;
        assert(g.step_in(m, p[j], p[j + 1]));
        assert(r[i] == p[j + 1] && r[i + 1] == p[j]);
    }
    assert(g.is_walk(m, r));
}

/// Reachability reads only the edge table and the directed flag: two graphs
/// that agree on those (with distinct edge handles) have the same walks.
pub proof fn lemma_reach_same_edges(g1: Graph, g2: Graph, m: WalkMode, a: NodeId, b: NodeId)
    requires
        g1.edges@ == g2.edges@,
        m is Forward ==> g1.directed == g2.directed,
        g1.edges_distinct(),
        g1.walk_reach(m, a, b),
    ensures
        g2.walk_reach(m, a, b),
{
    assert forall|u: NodeId, v: NodeId, e: EdgeId| #[trigger] g1.step_via(m, e, u, v) implies
        g2.step_via(m, e, u, v) by {
        let k = choose|k: int| 0 <= k < g1.edges@.len() && (#[trigger] g1.edges@[k]).id == e;
        crate::graph::lemma_edge_index_is(g1, e, k);
        assert(g2.edges_distinct());
        crate::graph::lemma_edge_index_is(g2, e, k);
    }
    let p = choose|p: Seq<NodeId>| #[trigger] g1.is_walk(m, p) && p[0] == a && p[p.len() - 1] == b;
    assert forall|i: int| 0 <= i < p.len() - 1 implies g2.step_in(m, #[trigger] p[i], p[i + 1]) by {
        assert(g1.step_in(m, p[i], p[i + 1]));
        let e = choose|e: EdgeId| #[trigger] g1.step_via(m, e, p[i], p[i + 1]);
        assert(g2.step_via(m, e, p[i], p[i + 1]));
    }
    assert(g2.is_walk(m, p));
}

/// A walk that begins inside a step-closed set ends inside it.
pub proof fn lemma_walk_in_closed(g: Graph, m: WalkMode, p: Seq<NodeId>, s: Set<NodeId>)
    requires
        g.is_walk(m, p),
        g.closed_under_step(m, s),
        s.contains(p[0]),
    ensures
        s.contains(p[p.len() - 1]),
    decreases p.len(),
{
    if p.len() > 1 {
        assert(g.step_in(m, p[0], p[1]));
        assert(s.contains(p[1]));
        let q = p.subrange(1, p.len() as int);
        assert forall|i: int| 0 <= i < q.len() - 1 implies g.step_in(m, #[trigger] q[i], q[i + 1]) by {
            assert(g.step_in(m, p[i + 1], p[i + 2]));
        }
        assert(g.is_walk(m, q));
        lemma_walk_in_closed(g, m, q, s);
    }
}

/// Everything reachable from a node of a step-closed set lies in the set:
/// the completeness argument behind every traversal in the crate.
pub proof fn lemma_reach_in_closed(g: Graph, m: WalkMode, a: NodeId, b: NodeId, s: Set<NodeId>)
    requires
        g.closed_under_step(m, s),
        s.contains(a),
        g.walk_reach(m, a, b),
    ensures
        s.contains(b),
{
    let p = choose|p: Seq<NodeId>| g.is_walk(m, p) && p[0] == a && p[p.len() - 1] == b;
    lemma_walk_in_closed(g, m, p, s);
}

/// A walk of at least one step to `b` decomposes into reaching some node `u`
/// and a final step from `u` to `b`, and conversely.
pub proof fn lemma_avoid_connected_iff(g: Graph, e: EdgeId, a: NodeId, b: NodeId)
    ensures
        g.avoid_connected(e, a, b) <==> exists|u: NodeId|
            g.walk_reach(WalkMode::Avoiding(e), a, u) && #[trigger] g.step_in(
                WalkMode::Avoiding(e),
                u,
                b,
            ),
{
    let m = WalkMode::Avoiding(e);
    if g.avoid_connected(e, a, b) {
        let p = choose|p: Seq<NodeId>|
            g.is_walk(m, p) && p.len() >= 2 && p[0] == a && p[p.len() - 1] == b;
        let q = p.subrange(0, p.len() - 1);
        assert forall|i: int| 0 <= i < q.len() - 1 implies g.step_in(m, #[trigger] q[i], q[i + 1]) by {
            assert(g.step_in(m, p[i], p[i + 1]));
        }
        assert(g.is_walk(m, q));
        let u = p[p.len() - 2];
        assert(q[q.len() - 1] == u);
        assert(g.walk_reach(m, a, u));
        assert(g.step_in(m, p[p.len() - 2], p[p.len() - 1]));
        assert(g.step_in(m, u, b));
    }
    if exists|u: NodeId| g.walk_reach(m, a, u) && #[trigger] g.step_in(m, u, b) {
        let u = choose|u: NodeId| g.walk_reach(m, a, u) && #[trigger] g.step_in(m, u, b);
        let p = choose|p: Seq<NodeId>| g.is_walk(m, p) && p[0] == a && p[p.len() - 1] == u;
        let r = p.push(b);
        assert forall|i: int| 0 <= i < r.len() - 1 implies g.step_in(m, #[trigger] r[i], r[i + 1]) by {
            if i < p.len() - 1 {
                assert(r[i] == p[i] && r[i + 1] == p[i + 1]);
                assert(g.step_in(m, p[i], p[i + 1]));
            } else {
                assert(r[i] == u && r[i + 1] == b);
            }
        }
        assert(g.is_walk(m, r));
        assert(r.len() >= 2 && r[0] == a && r[r.len() - 1] == b);
        assert(g.avoid_connected(e, a, b));
    }
}

} // verus!
