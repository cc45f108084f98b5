//! The mathematical component count, and the proofs that every mutation
//! keeps the engine's incrementally maintained counter equal to it.
//!
//! A node record is the representative of its component when no
//! earlier-registered node can reach it ignoring direction; the number of
//! connected components is the number of representatives.

use vstd::prelude::*;

use crate::graph::{lemma_edge_index_is, EdgeId, Graph, NodeId};
use crate::reach::{
    lemma_mode_symmetric, lemma_reach_refl, lemma_reach_same_edges, lemma_reach_step,
    lemma_reach_symm, lemma_reach_trans, WalkMode,
};
use crate::traverse::{count_true, lemma_count_true_push};

verus! {

impl Graph {
    /// Node record `i` is the first-registered node of its component: no
    /// earlier record reaches it ignoring direction.
    pub open spec fn is_comp_rep(self, i: int) -> bool {
        forall|j: int|
            0 <= j < i ==> !self.u_reachable((#[trigger] self.nodes@[j]).id, self.nodes@[i].id)
    }

    /// One flag per node record: whether it represents its component.
    pub open spec fn rep_flags(self) -> Seq<bool> {
        Seq::new(self.nodes@.len(), |i: int| self.is_comp_rep(i))
    }

    /// The number of connected components of the undirected adjacency
    /// graph: one representative per component.
    pub open spec fn component_count(self) -> int {
        count_true(self.rep_flags())
    }

    /// The maintained counter agrees with the mathematical count.
    pub open spec fn components_ok(self) -> bool {
        self.components == self.component_count()
    }
}

/// A walk of at least one step ends with a step into its final node.
proof fn lemma_reach_last_step(g: Graph, a: NodeId, b: NodeId)
    requires
        g.u_reachable(a, b),
        a != b,
    ensures
        exists|u: NodeId| #[trigger] g.step_in(WalkMode::Undirected, u, b),
{
    let m = WalkMode::Undirected;
    let p = choose|p: Seq<NodeId>| #[trigger] g.is_walk(m, p) && p[0] == a && p[p.len() - 1] == b;
    assert(p.len() >= 2);
    assert(g.step_in(m, p[p.len() - 2], p[p.len() - 1]));
}

/// No direction-ignoring step leaves or enters a node with no incident
/// edges.
proof fn lemma_isolated_no_step(g: Graph, n: NodeId)
    requires
        g.wf(),
        g.has_node(n),
        g.edges_of(n).len() == 0,
    ensures
        forall|u: NodeId, v: NodeId|
            #[trigger] g.step_in(WalkMode::Undirected, u, v) ==> u != n && v != n,
{
    let m = WalkMode::Undirected;
    assert forall|u: NodeId, v: NodeId| #[trigger] g.step_in(m, u, v) implies u != n && v != n by {
        let e = choose|e: EdgeId| g.step_via(m, e, u, v);
        if u == n || v == n {
            crate::traverse::lemma_step_edge_in_list(g, m, e, n, if u == n {
                v
            } else {
                u
            });
        }
    }
}

/// An isolated node reaches only itself, and nothing else reaches it.
proof fn lemma_isolated_reach(g: Graph, n: NodeId)
    requires
        g.wf(),
        g.has_node(n),
        g.edges_of(n).len() == 0,
    ensures
        forall|x: NodeId| x != n ==> !(#[trigger] g.u_reachable(x, n)),
        forall|x: NodeId| x != n ==> !(#[trigger] g.u_reachable(n, x)),
{
    lemma_isolated_no_step(g, n);
    assert forall|x: NodeId| x != n implies !(#[trigger] g.u_reachable(x, n)) by {
        if g.u_reachable(x, n) {
            lemma_reach_last_step(g, x, n);
            let u = choose|u: NodeId| #[trigger] g.step_in(WalkMode::Undirected, u, n);
            assert(false);
        }
    }
    assert forall|x: NodeId| x != n implies !(#[trigger] g.u_reachable(n, x)) by {
        if g.u_reachable(n, x) {
            lemma_mode_symmetric(g, WalkMode::Undirected);
            lemma_reach_symm(g, WalkMode::Undirected, n, x);
            lemma_reach_last_step(g, x, n);
            let u = choose|u: NodeId| #[trigger] g.step_in(WalkMode::Undirected, u, n);
            assert(false);
        }
    }
}

/// Two graphs with the same edge table, direction flag and node handles have
/// the same reachability between all handles.
proof fn lemma_reach_eq_all(g0: Graph, g1: Graph)
    requires
        g0.edges@ == g1.edges@,
        g0.edges_distinct(),
    ensures
        forall|x: NodeId, y: NodeId|
            #[trigger] g1.u_reachable(x, y) == #[trigger] g0.u_reachable(x, y),
{
    assert forall|x: NodeId, y: NodeId|
        #[trigger] g1.u_reachable(x, y) == #[trigger] g0.u_reachable(x, y) by {
        if g0.u_reachable(x, y) {
            lemma_reach_same_edges(g0, g1, WalkMode::Undirected, x, y);
        }
        if g1.u_reachable(x, y) {
            assert(g1.edges_distinct());
            lemma_reach_same_edges(g1, g0, WalkMode::Undirected, x, y);
        }
    }
}

/// Counting the true entries of a sequence with an entry removed.
proof fn lemma_count_true_remove(s: Seq<bool>, i: int)
    requires
        0 <= i < s.len(),
    ensures
        count_true(s.remove(i)) == count_true(s) - (if s[i] {
            1int
        } else {
            0int
        }),
    decreases s.len(),
{
    if i == s.len() - 1 {
        assert(s.remove(i) =~= s.drop_last());
    } else {
        assert(s.remove(i).drop_last() =~= s.drop_last().remove(i));
        lemma_count_true_remove(s.drop_last(), i);
        assert(s.remove(i).last() == s.last());
    }
}

/// A sequence with a true entry has a positive count.
proof fn lemma_count_true_pos(s: Seq<bool>, i: int)
    requires
        0 <= i < s.len(),
        s[i],
    ensures
        count_true(s) >= 1,
    decreases s.len(),
{
    if i == s.len() - 1 {
        crate::traverse::lemma_count_true_bounds(s.drop_last());
    } else {
        lemma_count_true_pos(s.drop_last(), i);
    }
}

/// A registered graph has at least one component: its first node record is
/// a representative.
pub proof fn lemma_component_count_pos(g: Graph)
    requires
        g.nodes@.len() > 0,
    ensures
        g.component_count() >= 1,
{
    assert(g.is_comp_rep(0));
    assert(g.rep_flags()[0]);
    lemma_count_true_pos(g.rep_flags(), 0);
}

/// Appending a fresh isolated node adds exactly one component.
pub proof fn lemma_count_add_node(g0: Graph, g1: Graph, node: NodeId)
    requires
        g0.wf(),
        g1.wf(),
        !g0.has_node(node),
        g1.nodes@.len() == g0.nodes@.len() + 1,
        forall|i: int| 0 <= i < g0.nodes@.len() ==> g1.nodes@[i] == g0.nodes@[i],
        g1.nodes@.last().id == node,
        g1.edges@ == g0.edges@,
        g1.directed == g0.directed,
    ensures
        g1.component_count() == g0.component_count() + 1,
{
    lemma_reach_eq_all(g0, g1);
    let n0 = g0.nodes@.len() as int;
    assert forall|i: int| 0 <= i < n0 implies g1.is_comp_rep(i) == g0.is_comp_rep(i) by {
        if g0.is_comp_rep(i) {
            assert forall|j: int| 0 <= j < i implies !g1.u_reachable(
                (#[trigger] g1.nodes@[j]).id,
                g1.nodes@[i].id,
            ) by {
                assert(!g0.u_reachable(g0.nodes@[j].id, g0.nodes@[i].id));
            }
        }
        if g1.is_comp_rep(i) {
            assert forall|j: int| 0 <= j < i implies !g0.u_reachable(
                (#[trigger] g0.nodes@[j]).id,
                g0.nodes@[i].id,
            ) by {
                assert(!g1.u_reachable(g1.nodes@[j].id, g1.nodes@[i].id));
            }
        }
    }
    // nothing reaches the fresh node: a step into it would name it as a
    // registered endpoint of the old edge table
    assert forall|j: int| 0 <= j < n0 implies !g1.u_reachable(
        (#[trigger] g1.nodes@[j]).id,
        g1.nodes@[n0].id,
    ) by {
        assert(g0.has_node(g0.nodes@[j].id));
        if g1.u_reachable(g1.nodes@[j].id, node) {
            assert(g0.u_reachable(g0.nodes@[j].id, node));
            lemma_reach_last_step(g0, g0.nodes@[j].id, node);
            let u = choose|u: NodeId| #[trigger] g0.step_in(WalkMode::Undirected, u, node);
            let e = choose|e: EdgeId| g0.step_via(WalkMode::Undirected, e, u, node);
            let k = choose|k: int| 0 <= k < g0.edges@.len() && (#[trigger] g0.edges@[k]).id == e;
            lemma_edge_index_is(g0, e, k);
            assert(g0.has_node(g0.edges@[k].start) && g0.has_node(g0.edges@[k].end));
            assert(false);
        }
    }
    assert(g1.is_comp_rep(n0));
    assert(g1.rep_flags() =~= g0.rep_flags().push(true));
    lemma_count_true_push(g0.rep_flags(), true);
}

/// Removing an isolated node removes exactly one component.
pub proof fn lemma_count_remove_node(g0: Graph, g1: Graph, node: NodeId, idx: int)
    requires
        g0.wf(),
        g1.wf(),
        0 <= idx < g0.nodes@.len(),
        g0.nodes@[idx].id == node,
        g0.edges_of(node).len() == 0,
        g0.node_index(node) == idx,
        g1.nodes@ == g0.nodes@.remove(idx),
        g1.edges@ == g0.edges@,
        g1.directed == g0.directed,
    ensures
        g1.component_count() == g0.component_count() - 1,
{
    lemma_reach_eq_all(g0, g1);
    lemma_isolated_reach(g0, node);
    let n0 = g0.nodes@.len() as int;
    assert forall|i: int| 0 <= i < n0 - 1 implies g1.rep_flags()[i] == g0.rep_flags()[(
    if i < idx {
        i
    } else {
        i + 1
    })] by {
        let oi: int = if i < idx {
            i
        } else {
            i + 1
        };
        assert(g1.nodes@[i] == g0.nodes@[oi]);
        if g0.is_comp_rep(oi) {
            assert forall|j: int| 0 <= j < i implies !g1.u_reachable(
                (#[trigger] g1.nodes@[j]).id,
                g1.nodes@[i].id,
            ) by {
                let oj: int = if j < idx {
                    j
                } else {
                    j + 1
                };
                assert(g1.nodes@[j] == g0.nodes@[oj]);
                assert(!g0.u_reachable(g0.nodes@[oj].id, g0.nodes@[oi].id));
            }
            assert(g1.is_comp_rep(i));
        }
        if g1.is_comp_rep(i) {
            assert forall|j: int| 0 <= j < oi implies !g0.u_reachable(
                (#[trigger] g0.nodes@[j]).id,
                g0.nodes@[oi].id,
            ) by {
                if j == idx {
                    // the removed node was isolated: it reaches nothing else
                    assert(g0.nodes@[j].id == node);
                    assert(g0.nodes@[oi].id != node) by {
                        if g0.nodes@[oi].id == node {
                            assert(oi != idx);
                        }
                    }
                } else {
                    let nj: int = if j < idx {
                        j
                    } else {
                        j - 1
                    };
                    assert(g1.nodes@[nj] == g0.nodes@[j]);
                    assert(nj < i);
                    assert(!g1.u_reachable(g1.nodes@[nj].id, g1.nodes@[i].id));
                }
            }
            assert(g0.is_comp_rep(oi));
        }
    }
    // the removed node was a representative: nothing reaches an isolated node
    assert(g0.is_comp_rep(idx)) by {
        assert forall|j: int| 0 <= j < idx implies !g0.u_reachable(
            (#[trigger] g0.nodes@[j]).id,
            g0.nodes@[idx].id,
        ) by {
            assert(g0.nodes@[j].id != node);
        }
    }
    assert(g0.rep_flags()[idx]);
    assert(g1.rep_flags() =~= g0.rep_flags().remove(idx));
    lemma_count_true_remove(g0.rep_flags(), idx);
}

/// Counting the true entries of a sequence with a true entry cleared.
proof fn lemma_count_true_update_false(s: Seq<bool>, i: int)
    requires
        0 <= i < s.len(),
        s[i],
    ensures
        count_true(s.update(i, false)) == count_true(s) - 1,
    decreases s.len(),
{
    if i == s.len() - 1 {
        assert(s.update(i, false).drop_last() =~= s.drop_last());
        assert(!s.update(i, false).last());
    } else {
        assert(s.update(i, false).drop_last() =~= s.drop_last().update(i, false));
        lemma_count_true_update_false(s.drop_last(), i);
        assert(s.update(i, false).last() == s.last());
    }
}

/// What reachability becomes when one extra edge links `a` and `b`: the old
/// relation, or a route through the new link in either direction.
pub open spec fn link_reach(gs: Graph, a: NodeId, b: NodeId, x: NodeId, y: NodeId) -> bool {
    ||| gs.u_reachable(x, y)
    ||| (gs.u_reachable(x, a) && gs.u_reachable(b, y))
    ||| (gs.u_reachable(x, b) && gs.u_reachable(a, y))
}

/// The two step relations of graphs whose edge tables differ by exactly one
/// record `e` from `a` to `b` (ignoring direction; a self-loop permits no
/// step).
proof fn lemma_link_step_iff(gs: Graph, gb: Graph, e: EdgeId, a: NodeId, b: NodeId, k: int)
    requires
        gs.edges_distinct(),
        gb.edges_distinct(),
        0 <= k < gb.edges@.len(),
        gb.edges@[k].id == e,
        gb.edges@[k].start == a,
        gb.edges@[k].end == b,
        gs.edges@ == gb.edges@.remove(k),
    ensures
        forall|u: NodeId, v: NodeId|
            #[trigger] gb.step_in(WalkMode::Undirected, u, v) == (gs.step_in(
                WalkMode::Undirected,
                u,
                v,
            ) || (a != b && ((u == a && v == b) || (u == b && v == a)))),
{
    let m = WalkMode::Undirected;
    lemma_edge_index_is(gb, e, k);
    assert forall|u: NodeId, v: NodeId|
        #[trigger] gb.step_in(m, u, v) == (gs.step_in(m, u, v) || (a != b && ((u == a && v == b)
            || (u == b && v == a)))) by {
        if gb.step_in(m, u, v) {
            let x = choose|x: EdgeId| gb.step_via(m, x, u, v);
            let kx = choose|k2: int| 0 <= k2 < gb.edges@.len() && (#[trigger] gb.edges@[k2]).id == x;
            lemma_edge_index_is(gb, x, kx);
            if kx == k {
                assert(a != b && ((u == a && v == b) || (u == b && v == a)));
            } else {
                let nk: int = if kx < k {
                    kx
                } else {
                    kx - 1
                };
                assert(gs.edges@[nk] == gb.edges@[kx]);
                lemma_edge_index_is(gs, x, nk);
                assert(gs.step_via(m, x, u, v));
            }
        }
        if gs.step_in(m, u, v) {
            let x = choose|x: EdgeId| gs.step_via(m, x, u, v);
            let nx = choose|k2: int| 0 <= k2 < gs.edges@.len() && (#[trigger] gs.edges@[k2]).id == x;
            lemma_edge_index_is(gs, x, nx);
            let ok: int = if nx < k {
                nx
            } else {
                nx + 1
            };
            assert(gb.edges@[ok] == gs.edges@[nx]);
            lemma_edge_index_is(gb, x, ok);
            assert(gb.step_via(m, x, u, v));
            assert(gb.step_in(m, u, v));
        }
        if a != b && ((u == a && v == b) || (u == b && v == a)) {
            assert(gb.step_via(m, e, u, v));
            assert(gb.step_in(m, u, v));
        }
    }
}

/// Routes through the link compose: the three-way disjunction is transitive.
proof fn lemma_link_reach_trans(gs: Graph, a: NodeId, b: NodeId, x: NodeId, y: NodeId, z: NodeId)
    requires
        link_reach(gs, a, b, x, y),
        link_reach(gs, a, b, y, z),
    ensures
        link_reach(gs, a, b, x, z),
{
    let m = WalkMode::Undirected;
    if gs.u_reachable(x, y) {
        if gs.u_reachable(y, z) {
            lemma_reach_trans(gs, m, x, y, z);
        } else if gs.u_reachable(y, a) && gs.u_reachable(b, z) {
            lemma_reach_trans(gs, m, x, y, a);
        } else {
            lemma_reach_trans(gs, m, x, y, b);
        }
    } else if gs.u_reachable(x, a) && gs.u_reachable(b, y) {
        if gs.u_reachable(y, z) {
            lemma_reach_trans(gs, m, b, y, z);
        } else if gs.u_reachable(y, a) && gs.u_reachable(b, z) {
        } else {
            lemma_reach_trans(gs, m, b, y, b);
            lemma_reach_trans(gs, m, x, a, z);
        }
    } else {
        if gs.u_reachable(y, z) {
            lemma_reach_trans(gs, m, a, y, z);
        } else if gs.u_reachable(y, a) && gs.u_reachable(b, z) {
            lemma_reach_trans(gs, m, a, y, a);
            lemma_reach_trans(gs, m, x, b, z);
        } else {
        }
    }
}

/// Every walk of the linked graph decomposes into old reachability and at
/// most one crossing of the link.
proof fn lemma_link_walk(gs: Graph, gb: Graph, a: NodeId, b: NodeId, p: Seq<NodeId>)
    requires
        forall|u: NodeId, v: NodeId|
            #[trigger] gb.step_in(WalkMode::Undirected, u, v) == (gs.step_in(
                WalkMode::Undirected,
                u,
                v,
            ) || (a != b && ((u == a && v == b) || (u == b && v == a)))),
        gb.is_walk(WalkMode::Undirected, p),
    ensures
        link_reach(gs, a, b, p[0], p[p.len() - 1]),
    decreases p.len(),
{
    let m = WalkMode::Undirected;
    if p.len() == 1 {
        lemma_reach_refl(gs, m, p[0]);
    } else {
        assert(gb.step_in(m, p[0], p[1]));
        assert(link_reach(gs, a, b, p[0], p[1])) by {
            if gs.step_in(m, p[0], p[1]) {
                crate::reach::lemma_reach_step(gs, m, p[0], p[1]);
            } else {
                lemma_reach_refl(gs, m, a);
                lemma_reach_refl(gs, m, b);
            }
        }
        let q = p.subrange(1, p.len() as int);
        assert forall|i: int| 0 <= i < q.len() - 1 implies gb.step_in(m, #[trigger] q[i], q[i + 1]) by {
            assert(gb.step_in(m, p[i + 1], p[i + 2]));
        }
        assert(gb.is_walk(m, q));
        lemma_link_walk(gs, gb, a, b, q);
        lemma_link_reach_trans(gs, a, b, p[0], p[1], p[p.len() - 1]);
    }
}

/// Reachability of the linked graph is exactly old reachability plus routes
/// through the link.
proof fn lemma_link_reach_iff(gs: Graph, gb: Graph, a: NodeId, b: NodeId)
    requires
        forall|u: NodeId, v: NodeId|
            #[trigger] gb.step_in(WalkMode::Undirected, u, v) == (gs.step_in(
                WalkMode::Undirected,
                u,
                v,
            ) || (a != b && ((u == a && v == b) || (u == b && v == a)))),
    ensures
        forall|x: NodeId, y: NodeId|
            #[trigger] gb.u_reachable(x, y) == link_reach(gs, a, b, x, y),
{
    let m = WalkMode::Undirected;
    assert forall|x: NodeId, y: NodeId|
        #[trigger] gb.u_reachable(x, y) == link_reach(gs, a, b, x, y) by {
        if gb.u_reachable(x, y) {
            let p = choose|p: Seq<NodeId>|
                #[trigger] gb.is_walk(m, p) && p[0] == x && p[p.len() - 1] == y;
            lemma_link_walk(gs, gb, a, b, p);
        }
        if link_reach(gs, a, b, x, y) {
            assert forall|x2: NodeId, y2: NodeId|
                #[trigger] gs.u_reachable(x2, y2) implies gb.u_reachable(x2, y2) by {
                let p = choose|p: Seq<NodeId>|
                    #[trigger] gs.is_walk(m, p) && p[0] == x2 && p[p.len() - 1] == y2;
                assert forall|i: int|
                    0 <= i < p.len() - 1 implies gb.step_in(m, #[trigger] p[i], p[i + 1]) by {
                    assert(gs.step_in(m, p[i], p[i + 1]));
                }
                assert(gb.is_walk(m, p));
            }
            if gs.u_reachable(x, y) {
            } else if gs.u_reachable(x, a) && gs.u_reachable(b, y) {
                if a != b {
                    assert(gb.step_in(m, a, b));
                    lemma_reach_step(gb, m, a, b);
                    lemma_reach_trans(gb, m, x, a, b);
                    lemma_reach_trans(gb, m, x, b, y);
                } else {
                    lemma_reach_trans(gs, m, x, a, y);
                }
            } else {
                if a != b {
                    assert(gb.step_in(m, b, a));
                    lemma_reach_step(gb, m, b, a);
                    lemma_reach_trans(gb, m, x, b, a);
                    lemma_reach_trans(gb, m, x, a, y);
                } else {
                    lemma_reach_trans(gs, m, x, b, y);
                }
            }
        }
    }
}

/// Linking two already-connected nodes changes no component: the count is
/// unchanged. This covers a self-loop, which connects a node to itself.
proof fn lemma_count_link_connected(gs: Graph, gb: Graph, a: NodeId, b: NodeId)
    requires
        gb.nodes@.len() == gs.nodes@.len(),
        forall|i: int|
            0 <= i < gs.nodes@.len() ==> (#[trigger] gb.nodes@[i]).id == gs.nodes@[i].id,
        forall|x: NodeId, y: NodeId|
            #[trigger] gb.u_reachable(x, y) == link_reach(gs, a, b, x, y),
        gs.u_reachable(a, b),
    ensures
        gb.component_count() == gs.component_count(),
{
    let m = WalkMode::Undirected;
    lemma_mode_symmetric(gs, m);
    assert forall|x: NodeId, y: NodeId|
        #[trigger] gb.u_reachable(x, y) == gs.u_reachable(x, y) by {
        if gs.u_reachable(x, a) && gs.u_reachable(b, y) {
            lemma_reach_trans(gs, m, x, a, b);
            lemma_reach_trans(gs, m, x, b, y);
        }
        if gs.u_reachable(x, b) && gs.u_reachable(a, y) {
            lemma_reach_symm(gs, m, a, b);
            lemma_reach_trans(gs, m, x, b, a);
            lemma_reach_trans(gs, m, x, a, y);
        }
    }
    assert forall|i: int|
        0 <= i < gs.nodes@.len() implies gb.rep_flags()[i] == gs.rep_flags()[i] by {
        if gs.is_comp_rep(i) {
            assert forall|j: int| 0 <= j < i implies !gb.u_reachable(
                (#[trigger] gb.nodes@[j]).id,
                gb.nodes@[i].id,
            ) by {
                assert(!gs.u_reachable(gs.nodes@[j].id, gs.nodes@[i].id));
            }
        }
        if gb.is_comp_rep(i) {
            assert forall|j: int| 0 <= j < i implies !gs.u_reachable(
                (#[trigger] gs.nodes@[j]).id,
                gs.nodes@[i].id,
            ) by {
                assert(!gb.u_reachable(gb.nodes@[j].id, gb.nodes@[i].id));
            }
        }
    }
    assert(gb.rep_flags() =~= gs.rep_flags());
}

/// Linking two unconnected nodes merges exactly two components: the later
/// of their two first-registered representatives stops representing, and
/// nothing else changes.
#[verifier::rlimit(100)]
proof fn lemma_count_link_split(gs: Graph, gb: Graph, a: NodeId, b: NodeId, ra: int, rb: int)
    requires
        gs.nodes_distinct(),
        gb.nodes@.len() == gs.nodes@.len(),
        forall|i: int|
            0 <= i < gs.nodes@.len() ==> (#[trigger] gb.nodes@[i]).id == gs.nodes@[i].id,
        forall|x: NodeId, y: NodeId|
            #[trigger] gb.u_reachable(x, y) == link_reach(gs, a, b, x, y),
        !gs.u_reachable(a, b),
        least_reach_at(gs, a, ra),
        least_reach_at(gs, b, rb),
        ra < rb,
    ensures
        gb.component_count() == gs.component_count() - 1,
{
    let m = WalkMode::Undirected;
    lemma_mode_symmetric(gs, m);
    assert forall|x: NodeId, y: NodeId| #[trigger] gs.u_reachable(x, y) implies gs.u_reachable(
        y,
        x,
    ) by {
        lemma_reach_symm(gs, m, x, y);
    }
    // nothing reaches both ends: that would connect them
    assert forall|x: NodeId|
        !(#[trigger] gs.u_reachable(x, a) && gs.u_reachable(x, b)) by {
        if gs.u_reachable(x, a) && gs.u_reachable(x, b) {
            lemma_reach_trans(gs, m, a, x, b);
        }
    }
    // the first reacher of `b` represents its component
    assert(gs.is_comp_rep(rb)) by {
        assert forall|j: int| 0 <= j < rb implies !gs.u_reachable(
            (#[trigger] gs.nodes@[j]).id,
            gs.nodes@[rb].id,
        ) by {
            if gs.u_reachable(gs.nodes@[j].id, gs.nodes@[rb].id) {
                lemma_reach_trans(gs, m, gs.nodes@[j].id, gs.nodes@[rb].id, b);
            }
        }
    }
    assert forall|i: int|
        0 <= i < gs.nodes@.len() implies gb.rep_flags()[i] == gs.rep_flags().update(
        rb,
        false,
    )[i] by {
        if i == rb {
            // the link makes the first reacher of `a` reach this record
            assert(gs.u_reachable(gs.nodes@[ra].id, a));
            assert(gs.u_reachable(gs.nodes@[rb].id, b));
            assert(gs.u_reachable(b, gs.nodes@[rb].id));
            assert(link_reach(gs, a, b, gs.nodes@[ra].id, gs.nodes@[rb].id));
            assert(gb.u_reachable(gb.nodes@[ra].id, gb.nodes@[rb].id));
            assert(!gb.is_comp_rep(rb));
        } else {
            if !gs.is_comp_rep(i) {
                let j = choose|j: int|
                    0 <= j < i && gs.u_reachable((#[trigger] gs.nodes@[j]).id, gs.nodes@[i].id);
                assert(gb.u_reachable(gb.nodes@[j].id, gb.nodes@[i].id));
                assert(!gb.is_comp_rep(i));
            } else {
                assert forall|j: int| 0 <= j < i implies !gb.u_reachable(
                    (#[trigger] gb.nodes@[j]).id,
                    gb.nodes@[i].id,
                ) by {
                    let idj = gs.nodes@[j].id;
                    let idi = gs.nodes@[i].id;
                    if gb.u_reachable(gb.nodes@[j].id, gb.nodes@[i].id) {
                        assert(link_reach(gs, a, b, idj, idi));
                        if gs.u_reachable(idj, idi) {
                            assert(false);
                        } else if gs.u_reachable(idj, a) && gs.u_reachable(b, idi) {
                            assert(gs.u_reachable(idi, b));
                            assert(i > rb) by {
                                if i < rb {
                                    assert(!gs.u_reachable(gs.nodes@[i].id, b));
                                }
                            }
                            assert(gs.u_reachable(gs.nodes@[rb].id, idi)) by {
                                lemma_reach_trans(gs, m, gs.nodes@[rb].id, b, idi);
                            }
                            assert(false);
                        } else {
                            assert(gs.u_reachable(idj, b) && gs.u_reachable(a, idi));
                            assert(gs.u_reachable(idi, a));
                            assert(i >= ra) by {
                                if i < ra {
                                    assert(!gs.u_reachable(gs.nodes@[i].id, a));
                                }
                            }
                            if i == ra {
                                assert(j < rb);
                                assert(!gs.u_reachable(gs.nodes@[j].id, b));
                                assert(false);
                            } else {
                                assert(gs.u_reachable(gs.nodes@[ra].id, idi)) by {
                                    lemma_reach_trans(gs, m, gs.nodes@[ra].id, a, idi);
                                }
                                assert(false);
                            }
                        }
                    }
                }
                assert(gb.is_comp_rep(i));
            }
        }
    }
    assert(gb.rep_flags() =~= gs.rep_flags().update(rb, false));
    assert(gs.rep_flags()[rb]);
    lemma_count_true_update_false(gs.rep_flags(), rb);
}

/// Node record `r` is the first record whose node reaches `x`.
pub open spec fn least_reach_at(g: Graph, x: NodeId, r: int) -> bool {
    &&& 0 <= r < g.nodes@.len()
    &&& g.u_reachable(g.nodes@[r].id, x)
    &&& forall|j: int| 0 <= j < r ==> !g.u_reachable((#[trigger] g.nodes@[j]).id, x)
}

/// The component count reads only the node handles and the edge table: it
/// transfers between graphs that agree on those, whatever their flags and
/// aggregates.
pub proof fn lemma_count_same_tables(g0: Graph, g1: Graph)
    requires
        g0.nodes@ == g1.nodes@,
        g0.edges@ == g1.edges@,
        g0.edges_distinct(),
    ensures
        g1.component_count() == g0.component_count(),
{
    lemma_reach_eq_all(g0, g1);
    assert forall|i: int|
        0 <= i < g0.nodes@.len() implies g1.rep_flags()[i] == g0.rep_flags()[i] by {
        if g0.is_comp_rep(i) {
            assert forall|j: int| 0 <= j < i implies !g1.u_reachable(
                (#[trigger] g1.nodes@[j]).id,
                g1.nodes@[i].id,
            ) by {
                assert(!g0.u_reachable(g0.nodes@[j].id, g0.nodes@[i].id));
            }
        }
        if g1.is_comp_rep(i) {
            assert forall|j: int| 0 <= j < i implies !g0.u_reachable(
                (#[trigger] g0.nodes@[j]).id,
                g0.nodes@[i].id,
            ) by {
                assert(!g1.u_reachable(g1.nodes@[j].id, g1.nodes@[i].id));
            }
        }
    }
    assert(g1.rep_flags() =~= g0.rep_flags());
}

/// One edge more or less between `a` and `b`, all else equal: the larger
/// graph has one component fewer exactly when the smaller one keeps `a` and
/// `b` apart.
pub proof fn lemma_count_linked(gs: Graph, gb: Graph, e: EdgeId, a: NodeId, b: NodeId, k: int)
    requires
        gs.nodes_distinct(),
        gs.edges_distinct(),
        gb.edges_distinct(),
        gb.nodes@.len() == gs.nodes@.len(),
        forall|i: int|
            0 <= i < gs.nodes@.len() ==> (#[trigger] gb.nodes@[i]).id == gs.nodes@[i].id,
        0 <= k < gb.edges@.len(),
        gb.edges@[k].id == e,
        gb.edges@[k].start == a,
        gb.edges@[k].end == b,
        gs.edges@ == gb.edges@.remove(k),
        gs.has_node(a),
        gs.has_node(b),
    ensures
        gb.component_count() == gs.component_count() - (if gs.u_reachable(a, b) {
            0int
        } else {
            1int
        }),
{
    let m = WalkMode::Undirected;
    lemma_link_step_iff(gs, gb, e, a, b, k);
    lemma_link_reach_iff(gs, gb, a, b);
    if gs.u_reachable(a, b) {
        lemma_count_link_connected(gs, gb, a, b);
    } else {
        lemma_reach_refl(gs, m, a);
        lemma_reach_refl(gs, m, b);
        let ia = choose|i: int| 0 <= i < gs.nodes@.len() && (#[trigger] gs.nodes@[i]).id == a;
        let ib = choose|i: int| 0 <= i < gs.nodes@.len() && (#[trigger] gs.nodes@[i]).id == b;
        lemma_least_reaching(gs, a, ia);
        lemma_least_reaching(gs, b, ib);
        let ra = choose|r: int| 0 <= r <= ia && #[trigger] least_reach_at(gs, a, r);
        let rb = choose|r: int| 0 <= r <= ib && #[trigger] least_reach_at(gs, b, r);
        assert(ra != rb) by {
            if ra == rb {
                lemma_mode_symmetric(gs, m);
                lemma_reach_symm(gs, m, gs.nodes@[ra].id, a);
                lemma_reach_trans(gs, m, a, gs.nodes@[ra].id, b);
            }
        }
        if ra < rb {
            lemma_count_link_split(gs, gb, a, b, ra, rb);
        } else {
            assert forall|x: NodeId, y: NodeId|
                #[trigger] gb.u_reachable(x, y) == link_reach(gs, b, a, x, y) by {
                assert(gb.u_reachable(x, y) == link_reach(gs, a, b, x, y));
            }
            assert(!gs.u_reachable(b, a)) by {
                if gs.u_reachable(b, a) {
                    lemma_mode_symmetric(gs, m);
                    lemma_reach_symm(gs, m, b, a);
                }
            }
            lemma_count_link_split(gs, gb, b, a, rb, ra);
        }
    }
}

/// The maintained component counter equals the number of connected
/// components of the undirected adjacency graph: the invariant that
/// [`Graph::new`] establishes and every mutation preserves.
pub proof fn lemma_components_counts_components(g: Graph)
    requires
        g.components_ok(),
    ensures
        g.components == g.component_count(),
{
}

/// Any record whose node reaches `x` sits at or after a first such record.
proof fn lemma_least_reaching(g: Graph, x: NodeId, w: int)
    requires
        0 <= w < g.nodes@.len(),
        g.u_reachable(g.nodes@[w].id, x),
    ensures
        exists|r: int| 0 <= r <= w && #[trigger] least_reach_at(g, x, r),
    decreases w,
{
    if exists|j: int| 0 <= j < w && g.u_reachable((#[trigger] g.nodes@[j]).id, x) {
        let j = choose|j: int| 0 <= j < w && g.u_reachable((#[trigger] g.nodes@[j]).id, x);
        lemma_least_reaching(g, x, j);
        let r = choose|r: int| 0 <= r <= j && #[trigger] least_reach_at(g, x, r);
        assert(least_reach_at(g, x, r));
    } else {
        assert(least_reach_at(g, x, w));
    }
}

} // verus!
