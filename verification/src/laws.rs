//! The structural laws of the engine, stated on their own: what
//! well-formedness — established by the constructor and preserved by every
//! mutation — guarantees about the adjacency structure and its aggregates.

use vstd::prelude::*;

use crate::graph::{lemma_edge_index_is, EdgeId, Graph, NodeId};
use crate::reach::WalkMode;

verus! {

/// What the bridge test decides is what edge removal does: for an edge with
/// two distinct endpoints, a route around the edge exists exactly when its
/// endpoints stay connected once the edge is gone. Together with the
/// contracts of [`Graph::is_bridge`] and [`Graph::remove_edge`], an edge is
/// a bridge exactly when removing it would raise the component count.
pub proof fn lemma_bridge_means_split(g0: Graph, g1: Graph, e: EdgeId, a: NodeId, b: NodeId, k: int)
    requires
        g0.edges_distinct(),
        g1.edges_distinct(),
        0 <= k < g0.edges@.len(),
        g0.edges@[k].id == e,
        g0.edges@[k].start == a,
        g0.edges@[k].end == b,
        a != b,
        g1.edges@ == g0.edges@.remove(k),
    ensures
        g0.avoid_connected(e, a, b) == g1.u_reachable(a, b),
{
    let ma = WalkMode::Avoiding(e);
    let mu = WalkMode::Undirected;
    lemma_edge_index_is(g0, e, k);
    assert forall|u: NodeId, v: NodeId|
        #[trigger] g0.step_in(ma, u, v) == #[trigger] g1.step_in(mu, u, v) by {
        if g0.step_in(ma, u, v) {
            let x = choose|x: EdgeId| g0.step_via(ma, x, u, v);
            let kx = choose|k2: int| 0 <= k2 < g0.edges@.len() && (#[trigger] g0.edges@[k2]).id == x;
            lemma_edge_index_is(g0, x, kx);
            assert(kx != k);
            let nk: int = if kx < k {
                kx
            } else {
                kx - 1
            };
            assert(g1.edges@[nk] == g0.edges@[kx]);
            lemma_edge_index_is(g1, x, nk);
            assert(g1.step_via(mu, x, u, v));
        }
        if g1.step_in(mu, u, v) {
            let x = choose|x: EdgeId| g1.step_via(mu, x, u, v);
            let nx = choose|k2: int| 0 <= k2 < g1.edges@.len() && (#[trigger] g1.edges@[k2]).id == x;
            lemma_edge_index_is(g1, x, nx);
            let ok: int = if nx < k {
                nx
            } else {
                nx + 1
            };
            assert(g0.edges@[ok] == g1.edges@[nx]);
            assert(ok != k);
            assert(x != e) by {
                assert(g0.edges@[ok].id != g0.edges@[k].id);
            }
            lemma_edge_index_is(g0, x, ok);
            assert(g0.step_via(ma, x, u, v));
            assert(g0.step_in(ma, u, v));
        }
    }
    if g0.avoid_connected(e, a, b) {
        let p = choose|p: Seq<NodeId>|
            #[trigger] g0.is_walk(ma, p) && p.len() >= 2 && p[0] == a && p[p.len() - 1] == b;
        assert forall|i: int| 0 <= i < p.len() - 1 implies g1.step_in(mu, #[trigger] p[i], p[i + 1]) by {
            assert(g0.step_in(ma, p[i], p[i + 1]));
        }
        assert(g1.is_walk(mu, p));
        assert(g1.u_reachable(a, b));
    }
    if g1.u_reachable(a, b) {
        let p = choose|p: Seq<NodeId>|
            #[trigger] g1.is_walk(mu, p) && p[0] == a && p[p.len() - 1] == b;
        assert forall|i: int| 0 <= i < p.len() - 1 implies g0.step_in(ma, #[trigger] p[i], p[i + 1]) by {
            assert(g1.step_in(mu, p[i], p[i + 1]));
        }
        assert(g0.is_walk(ma, p));
        assert(p.len() >= 2);
        assert(g0.avoid_connected(e, a, b));
    }
}

/// Every registered edge is listed exactly once by its first endpoint, is
/// listed by its second endpoint exactly when the endpoints differ (so a
/// self-loop is recorded once, not twice), and is listed by no other node.
/// This holds in every well-formed state, so after any sequence of
/// mutations.
pub proof fn lemma_edge_endpoint_listing(g: Graph, e: EdgeId)
    requires
        g.wf(),
        g.has_edge(e),
    ensures
        g.edges_of(g.start_of(e)).contains(e),
        g.start_of(e) != g.end_of(e) ==> g.edges_of(g.end_of(e)).contains(e),
        forall|n: NodeId|
            g.has_node(n) ==> (forall|p: int, q: int|
                0 <= p < q < g.edges_of(n).len() ==> !(#[trigger] g.edges_of(n)[p] == e
                    && #[trigger] g.edges_of(n)[q] == e)),
        forall|n: NodeId|
            g.has_node(n) && !g.touches(e, n) ==> !g.edges_of(n).contains(e),
{
    let k0 = choose|k: int| 0 <= k < g.edges@.len() && (#[trigger] g.edges@[k]).id == e;
    lemma_edge_index_is(g, e, k0);
    assert(g.edges_of(g.edges@[k0].start).contains(g.edges@[k0].id));
    assert(g.edges@[k0].start != g.edges@[k0].end ==> g.edges_of(g.edges@[k0].end).contains(
        g.edges@[k0].id,
    ));
    assert forall|n: NodeId| g.has_node(n) implies (forall|p: int, q: int|
        0 <= p < q < g.edges_of(n).len() ==> !(#[trigger] g.edges_of(n)[p] == e
            && #[trigger] g.edges_of(n)[q] == e)) by {
        let i = g.node_index(n);
        assert(0 <= i < g.nodes@.len() && g.nodes@[i].id == n);
        assert forall|p: int, q: int|
            0 <= p < q < g.edges_of(n).len() implies !(#[trigger] g.edges_of(n)[p] == e
            && #[trigger] g.edges_of(n)[q] == e) by {
            assert(g.nodes@[i].edges@[p] != g.nodes@[i].edges@[q]);
        }
    }
    assert forall|n: NodeId| g.has_node(n) && !g.touches(e, n) implies !g.edges_of(n).contains(
        e,
    ) by {
        let i = g.node_index(n);
        assert(0 <= i < g.nodes@.len() && g.nodes@[i].id == n);
        if g.edges_of(n).contains(e) {
            let p = choose|p: int| 0 <= p < g.edges_of(n).len() && g.edges_of(n)[p] == e;
            assert(g.has_edge(g.nodes@[i].edges@[p]) && g.touches(
                g.nodes@[i].edges@[p],
                g.nodes@[i].id,
            ));
        }
    }
}

/// The degree aggregate always equals twice the number of registered edges,
/// a self-loop contributing two like any other edge. This holds in every
/// well-formed state, so after any sequence of mutations.
pub proof fn lemma_degree_twice_edges(g: Graph)
    requires
        g.wf(),
    ensures
        g.degree == 2 * g.edges@.len(),
{
}

} // verus!
