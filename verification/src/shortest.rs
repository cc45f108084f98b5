//! Single-source shortest path: classic Dijkstra with linear-scan minimum
//! selection over an unvisited set, parameterized by an optional
//! caller-supplied edge-weight table (each edge counting 1 without one).

use vstd::prelude::*;

use crate::graph::{
    lemma_edge_index_is, lemma_node_index_is, EdgeId, Graph, GraphError, NodeId, PathPart,
};
use crate::reach::WalkMode;
use crate::traverse::{
    count_true, lemma_count_true_bounds, lemma_count_true_push, lemma_count_true_update,
    lemma_step_edge_in_list,
};

verus! {

/// The contract of a produced shortest-path result: it runs from `start`
/// (with no incoming edge) to `end`, and every later position was entered
/// from its predecessor over its recorded edge, following forward adjacency.
pub open spec fn dijkstra_path_ok(g: Graph, start: NodeId, end: NodeId, path: Seq<PathPart>) -> bool {
    &&& path.len() >= 1
    &&& path[0].node == start
    &&& path[0].edge is None
    &&& path[path.len() - 1].node == end
    &&& (forall|i: int, j: int|
        0 <= i < j < path.len() ==> (#[trigger] path[i]).node != (#[trigger] path[j]).node)
    &&& (forall|i: int|
        #![trigger path[i]]
        1 <= i < path.len() ==> (exists|e: EdgeId|
            path[i].edge == Some(e) && #[trigger] g.step_via(
                WalkMode::Forward,
                e,
                path[i - 1].node,
                path[i].node,
            )))
}

/// The predecessor-tree depth of the record registering node `n`: the
/// measure that makes every produced path simple.
pub(crate) open spec fn depth_of(g: Graph, depth: Seq<usize>, n: NodeId) -> int {
    depth[g.node_index(n)] as int
}

/// The bookkeeping the search maintains for every node record index: a
/// tentative distance only for nodes already known reachable, a predecessor
/// entry exactly for distanced nodes other than the source, and predecessor
/// entries that step forward from a visited record and strictly descend in
/// tree depth.
pub(crate) open spec fn dk_inv(
    g: Graph,
    start: NodeId,
    istart: int,
    dist: Seq<Option<u64>>,
    visited: Seq<bool>,
    prev: Seq<Option<(usize, EdgeId)>>,
    depth: Seq<usize>,
) -> bool {
    let n = g.nodes@.len() as int;
    &&& dist.len() == n && visited.len() == n && prev.len() == n && depth.len() == n
    &&& 0 <= istart < n && g.nodes@[istart].id == start
    &&& dist[istart] is Some
    &&& prev[istart] is None
    &&& (forall|i: int| 0 <= i < n && (#[trigger] visited[i]) ==> dist[i] is Some)
    &&& (forall|i: int|
        0 <= i < n ==> ((#[trigger] prev[i]) is Some <==> (dist[i] is Some && i != istart)))
    &&& (forall|i: int|
        0 <= i < n && (#[trigger] prev[i]) is Some ==> {
            let pe = prev[i].unwrap();
            &&& (pe.0 as int) < n
            &&& visited[pe.0 as int]
            &&& dist[pe.0 as int] is Some
            &&& depth[pe.0 as int] < depth[i]
            &&& g.step_via(WalkMode::Forward, pe.1, g.nodes@[pe.0 as int].id, g.nodes@[i].id)
        })
    &&& (forall|i: int|
        0 <= i < n && (#[trigger] dist[i]) is Some ==> depth[i] <= count_true(visited))
}

/// Every forward neighbor of a visited record other than `excl` already has
/// a tentative distance. With `excl == -1` no record is exempt.
pub(crate) open spec fn dk_closed(
    g: Graph,
    dist: Seq<Option<u64>>,
    visited: Seq<bool>,
    excl: int,
) -> bool {
    forall|i: int, v: NodeId|
        0 <= i < g.nodes@.len() && visited[i] && i != excl && #[trigger] g.step_in(
            WalkMode::Forward,
            g.nodes@[i].id,
            v,
        ) ==> (exists|j: int|
            0 <= j < g.nodes@.len() && (#[trigger] g.nodes@[j]).id == v && dist[j] is Some)
}

/// Addition on tentative distances that pins at the largest value instead of
/// wrapping.
fn sat_add_u64(a: u64, b: u64) -> (r: u64)
    ensures
        r == if a + b <= u64::MAX {
            a + b
        } else {
            u64::MAX as int
        },
{
    if a > u64::MAX - b {
        u64::MAX
    } else {
        a + b
    }
}

/// The weight of `edge` under the optional weight table: the first matching
/// entry, or 1 for an edge the table does not mention.
fn weight_for(weights: Option<&Vec<(EdgeId, u32)>>, edge: EdgeId) -> u32 {
    match weights {
        None => 1,
        Some(table) => {
            let mut i: usize = 0;
            while i < table.len()
                decreases table@.len() - i,
            {
                if table[i].0 == edge {
                    return table[i].1;
                }
                i = i + 1;
            }
            1
        },
    }
}

/// The unvisited record with the smallest tentative distance, preferring a
/// distanced record and breaking ties toward the lowest index; a
/// distanceless unvisited record only when no unvisited record has a
/// distance at all. Nothing when every record is visited.
fn select_min(dist: &Vec<Option<u64>>, visited: &Vec<bool>) -> (r: Option<usize>)
    requires
        dist@.len() == visited@.len(),
    ensures
        match r {
            Some(i) => i < dist@.len() && !visited@[i as int] && (dist@[i as int] is None
                ==> forall|j: int|
                0 <= j < dist@.len() && !visited@[j] ==> (#[trigger] dist@[j]) is None),
            None => forall|j: int| 0 <= j < dist@.len() ==> (#[trigger] visited@[j]),
        },
{
    let mut best: Option<usize> = None;
    let mut i: usize = 0;
    while i < dist.len()
        invariant
            i <= dist@.len(),
            dist@.len() == visited@.len(),
            match best {
                Some(b) => b < i && !visited@[b as int],
                None => forall|j: int| 0 <= j < i ==> (#[trigger] visited@[j]),
            },
            (match best {
                Some(b) => dist@[b as int] is None,
                None => true,
            }) ==> forall|j: int| 0 <= j < i && !visited@[j] ==> (#[trigger] dist@[j]) is None,
        decreases dist@.len() - i,
    {
        if !visited[i] {
            let better = match best {
                None => true,
                Some(b) => match (dist[b], dist[i]) {
                    (Option::None, Option::Some(_)) => true,
                    (Option::Some(db), Option::Some(di)) => di < db,
                    _ => false,
                },
            };
            if better {
                best = Some(i);
            }
        }
        i = i + 1;
    }
    best
}

/// A produced path is itself a forward walk: its endpoints are reachable.
proof fn lemma_path_ok_reachable(g: Graph, start: NodeId, end: NodeId, path: Seq<PathPart>)
    requires
        dijkstra_path_ok(g, start, end, path),
    ensures
        g.fwd_reachable(start, end),
{
    let m = WalkMode::Forward;
    let p = Seq::new(path.len(), |i: int| path[i].node);
    assert(p[0] == start && p[p.len() - 1] == end);
    assert forall|i: int| 0 <= i < p.len() - 1 implies g.step_in(m, #[trigger] p[i], p[i + 1]) by {
        assert(path[i + 1] == path[i + 1]);
        let e = choose|e: EdgeId|
            path[i + 1].edge == Some(e) && #[trigger] g.step_via(
                m,
                e,
                path[i].node,
                path[i + 1].node,
            );
        assert(g.step_via(m, e, p[i], p[i + 1]));
    }
    assert(g.is_walk(m, p));
}

/// A sequence with a false entry has at least one true entry fewer than its
/// length.
proof fn lemma_count_true_false_entry(s: Seq<bool>, i: int)
    requires
        0 <= i < s.len(),
        !s[i],
    ensures
        count_true(s) <= s.len() - 1,
{
    lemma_count_true_update(s, i);
    lemma_count_true_bounds(s.update(i, true));
}

/// When every distanced record is visited, the distanced nodes form a
/// forward-closed set containing `start` but not `end`: `end` is
/// unreachable.
proof fn lemma_no_finite_unvisited(
    g: Graph,
    start: NodeId,
    end: NodeId,
    istart: int,
    iend: int,
    dist: Seq<Option<u64>>,
    visited: Seq<bool>,
)
    requires
        g.wf(),
        dist.len() == g.nodes@.len() && visited.len() == g.nodes@.len(),
        0 <= istart < g.nodes@.len() && g.nodes@[istart].id == start,
        dist[istart] is Some,
        g.nodes_distinct(),
        dk_closed(g, dist, visited, -1),
        0 <= iend < g.nodes@.len(),
        g.nodes@[iend].id == end,
        !visited[iend],
        forall|j: int| 0 <= j < dist.len() && !visited[j] ==> (#[trigger] dist[j]) is None,
    ensures
        !g.fwd_reachable(start, end),
{
    let m = WalkMode::Forward;
    let s = Set::new(
        |x: NodeId|
            exists|j: int|
                0 <= j < g.nodes@.len() && (#[trigger] g.nodes@[j]).id == x && dist[j] is Some,
    );
    assert(s.contains(start)) by {
        assert(g.nodes@[istart].id == start && dist[istart] is Some);
    }
    assert forall|u: NodeId, v: NodeId|
        s.contains(u) && #[trigger] g.step_in(m, u, v) implies s.contains(v) by {
        let j = choose|j: int|
            0 <= j < g.nodes@.len() && (#[trigger] g.nodes@[j]).id == u && dist[j] is Some;
        assert(visited[j]);
        assert(g.step_in(m, g.nodes@[j].id, v));
    }
    assert(g.closed_under_step(m, s));
    if g.fwd_reachable(start, end) {
        crate::reach::lemma_reach_in_closed(g, m, start, end, s);
        let j = choose|j: int|
            0 <= j < g.nodes@.len() && (#[trigger] g.nodes@[j]).id == end && dist[j] is Some;
        assert(j == iend) by {
            lemma_node_index_is(g, end, j);
            lemma_node_index_is(g, end, iend);
        }
        assert(visited[iend]);
        assert(false);
    }
}

/// Relaxing one fresh unvisited neighbor of the record under expansion
/// keeps the search bookkeeping and its closure accounting.
#[verifier::rlimit(100)]
proof fn lemma_relax_keeps_inv(
    g: Graph,
    start: NodeId,
    istart: int,
    dist: Seq<Option<u64>>,
    visited: Seq<bool>,
    prev: Seq<Option<(usize, EdgeId)>>,
    depth: Seq<usize>,
    ibest: usize,
    iv: usize,
    e: EdgeId,
    nd: u64,
    excl: int,
)
    requires
        g.wf(),
        dk_inv(g, start, istart, dist, visited, prev, depth),
        dk_closed(g, dist, visited, excl),
        (ibest as int) < g.nodes@.len(),
        (iv as int) < g.nodes@.len(),
        visited[ibest as int],
        visited[istart],
        !visited[iv as int],
        g.step_via(WalkMode::Forward, e, g.nodes@[ibest as int].id, g.nodes@[iv as int].id),
        depth[ibest as int] + 1 <= count_true(visited),
        depth[ibest as int] < usize::MAX,
    ensures
        dk_inv(
            g,
            start,
            istart,
            dist.update(iv as int, Some(nd)),
            visited,
            prev.update(iv as int, Some((ibest, e))),
            depth.update(iv as int, (depth[ibest as int] + 1) as usize),
        ),
        dk_closed(g, dist.update(iv as int, Some(nd)), visited, excl),
{
    let n = g.nodes@.len() as int;
    let iv = iv as int;
    let ibest = ibest as int;
    let dist1 = dist.update(iv, Some(nd));
    let prev1 = prev.update(iv, Some((ibest as usize, e)));
    let depth1 = depth.update(iv, (depth[ibest] + 1) as usize);
    assert(iv != istart) by {
        assert(!visited[iv] && visited[istart]);
    }
    assert(iv != ibest);
    assert(dist1[istart] is Some);
    assert(prev1[istart] is None);
    assert forall|i: int| 0 <= i < n && (#[trigger] visited[i]) implies dist1[i] is Some by {
        assert(dist[i] is Some);
    }
    assert forall|i: int|
        0 <= i < n implies ((#[trigger] prev1[i]) is Some <==> (dist1[i] is Some && i
        != istart)) by {
        if i != iv {
            assert(prev1[i] == prev[i] && dist1[i] == dist[i]);
        }
    }
    assert forall|i: int| 0 <= i < n && (#[trigger] prev1[i]) is Some implies {
        let pe = prev1[i].unwrap();
        &&& (pe.0 as int) < n
        &&& visited[pe.0 as int]
        &&& dist1[pe.0 as int] is Some
        &&& depth1[pe.0 as int] < depth1[i]
        &&& g.step_via(WalkMode::Forward, pe.1, g.nodes@[pe.0 as int].id, g.nodes@[i].id)
    } by {
        if i == iv {
            assert(prev1[iv].unwrap() == (ibest as usize, e));
            assert(depth1[ibest] == depth[ibest]);
            assert(depth1[iv] == depth[ibest] + 1);
        } else {
            assert(prev[i] is Some);
            let pe = prev[i].unwrap();
            assert((pe.0 as int) < n && visited[pe.0 as int] && dist[pe.0 as int] is Some
                && depth[pe.0 as int] < depth[i] && g.step_via(
                WalkMode::Forward,
                pe.1,
                g.nodes@[pe.0 as int].id,
                g.nodes@[i].id,
            ));
            assert(pe.0 as int != iv);
            assert(depth1[pe.0 as int] == depth[pe.0 as int] && depth1[i] == depth[i]);
        }
    }
    assert forall|i: int|
        0 <= i < n && (#[trigger] dist1[i]) is Some implies depth1[i] <= count_true(visited) by {
        if i != iv {
            assert(dist[i] is Some);
            assert(depth1[i] == depth[i]);
        }
    }
    assert forall|i: int, v: NodeId|
        0 <= i < g.nodes@.len() && visited[i] && i != excl && #[trigger] g.step_in(
            WalkMode::Forward,
            g.nodes@[i].id,
            v,
        ) implies (exists|j: int|
        0 <= j < g.nodes@.len() && (#[trigger] g.nodes@[j]).id == v && dist1[j] is Some) by {
        let j = choose|j: int|
            0 <= j < g.nodes@.len() && (#[trigger] g.nodes@[j]).id == v && dist[j] is Some;
        assert(dist1[j] is Some);
    }
}

impl Graph {
    /// Single-source shortest path from `start` to `end` by Dijkstra's
    /// algorithm with linear-scan minimum selection. Edges are followed
    /// forward only, self-loops never; an edge costs its entry in `weights`,
    /// or 1 without one. Produces the path as discovery steps, or nothing
    /// exactly when `end` cannot be reached forward from `start` (the
    /// single-node path when `start == end`). Fails when either node is
    /// unregistered.
    #[verifier::loop_isolation(false)]
    #[verifier::rlimit(100)]
    pub fn dijkstra_path(
        &self,
        start: NodeId,
        end: NodeId,
        weights: Option<&Vec<(EdgeId, u32)>>,
    ) -> (r: Result<Option<Vec<PathPart>>, GraphError>)
        requires
            self.wf(),
        ensures
            match r {
                Ok(opt) => {
                    &&& self.has_node(start) && self.has_node(end)
                    &&& (match opt {
                        Some(path) => self.fwd_reachable(start, end) && dijkstra_path_ok(
                            *self,
                            start,
                            end,
                            path@,
                        ),
                        None => !self.fwd_reachable(start, end),
                    })
                },
                Err(e) => {
                    &&& !(self.has_node(start) && self.has_node(end))
                    &&& e == GraphError::PreconditionViolation
                },
            },
    {
        let ghost g = *self;
        let n = self.nodes.len();
        let istart = match self.find_node(start) {
            Some(i) => i,
            None => {
                return Err(GraphError::PreconditionViolation);
            },
        };
        let iend = match self.find_node(end) {
            Some(i) => i,
            None => {
                return Err(GraphError::PreconditionViolation);
            },
        };
        proof {
            lemma_node_index_is(g, start, istart as int);
            lemma_node_index_is(g, end, iend as int);
        }

        let mut dist: Vec<Option<u64>> = Vec::new();
        let mut visited: Vec<bool> = Vec::new();
        let mut prev: Vec<Option<(usize, EdgeId)>> = Vec::new();
        let mut depth: Vec<usize> = Vec::new();
        let mut i: usize = 0;
        while i < n
            invariant
                i <= n,
                dist@.len() == i && visited@.len() == i && prev@.len() == i && depth@.len() == i,
                forall|j: int| 0 <= j < i ==> (#[trigger] dist@[j]) is None,
                forall|j: int| 0 <= j < i ==> !(#[trigger] visited@[j]),
                forall|j: int| 0 <= j < i ==> (#[trigger] prev@[j]) is None,
                forall|j: int| 0 <= j < i ==> (#[trigger] depth@[j]) == 0,
                count_true(visited@) == 0,
            decreases n - i,
        {
            proof {
                lemma_count_true_push(visited@, false);
            }
            dist.push(None);
            visited.push(false);
            prev.push(None);
            depth.push(0);
            i = i + 1;
        }
        dist.set(istart, Some(0u64));
        proof {
            assert(dk_inv(g, start, istart as int, dist@, visited@, prev@, depth@));
            assert(dk_closed(g, dist@, visited@, -1));
        }

        loop
            invariant
                dk_inv(g, start, istart as int, dist@, visited@, prev@, depth@),
                dk_closed(g, dist@, visited@, -1),
                !visited@[iend as int],
                visited@[istart as int] || (forall|j: int|
                    0 <= j < g.nodes@.len() && j != istart as int ==> (#[trigger] dist@[j])
                        is None),
            decreases g.nodes@.len() - count_true(visited@),
        {
            proof {
                lemma_count_true_bounds(visited@);
            }
            let ghost cb0 = count_true(visited@);
            let ibest = match select_min(&dist, &visited) {
                Some(b) => b,
                None => {
                    proof {
                        assert(visited@[iend as int]);
                        assert(false);
                    }
                    0
                },
            };
            let du = match dist[ibest] {
                Some(d) => d,
                None => {
                    // no unvisited node has a distance left: everything
                    // distanced is visited, so the distanced set is closed
                    // under forward steps and cannot contain `end`
                    proof {
                        lemma_no_finite_unvisited(
                            g,
                            start,
                            end,
                            istart as int,
                            iend as int,
                            dist@,
                            visited@,
                        );
                    }
                    return Ok(None);
                },
            };
            let ub = self.nodes[ibest].id;
            if ub == end {
                proof {
                    lemma_node_index_is(g, ub, ibest as int);
                    assert(ibest == iend);
                }
                let path = self.build_forward(
                    iend,
                    istart,
                    start,
                    &prev,
                    &depth,
                    Ghost(dist@),
                    Ghost(visited@),
                );
                proof {
                    lemma_path_ok_reachable(g, start, end, path@);
                }
                return Ok(Some(path));
            }
            let ghost vis0 = visited@;
            proof {
                assert(depth@[ibest as int] <= cb0) by {
                    assert(dist@[ibest as int] is Some);
                }
            }
            visited.set(ibest, true);
            proof {
                lemma_count_true_update(vis0, ibest as int);
                lemma_count_true_bounds(visited@);
                lemma_node_index_is(g, ub, ibest as int);
                assert(visited@[istart as int]) by {
                    if !vis0[istart as int] {
                        assert(dist@[ibest as int] is Some);
                    }
                }
                assert(dk_closed(g, dist@, visited@, ibest as int)) by {
                    assert forall|i2: int, v: NodeId|
                        0 <= i2 < g.nodes@.len() && visited@[i2] && i2 != ibest as int
                            && #[trigger] g.step_in(WalkMode::Forward, g.nodes@[i2].id, v) implies (
                    exists|j: int|
                        0 <= j < g.nodes@.len() && (#[trigger] g.nodes@[j]).id == v && dist@[j]
                            is Some) by {
                        assert(vis0[i2]);
                    }
                }
            }
            let ghost cb1 = count_true(visited@);

            let edge_count = self.nodes[ibest].edges.len();
            let mut p: usize = 0;
            while p < edge_count
                invariant
                    dk_inv(g, start, istart as int, dist@, visited@, prev@, depth@),
                    dk_closed(g, dist@, visited@, ibest as int),
                    !visited@[iend as int],
                    visited@[istart as int],
                    ibest < g.nodes@.len(),
                    g.nodes@[ibest as int].id == ub,
                    g.node_index(ub) == ibest as int,
                    visited@[ibest as int],
                    dist@[ibest as int] is Some,
                    count_true(visited@) == cb1,
                    cb1 == cb0 + 1,
                    cb1 <= g.nodes@.len(),
                    depth@[ibest as int] + 1 <= cb1,
                    edge_count == g.edges_of(ub).len(),
                    p <= edge_count,
                    forall|q: int, v: NodeId|
                        0 <= q < p && #[trigger] g.step_via(
                            WalkMode::Forward,
                            g.edges_of(ub)[q],
                            ub,
                            v,
                        ) ==> (exists|j: int|
                            0 <= j < g.nodes@.len() && (#[trigger] g.nodes@[j]).id == v
                                && dist@[j] is Some),
                decreases edge_count - p,
            {
                let e = self.nodes[ibest].edges[p];
                proof {
                    assert(g.edges_of(ub)[p as int] == e);
                    assert(g.has_edge(g.nodes@[ibest as int].edges@[p as int]) && g.touches(
                        g.nodes@[ibest as int].edges@[p as int],
                        g.nodes@[ibest as int].id,
                    ));
                }
                let k = match self.find_edge(e) {
                    Some(k) => k,
                    None => {
                        proof {
                            assert(false);
                        }
                        0
                    },
                };
                proof {
                    lemma_edge_index_is(g, e, k as int);
                }
                let s = self.edges[k].start;
                let t = self.edges[k].end;
                let mut vopt: Option<NodeId> = None;
                if s != t {
                    if ub == s {
                        vopt = Some(t);
                    } else if ub == t && !self.directed {
                        vopt = Some(s);
                    }
                }
                if let Some(v) = vopt {
                    proof {
                        assert(g.step_via(WalkMode::Forward, e, ub, v));
                        assert forall|w: NodeId| #[trigger] g.step_via(
                            WalkMode::Forward,
                            e,
                            ub,
                            w,
                        ) implies w == v by {}
                    }
                    let iv = match self.find_node(v) {
                        Some(x) => x,
                        None => {
                            proof {
                                assert(false);
                            }
                            0
                        },
                    };
                    proof {
                        lemma_node_index_is(g, v, iv as int);
                    }
                    if !visited[iv] {
                        let w = weight_for(weights, e);
                        let nd = sat_add_u64(du, w as u64);
                        let improves = match dist[iv] {
                            Option::None => true,
                            Option::Some(dv) => nd < dv,
                        };
                        if improves {
                            proof {
                                lemma_relax_keeps_inv(
                                    g,
                                    start,
                                    istart as int,
                                    dist@,
                                    visited@,
                                    prev@,
                                    depth@,
                                    ibest,
                                    iv,
                                    e,
                                    nd,
                                    ibest as int,
                                );
                            }
                            let dnew = depth[ibest] + 1;
                            dist.set(iv, Some(nd));
                            prev.set(iv, Some((ibest, e)));
                            depth.set(iv, dnew);
                        }
                    }
                    proof {
                        assert(dist@[iv as int] is Some);
                    }
                }
                proof {
                    assert forall|q: int, w: NodeId|
                        0 <= q < p + 1 && #[trigger] g.step_via(
                            WalkMode::Forward,
                            g.edges_of(ub)[q],
                            ub,
                            w,
                        ) implies (exists|j: int|
                        0 <= j < g.nodes@.len() && (#[trigger] g.nodes@[j]).id == w && dist@[j]
                            is Some) by {
                        if q == p as int {
                            match vopt {
                                Some(v) => {
                                    assert(w == v);
                                    let iv0 = g.node_index(v);
                                    assert(g.nodes@[iv0].id == v && dist@[iv0] is Some);
                                },
                                None => {
                                    assert(!g.step_via(WalkMode::Forward, e, ub, w));
                                },
                            }
                        }
                    }
                }
                p = p + 1;
            }
            proof {
                assert forall|i2: int, v: NodeId|
                    0 <= i2 < g.nodes@.len() && visited@[i2] && i2 != -1 && #[trigger] g.step_in(
                        WalkMode::Forward,
                        g.nodes@[i2].id,
                        v,
                    ) implies (exists|j: int|
                    0 <= j < g.nodes@.len() && (#[trigger] g.nodes@[j]).id == v && dist@[j]
                        is Some) by {
                    if i2 == ibest as int {
                        let e = choose|e: EdgeId| g.step_via(WalkMode::Forward, e, ub, v);
                        lemma_step_edge_in_list(g, WalkMode::Forward, e, ub, v);
                        let q = choose|q: int|
                            0 <= q < g.edges_of(ub).len() && g.edges_of(ub)[q] == e;
                        assert(g.step_via(WalkMode::Forward, g.edges_of(ub)[q], ub, v));
                    }
                }
                assert(dk_closed(g, dist@, visited@, -1));
                lemma_count_true_bounds(visited@);
            }
        }
    }

    /// Rebuilds the produced path in discovery order by walking the
    /// predecessor entries back toward the source recursively: the path to a
    /// record is the path to its predecessor plus the step that discovered
    /// it.
    fn build_forward(
        &self,
        cursor: usize,
        istart: usize,
        start: NodeId,
        prev: &Vec<Option<(usize, EdgeId)>>,
        depth: &Vec<usize>,
        Ghost(dist): Ghost<Seq<Option<u64>>>,
        Ghost(visited): Ghost<Seq<bool>>,
    ) -> (path: Vec<PathPart>)
        requires
            self.wf(),
            dk_inv(*self, start, istart as int, dist, visited, prev@, depth@),
            cursor < self.nodes@.len(),
            dist[cursor as int] is Some,
        ensures
            dijkstra_path_ok(*self, start, self.nodes@[cursor as int].id, path@),
            forall|i: int|
                0 <= i < path@.len() ==> self.has_node((#[trigger] path@[i]).node),
            forall|i: int, j: int|
                #![trigger path@[i], path@[j]]
                0 <= i < j < path@.len() ==> depth_of(*self, depth@, path@[i].node) < depth_of(
                    *self,
                    depth@,
                    path@[j].node,
                ),
            depth_of(*self, depth@, path@[path@.len() - 1].node) == depth@[cursor as int],
        decreases depth@[cursor as int],
    {
        let ghost g = *self;
        if cursor == istart {
            let mut path: Vec<PathPart> = Vec::new();
            path.push(PathPart::without_edge(start));
            proof {
                assert(path@[0].node == start && path@[0].edge is None);
                assert(g.nodes@[istart as int].id == start);
                lemma_node_index_is(g, start, istart as int);
            }
            path
        } else {
            let pe = match prev[cursor] {
                Some(pe) => pe,
                None => {
                    proof {
                        assert(prev@[cursor as int] is Some);
                        assert(false);
                    }
                    (0, 0)
                },
            };
            proof {
                assert(prev@[cursor as int] is Some);
                assert(prev@[cursor as int].unwrap() == pe);
            }
            let mut path = self.build_forward(
                pe.0,
                istart,
                start,
                prev,
                depth,
                Ghost(dist),
                Ghost(visited),
            );
            let ghost path0 = path@;
            path.push(PathPart::with_edge(self.nodes[cursor].id, pe.1));
            proof {
                let last = path@.len() - 1;
                assert(path@[last].node == g.nodes@[cursor as int].id);
                lemma_node_index_is(g, g.nodes@[cursor as int].id, cursor as int);
                assert(depth_of(g, depth@, path@[last].node) == depth@[cursor as int]);
                assert(depth_of(g, depth@, path0[path0.len() - 1].node) == depth@[pe.0 as int]);
                assert(depth@[pe.0 as int] < depth@[cursor as int]);
                assert forall|i: int, j: int|
                    #![trigger path@[i], path@[j]]
                    0 <= i < j < path@.len() implies depth_of(g, depth@, path@[i].node)
                    < depth_of(g, depth@, path@[j].node) by {
                    if j < last {
                        assert(path@[i] == path0[i] && path@[j] == path0[j]);
                        assert(depth_of(g, depth@, path0[i].node) < depth_of(
                            g,
                            depth@,
                            path0[j].node,
                        ));
                    } else {
                        if i < path0.len() - 1 {
                            assert(depth_of(g, depth@, path0[i].node) < depth_of(
                                g,
                                depth@,
                                path0[path0.len() - 1].node,
                            ));
                        }
                        assert(path@[i] == path0[i]);
                    }
                }
                assert forall|i: int, j: int|
                    0 <= i < j < path@.len() implies (#[trigger] path@[i]).node != (
                #[trigger] path@[j]).node by {
                    assert(depth_of(g, depth@, path@[i].node) < depth_of(g, depth@, path@[j].node));
                }
                assert(path@[last].edge == Some(pe.1));
                assert(path@[last - 1].node == g.nodes@[pe.0 as int].id);
                assert(g.step_via(
                    WalkMode::Forward,
                    pe.1,
                    g.nodes@[pe.0 as int].id,
                    g.nodes@[cursor as int].id,
                ));
                assert forall|i: int|
                    #![trigger path@[i]]
                    1 <= i < path@.len() implies (exists|e: EdgeId|
                    path@[i].edge == Some(e) && #[trigger] g.step_via(
                        WalkMode::Forward,
                        e,
                        path@[i - 1].node,
                        path@[i].node,
                    )) by {
                    if i < last {
                        assert(path0[i] == path@[i]);
                        let e0 = choose|e: EdgeId|
                            path0[i].edge == Some(e) && #[trigger] g.step_via(
                                WalkMode::Forward,
                                e,
                                path0[i - 1].node,
                                path0[i].node,
                            );
                        assert(path@[i - 1] == path0[i - 1]);
                        assert(g.step_via(
                            WalkMode::Forward,
                            e0,
                            path@[i - 1].node,
                            path@[i].node,
                        ));
                    } else {
                        assert(g.step_via(
                            WalkMode::Forward,
                            pe.1,
                            path@[i - 1].node,
                            path@[i].node,
                        ));
                    }
                }
            }
            path
        }
    }
}

} // verus!
