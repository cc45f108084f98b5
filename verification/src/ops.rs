//! The mutation operations: node and edge registration and removal, each of
//! which keeps every derived aggregate consistent or leaves the graph
//! untouched and reports the violated precondition.

use vstd::prelude::*;

use crate::graph::{
    lemma_edge_index_is, lemma_node_index_is, EdgeId, EdgeRec, Graph, GraphError, NodeId, NodeRec,
};
use crate::reach::{lemma_reach_same_edges, WalkMode};

verus! {

impl Graph {
    /// Position of `e` within an incident-edge list, if any.
    fn find_in_list(list: &Vec<EdgeId>, e: EdgeId) -> (r: Option<usize>)
        ensures
            match r {
                Some(p) => p < list@.len() && list@[p as int] == e,
                None => !list@.contains(e),
            },
    {
        let mut p: usize = 0;
        while p < list.len()
            invariant
                p <= list@.len(),
                forall|q: int| 0 <= q < p ==> list@[q] != e,
            decreases list@.len() - p,
        {
            if list[p] == e {
                return Some(p);
            }
            p = p + 1;
        }
        None
    }

    /// Registers node `node` with an empty incident-edge list: a fresh node
    /// forms a component of its own. Fails when `node` is already
    /// registered.
    pub fn add_node(&mut self, node: NodeId) -> (r: Result<(), GraphError>)
        requires
            old(self).wf(),
            old(self).components_ok(),
            old(self).last_node_num < u64::MAX,
            old(self).components < usize::MAX,
        ensures
            final(self).wf(),
            final(self).components_ok(),
            match r {
                Ok(()) => {
                    &&& !old(self).has_node(node)
                    &&& final(self).nodes@.len() == old(self).nodes@.len() + 1
                    &&& (forall|i: int|
                        0 <= i < old(self).nodes@.len() ==> final(self).nodes@[i] == old(
                            self,
                        ).nodes@[i])
                    &&& final(self).nodes@.last().id == node
                    &&& final(self).nodes@.last().edges@ == Seq::<EdgeId>::empty()
                    &&& (forall|n: NodeId|
                        #[trigger] final(self).has_node(n) <==> (old(self).has_node(n) || n
                            == node))
                    &&& (forall|n: NodeId|
                        old(self).has_node(n) ==> #[trigger] final(self).edges_of(n) == old(
                            self,
                        ).edges_of(n))
                    &&& final(self).edges_of(node) == Seq::<EdgeId>::empty()
                    &&& final(self).edges@ == old(self).edges@
                    &&& final(self).degree == old(self).degree
                    &&& final(self).directed == old(self).directed
                    &&& final(self).components == old(self).components + 1
                    &&& final(self).last_node_num == old(self).last_node_num + 1
                    &&& final(self).last_edge_num == old(self).last_edge_num
                },
                Err(e) => {
                    &&& old(self).has_node(node)
                    &&& e == GraphError::PreconditionViolation
                    &&& *final(self) == *old(self)
                },
            },
    {
        let ghost g0 = *self;
        if self.contains_node(node) {
            return Err(GraphError::PreconditionViolation);
        }
        self.last_node_num = self.last_node_num + 1;
        self.components = self.components + 1;
        self.nodes.push(NodeRec { id: node, edges: Vec::new() });
        proof {
            let g1 = *self;
            let newi = g0.nodes@.len() as int;
            assert(g1.nodes@[newi].id == node);
            assert forall|n: NodeId| #[trigger] g1.has_node(n) implies (g0.has_node(n) || n
                == node) by {
                let i = choose|i: int|
                    0 <= i < g1.nodes@.len() && (#[trigger] g1.nodes@[i]).id == n;
                if i < newi {
                    assert(g0.nodes@[i].id == n);
                }
            }
            assert forall|n: NodeId| g0.has_node(n) || n == node implies g1.has_node(n) by {
                if g0.has_node(n) {
                    let i = choose|i: int|
                        0 <= i < g0.nodes@.len() && (#[trigger] g0.nodes@[i]).id == n;
                    assert(g1.nodes@[i].id == n);
                } else {
                    assert(g1.nodes@[newi].id == n);
                }
            }
            assert(g1.nodes_distinct());
            assert forall|n: NodeId| g0.has_node(n) implies #[trigger] g1.edges_of(n)
                == g0.edges_of(n) by {
                let i = g0.node_index(n);
                lemma_node_index_is(g1, n, i);
            }
            lemma_node_index_is(g1, node, newi);
            assert(g1.edges_of(node) =~= Seq::<EdgeId>::empty());
            assert forall|k: int| 0 <= k < g1.edges@.len() implies g1.has_node(
                (#[trigger] g1.edges@[k]).start,
            ) && g1.has_node(g1.edges@[k].end) by {
                assert(g0.has_node(g0.edges@[k].start) && g0.has_node(g0.edges@[k].end));
            }
            assert forall|i: int, p: int|
                0 <= i < g1.nodes@.len() && 0 <= p < g1.nodes@[i].edges@.len() implies g1.has_edge(
                #[trigger] g1.nodes@[i].edges@[p]) && g1.touches(
                g1.nodes@[i].edges@[p],
                g1.nodes@[i].id,
            ) by {
                assert(i < newi);
                assert(g0.has_edge(g0.nodes@[i].edges@[p]) && g0.touches(
                    g0.nodes@[i].edges@[p],
                    g0.nodes@[i].id,
                ));
            }
            assert forall|k: int| 0 <= k < g1.edges@.len() implies g1.edges_of(
                (#[trigger] g1.edges@[k]).start,
            ).contains(g1.edges@[k].id) && (g1.edges@[k].start != g1.edges@[k].end
                ==> g1.edges_of(g1.edges@[k].end).contains(g1.edges@[k].id)) by {
                assert(g0.edges_of(g0.edges@[k].start).contains(g0.edges@[k].id));
                assert(g0.edges@[k].start != g0.edges@[k].end ==> g0.edges_of(
                    g0.edges@[k].end,
                ).contains(g0.edges@[k].id));
                assert(g0.has_node(g0.edges@[k].start));
                assert(g0.has_node(g0.edges@[k].end));
            }
            crate::count::lemma_count_add_node(g0, *self, node);
        }
        Ok(())
    }

    /// Registers edge `edge` from `start` to `end`, both of which must
    /// already be registered nodes. The edge is appended to the incident
    /// list of each distinct endpoint (once only, for a self-loop), the
    /// degree grows by two, and the component count drops by one exactly
    /// when the edge merges two previously unconnected components. Fails
    /// when an endpoint is unregistered or `edge` is already registered.
    #[verifier::spinoff_prover]
    #[verifier::rlimit(100)]
    pub fn add_edge(&mut self, edge: EdgeId, start: NodeId, end: NodeId) -> (r: Result<
        (),
        GraphError,
    >)
        requires
            old(self).wf(),
            old(self).components_ok(),
            old(self).last_edge_num < u64::MAX,
            old(self).degree <= usize::MAX - 2,
        ensures
            final(self).wf(),
            final(self).components_ok(),
            match r {
                Ok(()) => {
                    &&& old(self).has_node(start) && old(self).has_node(end) && !old(self).has_edge(
                        edge,
                    )
                    &&& final(self).edges@ == old(self).edges@.push(
                        EdgeRec { id: edge, start, end },
                    )
                    &&& (forall|x: EdgeId|
                        #[trigger] final(self).has_edge(x) <==> (old(self).has_edge(x) || x
                            == edge))
                    &&& final(self).start_of(edge) == start && final(self).end_of(edge) == end
                    &&& (forall|x: EdgeId|
                        old(self).has_edge(x) ==> #[trigger] final(self).start_of(x) == old(
                            self,
                        ).start_of(x) && final(self).end_of(x) == old(self).end_of(x))
                    &&& final(self).nodes@.len() == old(self).nodes@.len()
                    &&& (forall|i: int|
                        0 <= i < old(self).nodes@.len() ==> (#[trigger] final(self).nodes@[i]).id
                            == old(self).nodes@[i].id)
                    &&& (forall|n: NodeId|
                        #[trigger] final(self).has_node(n) <==> old(self).has_node(n))
                    &&& final(self).edges_of(start) == old(self).edges_of(start).push(edge)
                    &&& (start != end ==> final(self).edges_of(end) == old(self).edges_of(
                        end,
                    ).push(edge))
                    &&& (forall|n: NodeId|
                        old(self).has_node(n) && n != start && n != end
                            ==> #[trigger] final(self).edges_of(n) == old(self).edges_of(n))
                    &&& final(self).degree == old(self).degree + 2
                    &&& final(self).directed == old(self).directed
                    &&& final(self).components == old(self).components - (if old(self).u_reachable(
                        start,
                        end,
                    ) {
                        0int
                    } else {
                        1int
                    })
                    &&& final(self).last_node_num == old(self).last_node_num
                    &&& final(self).last_edge_num == old(self).last_edge_num + 1
                },
                Err(e) => {
                    &&& !(old(self).has_node(start) && old(self).has_node(end) && !old(
                        self,
                    ).has_edge(edge))
                    &&& e == GraphError::PreconditionViolation
                    &&& *final(self) == *old(self)
                },
            },
    {
        let ghost g0 = *self;
        let ia = match self.find_node(start) {
            Some(i) => i,
            None => {
                return Err(GraphError::PreconditionViolation);
            },
        };
        let ib = match self.find_node(end) {
            Some(i) => i,
            None => {
                return Err(GraphError::PreconditionViolation);
            },
        };
        if self.contains_edge(edge) {
            return Err(GraphError::PreconditionViolation);
        }
        proof {
            lemma_node_index_is(g0, start, ia as int);
            lemma_node_index_is(g0, end, ib as int);
        }
        let already = self.connected_undirected(start, end);
        if !already {
            proof {
                crate::count::lemma_component_count_pos(g0);
            }
            self.components = self.components - 1;
        }
        self.last_edge_num = self.last_edge_num + 1;
        self.degree = self.degree + 2;
        self.nodes[ia].edges.push(edge);
        if start != end {
            self.nodes[ib].edges.push(edge);
        }
        self.edges.push(EdgeRec { id: edge, start, end });
        proof {
            let g1 = *self;
            let newk = g0.edges@.len() as int;
            assert(g1.edges@ =~= g0.edges@.push(EdgeRec { id: edge, start, end }));
            assert(g1.nodes@.len() == g0.nodes@.len());
            assert forall|i: int| 0 <= i < g1.nodes@.len() implies (#[trigger] g1.nodes@[i]).id
                == g0.nodes@[i].id by {}
            assert forall|n: NodeId| #[trigger] g1.has_node(n) <==> g0.has_node(n) by {
                if g1.has_node(n) {
                    let i = choose|i: int|
                        0 <= i < g1.nodes@.len() && (#[trigger] g1.nodes@[i]).id == n;
                    assert(g0.nodes@[i].id == n);
                }
                if g0.has_node(n) {
                    let i = choose|i: int|
                        0 <= i < g0.nodes@.len() && (#[trigger] g0.nodes@[i]).id == n;
                    assert(g1.nodes@[i].id == n);
                }
            }
            assert(g1.nodes_distinct());
            assert(g1.edges_distinct()) by {
                assert forall|i: int, j: int| 0 <= i < j < g1.edges@.len() implies (
                #[trigger] g1.edges@[i]).id != (#[trigger] g1.edges@[j]).id by {
                    if j < newk {
                        assert(g0.edges@[i].id != g0.edges@[j].id);
                    } else {
                        assert(g1.edges@[i].id == g0.edges@[i].id);
                        assert(g0.has_edge(g0.edges@[i].id));
                    }
                }
            }
            assert forall|x: EdgeId| #[trigger] g1.has_edge(x) <==> (g0.has_edge(x) || x
                == edge) by {
                if g1.has_edge(x) {
                    let k = choose|k: int|
                        0 <= k < g1.edges@.len() && (#[trigger] g1.edges@[k]).id == x;
                    if k < newk {
                        assert(g0.edges@[k].id == x);
                    }
                }
                if g0.has_edge(x) {
                    let k = choose|k: int|
                        0 <= k < g0.edges@.len() && (#[trigger] g0.edges@[k]).id == x;
                    assert(g1.edges@[k].id == x);
                }
                if x == edge {
                    assert(g1.edges@[newk].id == x);
                }
            }
            lemma_edge_index_is(g1, edge, newk);
            assert forall|x: EdgeId| g0.has_edge(x) implies #[trigger] g1.start_of(x)
                == g0.start_of(x) && g1.end_of(x) == g0.end_of(x) by {
                let k = g0.edge_index(x);
                assert(g0.edges@[k].id == x);
                lemma_edge_index_is(g1, x, k);
            }
            // the updated incident lists
            lemma_node_index_is(g1, start, ia as int);
            lemma_node_index_is(g1, end, ib as int);
            assert(g1.edges_of(start) =~= g0.edges_of(start).push(edge));
            if start != end {
                assert(g1.edges_of(end) =~= g0.edges_of(end).push(edge));
            }
            assert forall|n: NodeId| g0.has_node(n) && n != start && n != end implies
                #[trigger] g1.edges_of(n) == g0.edges_of(n) by {
                let i = g0.node_index(n);
                assert(g0.nodes@[i].id == n);
                lemma_node_index_is(g1, n, i);
                assert(g1.nodes@[i].edges@ == g0.nodes@[i].edges@);
            }
            // well-formedness of the new state
            assert forall|k: int| 0 <= k < g1.edges@.len() implies g1.has_node(
                (#[trigger] g1.edges@[k]).start,
            ) && g1.has_node(g1.edges@[k].end) by {
                if k < newk {
                    assert(g0.has_node(g0.edges@[k].start) && g0.has_node(g0.edges@[k].end));
                }
            }
            assert forall|i: int, p: int|
                0 <= i < g1.nodes@.len() && 0 <= p < g1.nodes@[i].edges@.len() implies g1.has_edge(
                #[trigger] g1.nodes@[i].edges@[p]) && g1.touches(
                g1.nodes@[i].edges@[p],
                g1.nodes@[i].id,
            ) by {
                if p < g0.nodes@[i].edges@.len() {
                    assert(g1.nodes@[i].edges@[p] == g0.nodes@[i].edges@[p]);
                    assert(g0.has_edge(g0.nodes@[i].edges@[p]) && g0.touches(
                        g0.nodes@[i].edges@[p],
                        g0.nodes@[i].id,
                    ));
                    let x = g0.nodes@[i].edges@[p];
                    let k0 = choose|k: int|
                        0 <= k < g0.edges@.len() && (#[trigger] g0.edges@[k]).id == x;
                    lemma_edge_index_is(g0, x, k0);
                    lemma_edge_index_is(g1, x, k0);
                    assert(g1.start_of(x) == g0.start_of(x) && g1.end_of(x) == g0.end_of(x));
                } else {
                    assert(i == ia as int || i == ib as int);
                    assert(g1.nodes@[i].edges@[p] == edge);
                }
            }
            assert(g1.lists_distinct()) by {
                assert forall|i: int, p: int, q: int|
                    0 <= i < g1.nodes@.len() && 0 <= p < q < g1.nodes@[i].edges@.len() implies (
                #[trigger] g1.nodes@[i].edges@[p]) != (#[trigger] g1.nodes@[i].edges@[q]) by {
                    if q < g0.nodes@[i].edges@.len() {
                        assert(g0.nodes@[i].edges@[p] != g0.nodes@[i].edges@[q]);
                    } else {
                        assert(g1.nodes@[i].edges@[q] == edge);
                        assert(g1.nodes@[i].edges@[p] == g0.nodes@[i].edges@[p]);
                        assert(g0.has_edge(g0.nodes@[i].edges@[p]));
                    }
                }
            }
            assert forall|k: int| 0 <= k < g1.edges@.len() implies g1.edges_of(
                (#[trigger] g1.edges@[k]).start,
            ).contains(g1.edges@[k].id) && (g1.edges@[k].start != g1.edges@[k].end
                ==> g1.edges_of(g1.edges@[k].end).contains(g1.edges@[k].id)) by {
                if k < newk {
                    let x = g0.edges@[k].id;
                    let sx = g0.edges@[k].start;
                    let ex = g0.edges@[k].end;
                    assert(g0.has_node(sx) && g0.has_node(ex));
                    assert(g0.edges_of(sx).contains(x));
                    let ps = choose|p: int|
                        0 <= p < g0.edges_of(sx).len() && g0.edges_of(sx)[p] == x;
                    assert(g1.edges_of(sx)[ps] == x);
                    assert(g1.edges_of(sx).contains(x));
                    if sx != ex {
                        assert(g0.edges_of(ex).contains(x));
                        let pe = choose|p: int|
                            0 <= p < g0.edges_of(ex).len() && g0.edges_of(ex)[p] == x;
                        assert(g1.edges_of(ex)[pe] == x);
                        assert(g1.edges_of(ex).contains(x));
                    }
                } else {
                    let la = g1.edges_of(start);
                    assert(la[la.len() - 1] == edge);
                    assert(la.contains(edge));
                    if start != end {
                        let lb = g1.edges_of(end);
                        assert(lb[lb.len() - 1] == edge);
                        assert(lb.contains(edge));
                    }
                }
            }
            assert(g0.edges@ =~= g1.edges@.remove(g0.edges@.len() as int));
            crate::count::lemma_count_linked(
                g0,
                g1,
                edge,
                start,
                end,
                g0.edges@.len() as int,
            );
        }
        Ok(())
    }

    /// Unregisters node `node`. The node must currently have no incident
    /// edges: it is an isolated component of its own, so the component count
    /// drops by one. Fails when `node` is unregistered or still has edges.
    pub fn remove_node(&mut self, node: NodeId) -> (r: Result<(), GraphError>)
        requires
            old(self).wf(),
            old(self).components_ok(),
        ensures
            final(self).wf(),
            final(self).components_ok(),
            match r {
                Ok(()) => {
                    &&& old(self).has_node(node)
                    &&& old(self).edges_of(node).len() == 0
                    &&& final(self).nodes@ == old(self).nodes@.remove(old(self).node_index(node))
                    &&& (forall|n: NodeId|
                        #[trigger] final(self).has_node(n) <==> (old(self).has_node(n) && n
                            != node))
                    &&& (forall|n: NodeId|
                        old(self).has_node(n) && n != node ==> #[trigger] final(self).edges_of(n)
                            == old(self).edges_of(n))
                    &&& final(self).edges@ == old(self).edges@
                    &&& final(self).degree == old(self).degree
                    &&& final(self).directed == old(self).directed
                    &&& final(self).components == old(self).components - 1
                    &&& final(self).last_node_num == old(self).last_node_num
                    &&& final(self).last_edge_num == old(self).last_edge_num
                },
                Err(e) => {
                    &&& !(old(self).has_node(node) && old(self).edges_of(node).len() == 0)
                    &&& e == GraphError::PreconditionViolation
                    &&& *final(self) == *old(self)
                },
            },
    {
        let ghost g0 = *self;
        let idx = match self.find_node(node) {
            Some(i) => i,
            None => {
                return Err(GraphError::PreconditionViolation);
            },
        };
        proof {
            lemma_node_index_is(g0, node, idx as int);
        }
        if self.nodes[idx].edges.len() > 0 {
            return Err(GraphError::PreconditionViolation);
        }
        proof {
            crate::count::lemma_component_count_pos(g0);
        }
        self.nodes.remove(idx);
        self.components = self.components - 1;
        proof {
            let g1 = *self;
            assert forall|n: NodeId| #[trigger] g1.has_node(n) implies (g0.has_node(n) && n
                != node) by {
                let i = choose|i: int|
                    0 <= i < g1.nodes@.len() && (#[trigger] g1.nodes@[i]).id == n;
                let oi: int = if i < idx {
                    i
                } else {
                    i + 1
                };
                assert(g0.nodes@[oi].id == n);
                if n == node {
                    lemma_node_index_is(g0, node, oi);
                }
            }
            assert forall|n: NodeId| g0.has_node(n) && n != node implies g1.has_node(n) by {
                let i = choose|i: int|
                    0 <= i < g0.nodes@.len() && (#[trigger] g0.nodes@[i]).id == n;
                assert(i != idx);
                let ni: int = if i < idx {
                    i
                } else {
                    i - 1
                };
                assert(g1.nodes@[ni].id == n);
            }
            assert(g1.nodes_distinct()) by {
                assert forall|i: int, j: int| 0 <= i < j < g1.nodes@.len() implies (
                #[trigger] g1.nodes@[i]).id != (#[trigger] g1.nodes@[j]).id by {
                    let oi: int = if i < idx {
                        i
                    } else {
                        i + 1
                    };
                    let oj: int = if j < idx {
                        j
                    } else {
                        j + 1
                    };
                    assert(g0.nodes@[oi].id != g0.nodes@[oj].id);
                }
            }
            assert forall|n: NodeId| g0.has_node(n) && n != node implies #[trigger] g1.edges_of(n)
                == g0.edges_of(n) by {
                let i = g0.node_index(n);
                assert(g0.nodes@[i].id == n);
                assert(i != idx);
                let ni: int = if i < idx {
                    i
                } else {
                    i - 1
                };
                assert(g1.nodes@[ni] == g0.nodes@[i]);
                lemma_node_index_is(g1, n, ni);
            }
            assert forall|k: int| 0 <= k < g1.edges@.len() implies g1.has_node(
                (#[trigger] g1.edges@[k]).start,
            ) && g1.has_node(g1.edges@[k].end) by {
                assert(g0.has_node(g0.edges@[k].start) && g0.has_node(g0.edges@[k].end));
                assert(g0.edges_of(g0.edges@[k].start).contains(g0.edges@[k].id));
                assert(g0.edges@[k].start != node);
                if g0.edges@[k].end != g0.edges@[k].start {
                    assert(g0.edges_of(g0.edges@[k].end).contains(g0.edges@[k].id));
                }
                assert(g0.edges@[k].end != node);
            }
            assert forall|i: int, p: int|
                0 <= i < g1.nodes@.len() && 0 <= p < g1.nodes@[i].edges@.len() implies g1.has_edge(
                #[trigger] g1.nodes@[i].edges@[p]) && g1.touches(
                g1.nodes@[i].edges@[p],
                g1.nodes@[i].id,
            ) by {
                let oi: int = if i < idx {
                    i
                } else {
                    i + 1
                };
                assert(g1.nodes@[i] == g0.nodes@[oi]);
                assert(g0.has_edge(g0.nodes@[oi].edges@[p]) && g0.touches(
                    g0.nodes@[oi].edges@[p],
                    g0.nodes@[oi].id,
                ));
            }
            assert(g1.lists_distinct()) by {
                assert forall|i: int, p: int, q: int|
                    0 <= i < g1.nodes@.len() && 0 <= p < q < g1.nodes@[i].edges@.len() implies (
                #[trigger] g1.nodes@[i].edges@[p]) != (#[trigger] g1.nodes@[i].edges@[q]) by {
                    let oi: int = if i < idx {
                        i
                    } else {
                        i + 1
                    };
                    assert(g1.nodes@[i] == g0.nodes@[oi]);
                    assert(g0.nodes@[oi].edges@[p] != g0.nodes@[oi].edges@[q]);
                }
            }
            assert forall|k: int| 0 <= k < g1.edges@.len() implies g1.edges_of(
                (#[trigger] g1.edges@[k]).start,
            ).contains(g1.edges@[k].id) && (g1.edges@[k].start != g1.edges@[k].end
                ==> g1.edges_of(g1.edges@[k].end).contains(g1.edges@[k].id)) by {
                assert(g0.edges_of(g0.edges@[k].start).contains(g0.edges@[k].id));
                assert(g0.edges@[k].start != g0.edges@[k].end ==> g0.edges_of(
                    g0.edges@[k].end,
                ).contains(g0.edges@[k].id));
                assert(g0.has_node(g0.edges@[k].start));
                assert(g0.has_node(g0.edges@[k].end));
                assert(g0.edges@[k].start != node && g0.edges@[k].end != node) by {
                    assert(g0.edges_of(g0.edges@[k].start).contains(g0.edges@[k].id));
                    if g0.edges@[k].end != g0.edges@[k].start {
                        assert(g0.edges_of(g0.edges@[k].end).contains(g0.edges@[k].id));
                    }
                }
            }
            crate::count::lemma_count_remove_node(g0, g1, node, idx as int);
        }
        Ok(())
    }

    /// Unregisters edge `edge`, which must be registered with endpoint pair
    /// exactly `(start, end)`. The edge leaves the incident list of each
    /// distinct endpoint, the degree drops by two, and the component count
    /// grows by one exactly when the endpoints are no longer connected
    /// afterward (a self-loop can never split anything). Fails when `edge`
    /// is unregistered or its endpoints are not `(start, end)`.
    pub fn remove_edge(&mut self, edge: EdgeId, start: NodeId, end: NodeId) -> (r: Result<
        (),
        GraphError,
    >)
        requires
            old(self).wf(),
            old(self).components_ok(),
        ensures
            final(self).wf(),
            final(self).components_ok(),
            match r {
                Ok(()) => {
                    &&& old(self).has_edge(edge) && old(self).start_of(edge) == start && old(
                        self,
                    ).end_of(edge) == end
                    &&& final(self).edges@ == old(self).edges@.remove(old(self).edge_index(edge))
                    &&& (forall|x: EdgeId|
                        #[trigger] final(self).has_edge(x) <==> (old(self).has_edge(x) && x
                            != edge))
                    &&& (forall|x: EdgeId|
                        old(self).has_edge(x) && x != edge ==> #[trigger] final(self).start_of(x)
                            == old(self).start_of(x) && final(self).end_of(x) == old(self).end_of(
                            x,
                        ))
                    &&& final(self).nodes@.len() == old(self).nodes@.len()
                    &&& (forall|i: int|
                        0 <= i < old(self).nodes@.len() ==> (#[trigger] final(self).nodes@[i]).id
                            == old(self).nodes@[i].id)
                    &&& (forall|n: NodeId|
                        #[trigger] final(self).has_node(n) <==> old(self).has_node(n))
                    &&& (exists|p: int|
                        0 <= p < old(self).edges_of(start).len() && #[trigger] old(self).edges_of(
                            start,
                        )[p] == edge && final(self).edges_of(start) == old(self).edges_of(
                            start,
                        ).remove(p))
                    &&& (start != end ==> exists|p: int|
                        0 <= p < old(self).edges_of(end).len() && #[trigger] old(self).edges_of(
                            end,
                        )[p] == edge && final(self).edges_of(end) == old(self).edges_of(end).remove(
                            p,
                        ))
                    &&& (forall|n: NodeId|
                        old(self).has_node(n) && n != start && n != end
                            ==> #[trigger] final(self).edges_of(n) == old(self).edges_of(n))
                    &&& final(self).degree == old(self).degree - 2
                    &&& final(self).directed == old(self).directed
                    &&& final(self).components == old(self).components + (
                    if final(self).u_reachable(start, end) {
                        0int
                    } else {
                        1int
                    })
                    &&& final(self).last_node_num == old(self).last_node_num
                    &&& final(self).last_edge_num == old(self).last_edge_num
                },
                Err(e) => {
                    &&& !(old(self).has_edge(edge) && old(self).start_of(edge) == start && old(
                        self,
                    ).end_of(edge) == end)
                    &&& e == GraphError::PreconditionViolation
                    &&& *final(self) == *old(self)
                },
            },
    {
        let ghost g0 = *self;
        let k = match self.find_edge(edge) {
            Some(k) => k,
            None => {
                return Err(GraphError::PreconditionViolation);
            },
        };
        proof {
            lemma_edge_index_is(g0, edge, k as int);
        }
        if self.edges[k].start != start || self.edges[k].end != end {
            return Err(GraphError::PreconditionViolation);
        }
        let ia = match self.find_node(start) {
            Some(i) => i,
            None => {
                proof {
                    assert(false);
                }
                0
            },
        };
        proof {
            lemma_node_index_is(g0, start, ia as int);
        }
        let pa = match Self::find_in_list(&self.nodes[ia].edges, edge) {
            Some(p) => p,
            None => {
                proof {
                    assert(g0.edges_of(g0.edges@[k as int].start).contains(g0.edges@[k as int].id));
                    assert(false);
                }
                0
            },
        };
        self.nodes[ia].edges.remove(pa);
        let ghost mut gib: int = 0;
        let ghost mut gpb: int = 0;
        if start != end {
            let ib = match self.find_node(end) {
                Some(i) => i,
                None => {
                    proof {
                        assert(g0.has_node(g0.edges@[k as int].end));
                        let i0 = choose|i: int|
                            0 <= i < g0.nodes@.len() && (#[trigger] g0.nodes@[i]).id == end;
                        assert(self.nodes@[i0].id == end);
                        assert(false);
                    }
                    0
                },
            };
            proof {
                lemma_node_index_is(g0, end, ib as int);
                assert(ib != ia);
            }
            let pb = match Self::find_in_list(&self.nodes[ib].edges, edge) {
                Some(p) => p,
                None => {
                    proof {
                        assert(g0.edges_of(g0.edges@[k as int].end).contains(
                            g0.edges@[k as int].id,
                        ));
                        assert(false);
                    }
                    0
                },
            };
            self.nodes[ib].edges.remove(pb);
            proof {
                gib = ib as int;
                gpb = pb as int;
            }
        }
        self.edges.remove(k);
        self.degree = self.degree - 2;

        proof {
            let g1 = *self;
            assert forall|i: int| 0 <= i < g1.nodes@.len() implies (#[trigger] g1.nodes@[i]).id
                == g0.nodes@[i].id by {}
            assert(g1.nodes_distinct()) by {
                assert forall|i: int, j: int| 0 <= i < j < g1.nodes@.len() implies (
                #[trigger] g1.nodes@[i]).id != (#[trigger] g1.nodes@[j]).id by {
                    assert(g0.nodes@[i].id != g0.nodes@[j].id);
                }
            }
            lemma_node_index_is(g1, start, ia as int);
            assert(g0.edges_of(start)[pa as int] == edge);
            assert(g1.edges_of(start) == g0.edges_of(start).remove(pa as int));
            if start != end {
                lemma_node_index_is(g1, end, gib);
                assert(g0.edges_of(end)[gpb] == edge);
                assert(g1.edges_of(end) == g0.edges_of(end).remove(gpb));
            }
            assert forall|n: NodeId| g0.has_node(n) && n != start && n != end implies
                #[trigger] g1.edges_of(n) == g0.edges_of(n) by {
                let i = g0.node_index(n);
                assert(g0.nodes@[i].id == n);
                lemma_node_index_is(g1, n, i);
                assert(i != ia as int);
                assert(start != end ==> i != gib);
                assert(g1.nodes@[i].edges@ == g0.nodes@[i].edges@);
            }
            lemma_remove_edge_wf(g0, g1, edge, k as int, start, end);
            assert(g1.has_node(start) && g1.has_node(end)) by {
                assert(g0.has_node(g0.edges@[k as int].start));
                assert(g0.has_node(g0.edges@[k as int].end));
            }
            crate::count::lemma_count_linked(g1, g0, edge, start, end, k as int);
            vstd::std_specs::vec::axiom_spec_len(&self.nodes);
            crate::traverse::lemma_count_true_bounds(g1.rep_flags());
        }
        let nowconn = self.connected_undirected(start, end);
        let ghost g1 = *self;
        if !nowconn {
            self.components = self.components + 1;
        }
        proof {
            let gf = *self;
            crate::graph::lemma_same_tables(g1, gf);
            if gf.u_reachable(start, end) && !g1.u_reachable(start, end) {
                lemma_reach_same_edges(gf, g1, WalkMode::Undirected, start, end);
            }
            if g1.u_reachable(start, end) && !gf.u_reachable(start, end) {
                lemma_reach_same_edges(g1, gf, WalkMode::Undirected, start, end);
            }
            crate::count::lemma_count_same_tables(g1, gf);
        }
        Ok(())
    }
}

/// Removing one edge record, and its handle from the incident list of each
/// distinct endpoint, preserves well-formedness and relates the two states
/// field by field.
proof fn lemma_remove_edge_wf(g0: Graph, g1: Graph, edge: EdgeId, k: int, start: NodeId, end: NodeId)
    requires
        g0.wf(),
        0 <= k < g0.edges@.len(),
        g0.edges@[k].id == edge,
        g0.edges@[k].start == start,
        g0.edges@[k].end == end,
        g1.edges@ == g0.edges@.remove(k),
        g1.nodes@.len() == g0.nodes@.len(),
        forall|i: int| 0 <= i < g1.nodes@.len() ==> (#[trigger] g1.nodes@[i]).id == g0.nodes@[i].id,
        exists|p: int|
            0 <= p < g0.edges_of(start).len() && #[trigger] g0.edges_of(start)[p] == edge
                && g1.edges_of(start) == g0.edges_of(start).remove(p),
        start != end ==> exists|p: int|
            0 <= p < g0.edges_of(end).len() && #[trigger] g0.edges_of(end)[p] == edge
                && g1.edges_of(end) == g0.edges_of(end).remove(p),
        forall|n: NodeId|
            g0.has_node(n) && n != start && n != end ==> #[trigger] g1.edges_of(n) == g0.edges_of(
                n,
            ),
        g1.degree == g0.degree - 2,
    ensures
        g1.wf(),
        forall|x: EdgeId| #[trigger] g1.has_edge(x) <==> (g0.has_edge(x) && x != edge),
        forall|x: EdgeId|
            g0.has_edge(x) && x != edge ==> #[trigger] g1.start_of(x) == g0.start_of(x)
                && g1.end_of(x) == g0.end_of(x),
        forall|n: NodeId| #[trigger] g1.has_node(n) <==> g0.has_node(n),
{
    lemma_edge_index_is(g0, edge, k);
    assert forall|n: NodeId| #[trigger] g1.has_node(n) <==> g0.has_node(n) by {
        if g1.has_node(n) {
            let i = choose|i: int| 0 <= i < g1.nodes@.len() && (#[trigger] g1.nodes@[i]).id == n;
            assert(g0.nodes@[i].id == n);
        }
        if g0.has_node(n) {
            let i = choose|i: int| 0 <= i < g0.nodes@.len() && (#[trigger] g0.nodes@[i]).id == n;
            assert(g1.nodes@[i].id == n);
        }
    }
    assert(g1.nodes_distinct());
    assert(g1.edges_distinct()) by {
        assert forall|i: int, j: int| 0 <= i < j < g1.edges@.len() implies (
        #[trigger] g1.edges@[i]).id != (#[trigger] g1.edges@[j]).id by {
            let oi: int = if i < k {
                i
            } else {
                i + 1
            };
            let oj: int = if j < k {
                j
            } else {
                j + 1
            };
            assert(g0.edges@[oi].id != g0.edges@[oj].id);
        }
    }
    assert forall|x: EdgeId| #[trigger] g1.has_edge(x) <==> (g0.has_edge(x) && x != edge) by {
        if g1.has_edge(x) {
            let k2 = choose|k2: int| 0 <= k2 < g1.edges@.len() && (#[trigger] g1.edges@[k2]).id == x;
            let ok2: int = if k2 < k {
                k2
            } else {
                k2 + 1
            };
            assert(g0.edges@[ok2].id == x);
            assert(ok2 != k);
            assert(g0.edges@[ok2].id != g0.edges@[k].id);
        }
        if g0.has_edge(x) && x != edge {
            let k2 = choose|k2: int| 0 <= k2 < g0.edges@.len() && (#[trigger] g0.edges@[k2]).id == x;
            assert(k2 != k);
            let nk2: int = if k2 < k {
                k2
            } else {
                k2 - 1
            };
            assert(g1.edges@[nk2].id == x);
        }
    }
    assert forall|x: EdgeId| g0.has_edge(x) && x != edge implies #[trigger] g1.start_of(x)
        == g0.start_of(x) && g1.end_of(x) == g0.end_of(x) by {
        let k2 = choose|k2: int| 0 <= k2 < g0.edges@.len() && (#[trigger] g0.edges@[k2]).id == x;
        lemma_edge_index_is(g0, x, k2);
        assert(k2 != k);
        let nk2: int = if k2 < k {
            k2
        } else {
            k2 - 1
        };
        assert(g1.edges@[nk2] == g0.edges@[k2]);
        lemma_edge_index_is(g1, x, nk2);
    }
    // every surviving list entry survives with its registration and endpoints
    assert forall|i: int, p: int|
        0 <= i < g1.nodes@.len() && 0 <= p < g1.nodes@[i].edges@.len() implies g1.has_edge(
        #[trigger] g1.nodes@[i].edges@[p]) && g1.touches(g1.nodes@[i].edges@[p], g1.nodes@[i].id)
        && g1.nodes@[i].edges@[p] != edge by {
        let n = g1.nodes@[i].id;
        assert(g0.nodes@[i].id == n);
        assert(g0.has_node(n)) by {
            assert(g0.nodes@[i].id == n);
        }
        lemma_node_index_is(g0, n, i);
        let x = g1.nodes@[i].edges@[p];
        assert(g1.nodes@[i].edges@ == g1.edges_of(n)) by {
            lemma_node_index_is(g1, n, i);
        }
        let op: int = if n == start || n == end {
            let prem = choose|q: int|
                0 <= q < g0.edges_of(n).len() && #[trigger] g0.edges_of(n)[q] == edge
                    && g1.edges_of(n) == g0.edges_of(n).remove(q);
            if p < prem {
                p
            } else {
                p + 1
            }
        } else {
            p
        };
        assert(g0.edges_of(n)[op] == x);
        assert(g0.nodes@[i].edges@[op] == x);
        assert(g0.has_edge(x) && g0.touches(x, n));
        if n == start || n == end {
            let prem = choose|q: int|
                0 <= q < g0.edges_of(n).len() && #[trigger] g0.edges_of(n)[q] == edge
                    && g1.edges_of(n) == g0.edges_of(n).remove(q);
            assert(op != prem);
            assert(x != edge) by {
                assert(g0.nodes@[i].edges@[prem] == edge);
            }
        } else {
            assert(x != edge) by {
                if x == edge {
                    assert(g0.touches(edge, n));
                    assert(g0.start_of(edge) == start && g0.end_of(edge) == end);
                }
            }
        }
        let kx = choose|k2: int| 0 <= k2 < g0.edges@.len() && (#[trigger] g0.edges@[k2]).id == x;
        lemma_edge_index_is(g0, x, kx);
        assert(kx != k);
        let nkx: int = if kx < k {
            kx
        } else {
            kx - 1
        };
        assert(g1.edges@[nkx] == g0.edges@[kx]);
        lemma_edge_index_is(g1, x, nkx);
        assert(g1.start_of(x) == g0.start_of(x) && g1.end_of(x) == g0.end_of(x));
    }
    assert(g1.lists_distinct()) by {
        assert forall|i: int, p: int, q: int|
            0 <= i < g1.nodes@.len() && 0 <= p < q < g1.nodes@[i].edges@.len() implies (
        #[trigger] g1.nodes@[i].edges@[p]) != (#[trigger] g1.nodes@[i].edges@[q]) by {
            let n = g1.nodes@[i].id;
            assert(g0.nodes@[i].id == n);
            lemma_node_index_is(g0, n, i);
            lemma_node_index_is(g1, n, i);
            if n == start || n == end {
                let prem = choose|r: int|
                    0 <= r < g0.edges_of(n).len() && #[trigger] g0.edges_of(n)[r] == edge
                        && g1.edges_of(n) == g0.edges_of(n).remove(r);
                let op: int = if p < prem {
                    p
                } else {
                    p + 1
                };
                let oq: int = if q < prem {
                    q
                } else {
                    q + 1
                };
                assert(g0.nodes@[i].edges@[op] != g0.nodes@[i].edges@[oq]);
            } else {
                assert(g1.edges_of(n) == g0.edges_of(n));
                assert(g1.nodes@[i].edges@ == g0.nodes@[i].edges@);
                assert(g0.nodes@[i].edges@[p] != g0.nodes@[i].edges@[q]);
            }
        }
    }
    assert(g1.endpoints_registered()) by {
        assert forall|k2: int| 0 <= k2 < g1.edges@.len() implies g1.has_node(
            (#[trigger] g1.edges@[k2]).start,
        ) && g1.has_node(g1.edges@[k2].end) by {
            let ok2: int = if k2 < k {
                k2
            } else {
                k2 + 1
            };
            assert(g1.edges@[k2] == g0.edges@[ok2]);
            assert(g0.has_node(g0.edges@[ok2].start) && g0.has_node(g0.edges@[ok2].end));
        }
    }
    assert(g1.edges_listed()) by {
        assert forall|k2: int| 0 <= k2 < g1.edges@.len() implies g1.edges_of(
            (#[trigger] g1.edges@[k2]).start,
        ).contains(g1.edges@[k2].id) && (g1.edges@[k2].start != g1.edges@[k2].end
            ==> g1.edges_of(g1.edges@[k2].end).contains(g1.edges@[k2].id)) by {
            let ok2: int = if k2 < k {
                k2
            } else {
                k2 + 1
            };
            assert(g1.edges@[k2] == g0.edges@[ok2]);
            let x = g0.edges@[ok2].id;
            assert(x != edge) by {
                assert(g0.edges@[ok2].id != g0.edges@[k].id);
            }
            let sx = g0.edges@[ok2].start;
            let ex = g0.edges@[ok2].end;
            assert(g0.has_node(sx) && g0.has_node(ex));
            lemma_list_remove_keeps(g0, g1, edge, start, end, sx, x);
            if sx != ex {
                lemma_list_remove_keeps(g0, g1, edge, start, end, ex, x);
            }
        }
    }
}

/// A list entry other than the removed edge stays in its node's incident
/// list when that edge is removed.
proof fn lemma_list_remove_keeps(
    g0: Graph,
    g1: Graph,
    edge: EdgeId,
    start: NodeId,
    end: NodeId,
    n: NodeId,
    x: EdgeId,
)
    requires
        g0.wf(),
        g0.has_node(n),
        g0.edges_of(n).contains(x),
        x != edge,
        n == start || n == end ==> exists|p: int|
            0 <= p < g0.edges_of(n).len() && #[trigger] g0.edges_of(n)[p] == edge && g1.edges_of(n)
                == g0.edges_of(n).remove(p),
        !(n == start || n == end) ==> g1.edges_of(n) == g0.edges_of(n),
    ensures
        g1.edges_of(n).contains(x),
{
    let q = choose|q: int| 0 <= q < g0.edges_of(n).len() && g0.edges_of(n)[q] == x;
    if n == start || n == end {
        let prem = choose|p: int|
            0 <= p < g0.edges_of(n).len() && #[trigger] g0.edges_of(n)[p] == edge && g1.edges_of(n)
                == g0.edges_of(n).remove(p);
        assert(q != prem);
        let nq: int = if q < prem {
            q
        } else {
            q - 1
        };
        assert(g1.edges_of(n)[nq] == x);
    } else {
        assert(g1.edges_of(n)[q] == x);
    }
}

} // verus!
