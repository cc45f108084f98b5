//! The adjacency structure: node and edge registry, derived aggregates, and
//! the raw adjacency queries on which every algorithm in the crate is built.

use vstd::prelude::*;

verus! {

/// Identity handle for a node. Handles are supplied by the host and treated
/// as opaque stable integers; the engine never interprets them.
pub type NodeId = u64;

/// Identity handle for an edge, supplied by the host like [`NodeId`].
pub type EdgeId = u64;

/// One registered node: its handle and the handles of its incident edges in
/// insertion order. A self-loop appears exactly once in the list.
pub struct NodeRec {
    pub id: NodeId,
    pub edges: Vec<EdgeId>,
}

/// One registered edge: its handle and its endpoint pair. The pair order is
/// fixed at creation and is the basis for the directed interpretation.
pub struct EdgeRec {
    pub id: EdgeId,
    pub start: NodeId,
    pub end: NodeId,
}

/// The error of every operation whose precondition fails: an unregistered
/// handle, a duplicate registration, or removing a node that still has
/// incident edges. A failed operation leaves the graph untouched.
#[derive(Clone, Copy, PartialEq, Eq, Debug)]
pub enum GraphError {
    PreconditionViolation,
}

/// The node opposite a given node across a given edge, classified by how the
/// edge may be traversed from that node.
#[derive(Clone, Copy, PartialEq, Eq, Debug)]
pub enum OppositeNode {
    /// The edge leads forward from the given node to this neighbor (always,
    /// when the graph is undirected; only along the stored direction, when
    /// directed).
    Adjacent(NodeId),
    /// The edge reaches the given node against its stored direction; the
    /// neighbor counts for adjacency listings but not for forward traversal.
    CounterAdjacent(NodeId),
    /// The edge is a self-loop on the given node.
    Loop,
    /// The edge is not registered or does not touch the given node.
    NotIncident,
}

/// One step of a produced path or traversal order: a node, and the edge used
/// to first reach it (absent only for the walk's start node).
#[derive(Clone, Copy, PartialEq, Eq, Debug)]
pub struct PathPart {
    pub node: NodeId,
    pub edge: Option<EdgeId>,
}

impl PathPart {
    /// A step reached over `edge`.
    pub fn with_edge(node: NodeId, edge: EdgeId) -> (r: PathPart)
        ensures
            r.node == node,
            r.edge == Some(edge),
    {
        PathPart { node, edge: Some(edge) }
    }

    /// A step with no incoming edge: the start of a walk.
    pub fn without_edge(node: NodeId) -> (r: PathPart)
        ensures
            r.node == node,
            r.edge == None::<EdgeId>,
    {
        PathPart { node, edge: None }
    }
}

/// The graph engine: the adjacency structure plus the derived aggregates
/// (total degree, connected-component count) that every mutation keeps
/// consistent, and the directed flag that reinterprets stored edges at query
/// time.
pub struct Graph {
    /// Registered nodes in insertion order, each with its incident edges.
    pub nodes: Vec<NodeRec>,
    /// Registered edges in insertion order.
    pub edges: Vec<EdgeRec>,
    /// Always `2 * edges.len()`: each edge contributes two endpoint touches,
    /// a self-loop included.
    pub degree: usize,
    /// Reinterprets stored endpoint pairs at query time; storage never
    /// changes when this is toggled.
    pub directed: bool,
    /// The number of connected components of the undirected adjacency graph,
    /// maintained incrementally by the mutations.
    pub components: usize,
    /// Monotonically increasing creation counter for nodes, for external
    /// labeling only.
    pub last_node_num: u64,
    /// Monotonically increasing creation counter for edges, for external
    /// labeling only.
    pub last_edge_num: u64,
}

impl Graph {
    /// True when some node record carries the handle `n`.
    pub open spec fn has_node(self, n: NodeId) -> bool {
        exists|i: int| 0 <= i < self.nodes@.len() && (#[trigger] self.nodes@[i]).id == n
    }

    /// The index of the node record carrying `n` (meaningful under
    /// `has_node`; unique under well-formedness).
    pub open spec fn node_index(self, n: NodeId) -> int {
        choose|i: int| 0 <= i < self.nodes@.len() && (#[trigger] self.nodes@[i]).id == n
    }

    /// The incident-edge list of node `n`, in insertion order.
    pub open spec fn edges_of(self, n: NodeId) -> Seq<EdgeId> {
        self.nodes@[self.node_index(n)].edges@
    }

    /// True when some edge record carries the handle `e`.
    pub open spec fn has_edge(self, e: EdgeId) -> bool {
        exists|k: int| 0 <= k < self.edges@.len() && (#[trigger] self.edges@[k]).id == e
    }

    /// The index of the edge record carrying `e` (meaningful under
    /// `has_edge`; unique under well-formedness).
    pub open spec fn edge_index(self, e: EdgeId) -> int {
        choose|k: int| 0 <= k < self.edges@.len() && (#[trigger] self.edges@[k]).id == e
    }

    /// The first endpoint of edge `e`, as registered.
    pub open spec fn start_of(self, e: EdgeId) -> NodeId {
        self.edges@[self.edge_index(e)].start
    }

    /// The second endpoint of edge `e`, as registered.
    pub open spec fn end_of(self, e: EdgeId) -> NodeId {
        self.edges@[self.edge_index(e)].end
    }

    /// True when edge `e` has node `n` as one of its endpoints.
    pub open spec fn touches(self, e: EdgeId, n: NodeId) -> bool {
        self.start_of(e) == n || self.end_of(e) == n
    }

    /// No two node records share a handle.
    pub open spec fn nodes_distinct(self) -> bool {
        forall|i: int, j: int|
            0 <= i < j < self.nodes@.len() ==> (#[trigger] self.nodes@[i]).id != (
            #[trigger] self.nodes@[j]).id
    }

    /// No two edge records share a handle.
    pub open spec fn edges_distinct(self) -> bool {
        forall|i: int, j: int|
            0 <= i < j < self.edges@.len() ==> (#[trigger] self.edges@[i]).id != (
            #[trigger] self.edges@[j]).id
    }

    /// Both endpoints of every registered edge are registered nodes.
    pub open spec fn endpoints_registered(self) -> bool {
        forall|k: int|
            0 <= k < self.edges@.len() ==> self.has_node((#[trigger] self.edges@[k]).start)
                && self.has_node(self.edges@[k].end)
    }

    /// Every handle in a node's incident list is a registered edge that
    /// touches that node.
    pub open spec fn lists_sound(self) -> bool {
        forall|i: int, p: int|
            0 <= i < self.nodes@.len() && 0 <= p < self.nodes@[i].edges@.len() ==> self.has_edge(
                #[trigger] self.nodes@[i].edges@[p],
            ) && self.touches(self.nodes@[i].edges@[p], self.nodes@[i].id)
    }

    /// No node's incident list mentions an edge twice; in particular a
    /// self-loop is recorded once, not twice.
    pub open spec fn lists_distinct(self) -> bool {
        forall|i: int, p: int, q: int|
            0 <= i < self.nodes@.len() && 0 <= p < q < self.nodes@[i].edges@.len() ==> (
            #[trigger] self.nodes@[i].edges@[p]) != (#[trigger] self.nodes@[i].edges@[q])
    }

    /// Every registered edge appears in the incident list of its first
    /// endpoint, and in the list of its second endpoint exactly when the two
    /// endpoints differ.
    pub open spec fn edges_listed(self) -> bool {
        forall|k: int|
            0 <= k < self.edges@.len() ==> self.edges_of(
                (#[trigger] self.edges@[k]).start,
            ).contains(self.edges@[k].id) && (self.edges@[k].start != self.edges@[k].end
                ==> self.edges_of(self.edges@[k].end).contains(self.edges@[k].id))
    }

    /// The degree aggregate equals two endpoint touches per edge.
    pub open spec fn degree_ok(self) -> bool {
        self.degree == 2 * self.edges@.len()
    }

    /// Structural well-formedness: the mutual consistency of the node
    /// registry, the edge registry and the degree aggregate. Established by
    /// [`Graph::new`] and preserved by every mutation.
    pub open spec fn wf(self) -> bool {
        &&& self.nodes_distinct()
        &&& self.edges_distinct()
        &&& self.endpoints_registered()
        &&& self.lists_sound()
        &&& self.lists_distinct()
        &&& self.edges_listed()
        &&& self.degree_ok()
    }

    /// A fresh engine: no nodes, no edges, undirected, zero components.
    pub fn new() -> (g: Graph)
        ensures
            g.wf(),
            g.components_ok(),
            g.nodes@.len() == 0,
            g.edges@.len() == 0,
            g.degree == 0,
            !g.directed,
            g.components == 0,
            g.last_node_num == 0,
            g.last_edge_num == 0,
    {
        let g = Graph {
            nodes: Vec::new(),
            edges: Vec::new(),
            degree: 0,
            directed: false,
            components: 0,
            last_node_num: 0,
            last_edge_num: 0,
        };
        proof {
            assert(g.rep_flags() =~= Seq::<bool>::empty());
        }
        g
    }

    /// The number of registered nodes.
    pub fn node_count(&self) -> (r: usize)
        ensures
            r == self.nodes@.len(),
    {
        self.nodes.len()
    }

    /// The total degree: two per registered edge, self-loops included.
    pub fn degree(&self) -> (r: usize)
        ensures
            r == self.degree,
    {
        self.degree
    }

    /// The number of connected components of the undirected adjacency graph.
    pub fn components(&self) -> (r: usize)
        ensures
            r == self.components,
    {
        self.components
    }

    /// Whether stored edges are currently read as directed.
    pub fn directed(&self) -> (r: bool)
        ensures
            r == self.directed,
    {
        self.directed
    }

    /// Toggles the directed interpretation of the stored edges. Storage is
    /// untouched: every existing endpoint pair is reinterpreted
    /// retroactively, and the component count — which ignores direction —
    /// stays correct.
    pub fn set_directed(&mut self, directed: bool)
        ensures
            *final(self) == (Graph { directed, ..*old(self) }),
            old(self).wf() ==> final(self).wf(),
            old(self).wf() && old(self).components_ok() ==> final(self).components_ok(),
    {
        let ghost g0 = *self;
        self.directed = directed;
        proof {
            if g0.wf() {
                lemma_same_tables(g0, *self);
                if g0.components_ok() {
                    crate::count::lemma_count_same_tables(g0, *self);
                }
            }
        }
    }

    /// The node creation counter, for external labeling.
    pub fn last_node_num(&self) -> (r: u64)
        ensures
            r == self.last_node_num,
    {
        self.last_node_num
    }

    /// The edge creation counter, for external labeling.
    pub fn last_edge_num(&self) -> (r: u64)
        ensures
            r == self.last_edge_num,
    {
        self.last_edge_num
    }

    /// Position of the record registering node `n`, if any.
    pub(crate) fn find_node(&self, n: NodeId) -> (r: Option<usize>)
        ensures
            match r {
                Some(i) => i < self.nodes@.len() && self.nodes@[i as int].id == n,
                None => !self.has_node(n),
            },
            r is Some <==> self.has_node(n),
    {
        let mut i: usize = 0;
        while i < self.nodes.len()
            invariant
                i <= self.nodes@.len(),
                forall|j: int| 0 <= j < i ==> (#[trigger] self.nodes@[j]).id != n,
            decreases self.nodes@.len() - i,
        {
            if self.nodes[i].id == n {
                return Some(i);
            }
            i = i + 1;
        }
        None
    }

    /// Position of the record registering edge `e`, if any.
    pub(crate) fn find_edge(&self, e: EdgeId) -> (r: Option<usize>)
        ensures
            match r {
                Some(k) => k < self.edges@.len() && self.edges@[k as int].id == e,
                None => !self.has_edge(e),
            },
            r is Some <==> self.has_edge(e),
    {
        let mut k: usize = 0;
        while k < self.edges.len()
            invariant
                k <= self.edges@.len(),
                forall|j: int| 0 <= j < k ==> (#[trigger] self.edges@[j]).id != e,
            decreases self.edges@.len() - k,
        {
            if self.edges[k].id == e {
                return Some(k);
            }
            k = k + 1;
        }
        None
    }

    /// Whether `n` is a registered node.
    pub fn contains_node(&self, n: NodeId) -> (r: bool)
        ensures
            r == self.has_node(n),
    {
        self.find_node(n).is_some()
    }

    /// Whether `e` is a registered edge.
    pub fn contains_edge(&self, e: EdgeId) -> (r: bool)
        ensures
            r == self.has_edge(e),
    {
        self.find_edge(e).is_some()
    }

    /// What [`Graph::opposite`] returns: the classification of the node
    /// across `edge` from `node`, under the current directed interpretation.
    pub open spec fn spec_opposite(self, node: NodeId, edge: EdgeId) -> OppositeNode {
        if !self.has_edge(edge) || !self.touches(edge, node) {
            OppositeNode::NotIncident
        } else if self.start_of(edge) == self.end_of(edge) {
            OppositeNode::Loop
        } else if node == self.start_of(edge) {
            OppositeNode::Adjacent(self.end_of(edge))
        } else if !self.directed {
            OppositeNode::Adjacent(self.start_of(edge))
        } else {
            OppositeNode::CounterAdjacent(self.start_of(edge))
        }
    }

    /// The node opposite `node` across `edge`: the forward neighbor, the
    /// backward neighbor of a directed edge, the loop case, or nothing when
    /// the edge is unregistered or does not touch `node`.
    pub fn opposite(&self, node: NodeId, edge: EdgeId) -> (r: OppositeNode)
        requires
            self.wf(),
        ensures
            r == self.spec_opposite(node, edge),
    {
        let k = match self.find_edge(edge) {
            Some(k) => k,
            None => {
                return OppositeNode::NotIncident;
            },
        };
        proof {
            lemma_edge_index_is(*self, edge, k as int);
        }
        let s = self.edges[k].start;
        let t = self.edges[k].end;
        if s != node && t != node {
            OppositeNode::NotIncident
        } else if s == t {
            OppositeNode::Loop
        } else if node == s {
            OppositeNode::Adjacent(t)
        } else if !self.directed {
            OppositeNode::Adjacent(s)
        } else {
            OppositeNode::CounterAdjacent(s)
        }
    }

    /// Whether some registered edge touches both `a` and `b` (a self-loop on
    /// `a` makes `a` adjacent to itself). Direction is ignored. Fails when
    /// `a` is not a registered node.
    pub fn is_adjacent(&self, a: NodeId, b: NodeId) -> (r: Result<bool, GraphError>)
        requires
            self.wf(),
        ensures
            match r {
                Ok(c) => self.has_node(a) && (c == exists|e: EdgeId|
                    self.has_edge(e) && #[trigger] self.touches(e, a) && self.touches(e, b)),
                Err(e) => !self.has_node(a) && e == GraphError::PreconditionViolation,
            },
    {
        let ia = match self.find_node(a) {
            Some(i) => i,
            None => {
                return Err(GraphError::PreconditionViolation);
            },
        };
        proof {
            lemma_node_index_is(*self, a, ia as int);
        }
        let count = self.nodes[ia].edges.len();
        let mut p: usize = 0;
        while p < count
            invariant
                self.wf(),
                ia < self.nodes@.len(),
                self.node_index(a) == ia as int,
                self.nodes@[ia as int].id == a,
                count == self.edges_of(a).len(),
                p <= count,
                forall|q: int|
                    0 <= q < p ==> !self.touches(#[trigger] self.edges_of(a)[q], b),
            decreases count - p,
        {
            let e = self.nodes[ia].edges[p];
            let k = match self.find_edge(e) {
                Some(k) => k,
                None => {
                    proof {
                        assert(false);
                    }
                    0
                },
            };
            proof {
                lemma_edge_index_is(*self, e, k as int);
            }
            if self.edges[k].start == b || self.edges[k].end == b {
                proof {
                    assert(self.touches(e, a) && self.touches(e, b));
                }
                return Ok(true);
            }
            p = p + 1;
        }
        proof {
            if exists|e: EdgeId|
                self.has_edge(e) && #[trigger] self.touches(e, a) && self.touches(e, b) {
                let e = choose|e: EdgeId|
                    self.has_edge(e) && #[trigger] self.touches(e, a) && self.touches(e, b);
                let k = self.edge_index(e);
                assert(self.edges@[k].id == e);
                assert(self.edges_of(self.edges@[k].start).contains(self.edges@[k].id));
                assert(self.edges@[k].start != self.edges@[k].end ==> self.edges_of(
                    self.edges@[k].end,
                ).contains(self.edges@[k].id));
                assert(self.edges_of(a).contains(e));
                let q = choose|q: int| 0 <= q < self.edges_of(a).len() && self.edges_of(a)[q] == e;
                assert(!self.touches(self.edges_of(a)[q], b));
                assert(false);
            }
        }
        Ok(false)
    }
}

/// Under distinct node handles, any record position carrying `n` is the
/// node's unique index.
pub proof fn lemma_node_index_is(g: Graph, n: NodeId, i: int)
    requires
        g.nodes_distinct(),
        0 <= i < g.nodes@.len(),
        g.nodes@[i].id == n,
    ensures
        g.has_node(n),
        g.node_index(n) == i,
{
    assert(g.has_node(n));
    let j = g.node_index(n);
    assert(0 <= j < g.nodes@.len() && g.nodes@[j].id == n);
    if i < j {
        assert(g.nodes@[i].id != g.nodes@[j].id);
    } else if j < i {
        assert(g.nodes@[j].id != g.nodes@[i].id);
    }
}

/// Well-formedness and the adjacency views read only the node table, the
/// edge table and the degree aggregate: they transfer between two graphs
/// that agree on those, whatever their flags and counters.
pub proof fn lemma_same_tables(a: Graph, b: Graph)
    requires
        a.wf(),
        b.nodes@ == a.nodes@,
        b.edges@ == a.edges@,
        b.degree == a.degree,
    ensures
        b.wf(),
        forall|n: NodeId| #[trigger] b.has_node(n) == a.has_node(n),
        forall|x: EdgeId| #[trigger] b.has_edge(x) == a.has_edge(x),
        forall|n: NodeId| a.has_node(n) ==> #[trigger] b.edges_of(n) == a.edges_of(n),
        forall|x: EdgeId|
            a.has_edge(x) ==> #[trigger] b.start_of(x) == a.start_of(x) && b.end_of(x) == a.end_of(
                x,
            ),
{
    assert forall|n: NodeId| #[trigger] b.has_node(n) == a.has_node(n) by {
        if a.has_node(n) {
            let i = choose|i: int| 0 <= i < a.nodes@.len() && (#[trigger] a.nodes@[i]).id == n;
            assert(b.nodes@[i].id == n);
        }
        if b.has_node(n) {
            let i = choose|i: int| 0 <= i < b.nodes@.len() && (#[trigger] b.nodes@[i]).id == n;
            assert(a.nodes@[i].id == n);
        }
    }
    assert forall|x: EdgeId| #[trigger] b.has_edge(x) == a.has_edge(x) by {
        if a.has_edge(x) {
            let k = choose|k: int| 0 <= k < a.edges@.len() && (#[trigger] a.edges@[k]).id == x;
            assert(b.edges@[k].id == x);
        }
        if b.has_edge(x) {
            let k = choose|k: int| 0 <= k < b.edges@.len() && (#[trigger] b.edges@[k]).id == x;
            assert(a.edges@[k].id == x);
        }
    }
    assert(b.nodes_distinct()) by {
        assert forall|i: int, j: int| 0 <= i < j < b.nodes@.len() implies (
        #[trigger] b.nodes@[i]).id != (#[trigger] b.nodes@[j]).id by {
            assert(a.nodes@[i].id != a.nodes@[j].id);
        }
    }
    assert(b.edges_distinct()) by {
        assert forall|i: int, j: int| 0 <= i < j < b.edges@.len() implies (
        #[trigger] b.edges@[i]).id != (#[trigger] b.edges@[j]).id by {
            assert(a.edges@[i].id != a.edges@[j].id);
        }
    }
    assert forall|n: NodeId| a.has_node(n) implies #[trigger] b.edges_of(n) == a.edges_of(n) by {
        let i = a.node_index(n);
        assert(a.nodes@[i].id == n);
        lemma_node_index_is(b, n, i);
    }
    assert forall|x: EdgeId| a.has_edge(x) implies #[trigger] b.start_of(x) == a.start_of(x)
        && b.end_of(x) == a.end_of(x) by {
        let k = a.edge_index(x);
        assert(a.edges@[k].id == x);
        lemma_edge_index_is(b, x, k);
    }
    assert(b.endpoints_registered()) by {
        assert forall|k: int| 0 <= k < b.edges@.len() implies b.has_node(
            (#[trigger] b.edges@[k]).start,
        ) && b.has_node(b.edges@[k].end) by {
            assert(a.has_node(a.edges@[k].start) && a.has_node(a.edges@[k].end));
        }
    }
    assert(b.lists_sound()) by {
        assert forall|i: int, p: int|
            0 <= i < b.nodes@.len() && 0 <= p < b.nodes@[i].edges@.len() implies b.has_edge(
            #[trigger] b.nodes@[i].edges@[p]) && b.touches(b.nodes@[i].edges@[p], b.nodes@[i].id) by {
            let x = a.nodes@[i].edges@[p];
            assert(a.has_edge(x) && a.touches(x, a.nodes@[i].id));
            assert(b.start_of(x) == a.start_of(x) && b.end_of(x) == a.end_of(x));
        }
    }
    assert(b.lists_distinct()) by {
        assert forall|i: int, p: int, q: int|
            0 <= i < b.nodes@.len() && 0 <= p < q < b.nodes@[i].edges@.len() implies (
        #[trigger] b.nodes@[i].edges@[p]) != (#[trigger] b.nodes@[i].edges@[q]) by {
            assert(a.nodes@[i].edges@[p] != a.nodes@[i].edges@[q]);
        }
    }
    assert(b.edges_listed()) by {
        assert forall|k: int| 0 <= k < b.edges@.len() implies b.edges_of(
            (#[trigger] b.edges@[k]).start,
        ).contains(b.edges@[k].id) && (b.edges@[k].start != b.edges@[k].end ==> b.edges_of(
            b.edges@[k].end,
        ).contains(b.edges@[k].id)) by {
            assert(a.edges_of(a.edges@[k].start).contains(a.edges@[k].id));
            assert(a.edges@[k].start != a.edges@[k].end ==> a.edges_of(a.edges@[k].end).contains(
                a.edges@[k].id,
            ));
            assert(a.has_node(a.edges@[k].start) && a.has_node(a.edges@[k].end));
            assert(b.edges_of(a.edges@[k].start) == a.edges_of(a.edges@[k].start));
            assert(b.edges_of(a.edges@[k].end) == a.edges_of(a.edges@[k].end));
        }
    }
}

/// Under distinct edge handles, any record position carrying `e` is the
/// edge's unique index.
pub proof fn lemma_edge_index_is(g: Graph, e: EdgeId, k: int)
    requires
        g.edges_distinct(),
        0 <= k < g.edges@.len(),
        g.edges@[k].id == e,
    ensures
        g.has_edge(e),
        g.edge_index(e) == k,
{
    assert(g.has_edge(e));
    let j = g.edge_index(e);
    assert(0 <= j < g.edges@.len() && g.edges@[j].id == e);
    if k < j {
        assert(g.edges@[k].id != g.edges@[j].id);
    } else if j < k {
        assert(g.edges@[j].id != g.edges@[k].id);
    }
}

} // verus!
