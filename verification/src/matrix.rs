//! Adjacency-matrix export for diagnostic display: nodes are given a
//! canonical row and column order by sorting their caller-supplied labels
//! lexicographically, and each cell records one forward adjacency.

use vstd::prelude::*;
use vstd::string::StrSliceExecFns;

use crate::graph::{
    lemma_edge_index_is, lemma_node_index_is, EdgeId, Graph, GraphError, NodeId,
};

verus! {

/// A square 0/1 adjacency matrix with one label per row and column and the
/// node behind each row, in row order.
#[derive(Debug)]
pub struct LabeledMatrix {
    /// Row-major cells: 1 marks a forward adjacency, 0 its absence.
    pub data: Vec<Vec<u8>>,
    /// Column labels, sorted lexicographically; equal to `v_headers`.
    pub h_headers: Vec<String>,
    /// Row labels, sorted lexicographically; equal to `h_headers`.
    pub v_headers: Vec<String>,
    /// The node each row (and column) stands for.
    pub row_nodes: Vec<NodeId>,
}

/// Lexicographic order on label texts by character code point, the order in
/// which rows and columns are arranged.
pub open spec fn lex_le(a: Seq<char>, b: Seq<char>) -> bool
    decreases a.len(),
{
    if a.len() == 0 {
        true
    } else if b.len() == 0 {
        false
    } else if (a[0] as u32) < (b[0] as u32) {
        true
    } else if (a[0] as u32) > (b[0] as u32) {
        false
    } else {
        lex_le(a.subrange(1, a.len() as int), b.subrange(1, b.len() as int))
    }
}

/// Lexicographic order is total.
proof fn lemma_lex_total(a: Seq<char>, b: Seq<char>)
    ensures
        lex_le(a, b) || lex_le(b, a),
    decreases a.len(),
{
    if a.len() > 0 && b.len() > 0 && (a[0] as u32) == (b[0] as u32) {
        lemma_lex_total(a.subrange(1, a.len() as int), b.subrange(1, b.len() as int));
    }
}

/// Some label entry names node `n` with text `h`.
pub open spec fn header_matches(labels: Seq<(NodeId, String)>, n: NodeId, h: Seq<char>) -> bool {
    exists|p: int|
        0 <= p < labels.len() && (#[trigger] labels[p]).0 == n && labels[p].1@ == h
}

/// Some position of `s` holds the index value `x`.
pub(crate) open spec fn holds_index(s: Seq<usize>, x: int) -> bool {
    exists|q: int| 0 <= q < s.len() && (#[trigger] s[q]) as int == x
}

impl Graph {
    /// What a matrix cell records: some edge runs forward from `u` to `v`
    /// under the current directed interpretation, a self-loop marking its
    /// own diagonal cell. Backward adjacency of a directed edge is excluded.
    pub open spec fn matrix_adjacent(self, u: NodeId, v: NodeId) -> bool {
        exists|k: int|
            0 <= k < self.edges@.len() && (((#[trigger] self.edges@[k]).start == u
                && self.edges@[k].end == v) || (!self.directed && self.edges@[k].end == u
                && self.edges@[k].start == v && self.edges@[k].start != self.edges@[k].end))
    }

    /// The label table is usable: every labeled node is registered, no node
    /// is labeled twice, and every registered node is labeled.
    pub open spec fn labels_valid(self, labels: Seq<(NodeId, String)>) -> bool {
        &&& (forall|p: int| 0 <= p < labels.len() ==> self.has_node((#[trigger] labels[p]).0))
        &&& (forall|p: int, q: int|
            0 <= p < q < labels.len() ==> (#[trigger] labels[p]).0 != (#[trigger] labels[q]).0)
        &&& (forall|n: NodeId|
            #[trigger] self.has_node(n) ==> exists|p: int|
                0 <= p < labels.len() && (#[trigger] labels[p]).0 == n)
    }
}

/// The produced matrix lists every registered node exactly once, in rows
/// sorted by label, and marks cell `(i, j)` exactly when row `i`'s node is
/// forward-adjacent to row `j`'s node.
pub open spec fn matrix_output_ok(
    g: Graph,
    labels: Seq<(NodeId, String)>,
    m_data: Seq<Vec<u8>>,
    headers: Seq<String>,
    rows: Seq<NodeId>,
) -> bool {
    &&& rows.len() == g.nodes@.len()
    &&& (forall|i: int, j: int| 0 <= i < j < rows.len() ==> rows[i] != rows[j])
    &&& (forall|n: NodeId| g.has_node(n) ==> exists|i: int| 0 <= i < rows.len() && rows[i] == n)
    &&& (forall|i: int| 0 <= i < rows.len() ==> g.has_node(#[trigger] rows[i]))
    &&& headers.len() == rows.len()
    &&& (forall|i: int|
        0 <= i < rows.len() ==> #[trigger] header_matches(labels, rows[i], headers[i]@))
    &&& (forall|i: int, j: int|
        0 <= i < j < headers.len() ==> lex_le((#[trigger] headers[i])@, (#[trigger] headers[j])@))
    &&& m_data.len() == rows.len()
    &&& (forall|i: int| 0 <= i < m_data.len() ==> (#[trigger] m_data[i])@.len() == rows.len())
    &&& (forall|i: int, j: int|
        #![trigger m_data[i]@[j]]
        0 <= i < m_data.len() && 0 <= j < rows.len() ==> m_data[i]@[j] == (if g.matrix_adjacent(
            rows[i],
            rows[j],
        ) {
            1u8
        } else {
            0u8
        }))
}

/// Whether label text `a` precedes label text `b` lexicographically.
fn lex_le_exec(a: &String, b: &String) -> (r: bool)
    ensures
        r == lex_le(a@, b@),
{
    let alen = a.as_str().unicode_len();
    let blen = b.as_str().unicode_len();
    let mut i: usize = 0;
    proof {
        assert(a@.subrange(0, alen as int) =~= a@);
        assert(b@.subrange(0, blen as int) =~= b@);
    }
    loop
        invariant
            i <= alen && i <= blen,
            alen == a@.len() && blen == b@.len(),
            lex_le(a@, b@) == lex_le(
                a@.subrange(i as int, alen as int),
                b@.subrange(i as int, blen as int),
            ),
        decreases alen - i,
    {
        proof {
            assert(a@.subrange(0, alen as int) =~= a@);
            assert(b@.subrange(0, blen as int) =~= b@);
        }
        if i == alen {
            proof {
                assert(a@.subrange(i as int, alen as int).len() == 0);
            }
            return true;
        }
        if i == blen {
            proof {
                assert(b@.subrange(i as int, blen as int).len() == 0);
                assert(a@.subrange(i as int, alen as int).len() > 0);
            }
            return false;
        }
        let ca = a.as_str().get_char(i);
        let cb = b.as_str().get_char(i);
        proof {
            assert(a@.subrange(i as int, alen as int)[0] == a@[i as int]);
            assert(b@.subrange(i as int, blen as int)[0] == b@[i as int]);
        }
        if (ca as u32) < (cb as u32) {
            return true;
        }
        if (ca as u32) > (cb as u32) {
            return false;
        }
        proof {
            assert(a@.subrange(i as int, alen as int).subrange(
                1,
                a@.subrange(i as int, alen as int).len() as int,
            ) =~= a@.subrange(i + 1, alen as int));
            assert(b@.subrange(i as int, blen as int).subrange(
                1,
                b@.subrange(i as int, blen as int).len() as int,
            ) =~= b@.subrange(i + 1, blen as int));
        }
        i = i + 1;
    }
}

impl Graph {
    /// Exports the labeled adjacency matrix: one row and column per node,
    /// ordered by sorting the supplied labels lexicographically (ties between
    /// equal labels fall in no guaranteed order), with cell `(i, j)` equal to
    /// 1 exactly when row `i`'s node is forward-adjacent to row `j`'s node.
    /// A self-loop marks the node's own diagonal cell; backward adjacency of
    /// a directed edge marks nothing, so a directed graph produces an
    /// asymmetric matrix.
    ///
    /// Fails unless the label table names exactly the registered nodes, each
    /// once.
    #[verifier::rlimit(100)]
    pub fn adjacency_matrix(&self, labels: &Vec<(NodeId, String)>) -> (r: Result<
        LabeledMatrix,
        GraphError,
    >)
        requires
            self.wf(),
        ensures
            match r {
                Ok(m) => {
                    &&& self.labels_valid(labels@)
                    &&& matrix_output_ok(*self, labels@, m.data@, m.h_headers@, m.row_nodes@)
                    &&& m.v_headers@.len() == m.h_headers@.len()
                    &&& (forall|i: int|
                        0 <= i < m.v_headers@.len() ==> (#[trigger] m.v_headers@[i])@
                            == m.h_headers@[i]@)
                },
                Err(e) => !self.labels_valid(labels@) && e == GraphError::PreconditionViolation,
            },
    {
        let ghost g = *self;
        if !self.check_labels(labels) {
            return Err(GraphError::PreconditionViolation);
        }
        let ln = labels.len();

        // sort the label positions by label text: selection sort
        let mut remaining: Vec<usize> = Vec::new();
        let mut i: usize = 0;
        while i < ln
            invariant
                i <= ln,
                remaining@.len() == i,
                forall|q: int| 0 <= q < i ==> (#[trigger] remaining@[q]) == q,
            decreases ln - i,
        {
            remaining.push(i);
            i = i + 1;
        }
        proof {
            assert forall|x: int|
                #![trigger holds_index(remaining@, x)]
                0 <= x < ln implies holds_index(remaining@, x) by {
                assert(remaining@[x] as int == x);
            }
        }
        let mut sorted: Vec<usize> = Vec::new();
        while remaining.len() > 0
            invariant
                ln == labels@.len(),
                sorted@.len() + remaining@.len() == ln,
                forall|q: int| 0 <= q < sorted@.len() ==> (#[trigger] sorted@[q]) < ln,
                forall|q: int| 0 <= q < remaining@.len() ==> (#[trigger] remaining@[q]) < ln,
                forall|q: int, q2: int|
                    0 <= q < q2 < sorted@.len() ==> (#[trigger] sorted@[q]) != (
                    #[trigger] sorted@[q2]),
                forall|q: int, q2: int|
                    0 <= q < q2 < remaining@.len() ==> (#[trigger] remaining@[q]) != (
                    #[trigger] remaining@[q2]),
                forall|q: int, q2: int|
                    0 <= q < sorted@.len() && 0 <= q2 < remaining@.len() ==> (
                    #[trigger] sorted@[q]) != (#[trigger] remaining@[q2]),
                forall|x: int|
                    #![trigger holds_index(sorted@, x)]
                    #![trigger holds_index(remaining@, x)]
                    0 <= x < ln ==> holds_index(sorted@, x) || holds_index(remaining@, x),
                forall|q: int, q2: int|
                    0 <= q < q2 < sorted@.len() ==> lex_le(
                        labels@[sorted@[q] as int].1@,
                        labels@[sorted@[q2] as int].1@,
                    ),
                forall|q: int, q2: int|
                    0 <= q < sorted@.len() && 0 <= q2 < remaining@.len() ==> lex_le(
                        labels@[sorted@[q] as int].1@,
                        labels@[remaining@[q2] as int].1@,
                    ),
            decreases remaining@.len(),
        {
            // find the position of the least remaining label
            let mut pm: usize = 0;
            let mut q: usize = 1;
            proof {
                lemma_lex_total(
                    labels@[remaining@[0] as int].1@,
                    labels@[remaining@[0] as int].1@,
                );
            }
            while q < remaining.len()
                invariant
                    remaining@.len() > 0,
                    pm < remaining@.len(),
                    q <= remaining@.len(),
                    forall|q2: int| 0 <= q2 < remaining@.len() ==> (#[trigger] remaining@[q2]) < ln,
                    ln == labels@.len(),
                    forall|q2: int|
                        0 <= q2 < q ==> lex_le(
                            labels@[remaining@[pm as int] as int].1@,
                            labels@[(#[trigger] remaining@[q2]) as int].1@,
                        ),
                decreases remaining@.len() - q,
            {
                if lex_le_exec(&labels[remaining[q]].1, &labels[remaining[pm]].1) {
                    let ghost old_pm = pm as int;
                    pm = q;
                    proof {
                        assert forall|q2: int|
                            0 <= q2 < q + 1 implies lex_le(
                            labels@[remaining@[pm as int] as int].1@,
                            labels@[(#[trigger] remaining@[q2]) as int].1@,
                        ) by {
                            if q2 == q as int {
                                lemma_lex_total(
                                    labels@[remaining@[q2] as int].1@,
                                    labels@[remaining@[q2] as int].1@,
                                );
                            } else {
                                lemma_lex_trans(
                                    labels@[remaining@[pm as int] as int].1@,
                                    labels@[remaining@[old_pm] as int].1@,
                                    labels@[remaining@[q2] as int].1@,
                                );
                            }
                        }
                    }
                } else {
                    proof {
                        lemma_lex_total(
                            labels@[remaining@[q as int] as int].1@,
                            labels@[remaining@[pm as int] as int].1@,
                        );
                        assert forall|q2: int|
                            0 <= q2 < q + 1 implies lex_le(
                            labels@[remaining@[pm as int] as int].1@,
                            labels@[(#[trigger] remaining@[q2]) as int].1@,
                        ) by {}
                    }
                }
                q = q + 1;
            }
            let ghost rem0 = remaining@;
            let ghost sor0 = sorted@;
            let picked = remaining.remove(pm);
            sorted.push(picked);
            proof {
                assert(sorted@[sorted@.len() - 1] == picked);
                assert forall|x: int|
                    #![trigger holds_index(sorted@, x)]
                    #![trigger holds_index(remaining@, x)]
                    0 <= x < ln implies holds_index(sorted@, x) || holds_index(
                    remaining@,
                    x,
                ) by {
                    if holds_index(sor0, x) {
                        let q2 = choose|q2: int|
                            0 <= q2 < sor0.len() && (#[trigger] sor0[q2]) as int == x;
                        assert(sorted@[q2] as int == x);
                    } else if holds_index(rem0, x) {
                        let q2 = choose|q2: int|
                            0 <= q2 < rem0.len() && (#[trigger] rem0[q2]) as int == x;
                        if q2 == pm as int {
                            assert(sorted@[sorted@.len() - 1] as int == x);
                        } else if q2 < pm as int {
                            assert(remaining@[q2] as int == x);
                        } else {
                            assert(remaining@[q2 - 1] as int == x);
                        }
                    } else {
                        assert(holds_index(sor0, x) || holds_index(rem0, x));
                    }
                }
                assert forall|q2: int, q3: int|
                    0 <= q2 < sorted@.len() && 0 <= q3 < remaining@.len() implies (
                #[trigger] sorted@[q2]) != (#[trigger] remaining@[q3]) by {
                    let o3: int = if q3 < pm as int {
                        q3
                    } else {
                        q3 + 1
                    };
                    assert(rem0[o3] == remaining@[q3]);
                }
                assert forall|q2: int, q3: int|
                    0 <= q2 < sorted@.len() && 0 <= q3 < remaining@.len() implies lex_le(
                    labels@[sorted@[q2] as int].1@,
                    labels@[remaining@[q3] as int].1@,
                ) by {
                    let o3: int = if q3 < pm as int {
                        q3
                    } else {
                        q3 + 1
                    };
                    assert(rem0[o3] == remaining@[q3]);
                    if q2 == sorted@.len() - 1 {
                        assert(lex_le(labels@[rem0[pm as int] as int].1@, labels@[rem0[o3] as int].1@));
                    }
                }
            }
        }

        // assemble rows and headers in sorted order
        let mut row_nodes: Vec<NodeId> = Vec::new();
        let mut h_headers: Vec<String> = Vec::new();
        let mut v_headers: Vec<String> = Vec::new();
        let mut i: usize = 0;
        while i < ln
            invariant
                i <= ln,
                ln == labels@.len(),
                sorted@.len() == ln,
                forall|q: int| 0 <= q < ln ==> (#[trigger] sorted@[q]) < ln,
                row_nodes@.len() == i && h_headers@.len() == i && v_headers@.len() == i,
                forall|q: int|
                    0 <= q < i ==> (#[trigger] row_nodes@[q]) == labels@[sorted@[q] as int].0,
                forall|q: int|
                    0 <= q < i ==> (#[trigger] h_headers@[q])@ == labels@[sorted@[q] as int].1@,
                forall|q: int|
                    0 <= q < i ==> (#[trigger] v_headers@[q])@ == labels@[sorted@[q] as int].1@,
            decreases ln - i,
        {
            let p = sorted[i];
            row_nodes.push(labels[p].0);
            h_headers.push(labels[p].1.clone());
            v_headers.push(labels[p].1.clone());
            i = i + 1;
        }

        proof {
            lemma_rows_are_nodes(g, labels@, sorted@, row_nodes@);
        }

        // fill the cells row by row
        let mut data: Vec<Vec<u8>> = Vec::new();
        let mut i: usize = 0;
        while i < ln
            invariant
                g == *self,
                g.wf(),
                i <= ln,
                ln == row_nodes@.len(),
                forall|q: int, q2: int|
                    0 <= q < q2 < row_nodes@.len() ==> (#[trigger] row_nodes@[q]) != (
                    #[trigger] row_nodes@[q2]),
                forall|n: NodeId|
                    g.has_node(n) ==> exists|q: int|
                        0 <= q < row_nodes@.len() && (#[trigger] row_nodes@[q]) == n,
                forall|q: int| 0 <= q < row_nodes@.len() ==> g.has_node(#[trigger] row_nodes@[q]),
                data@.len() == i,
                forall|q: int| 0 <= q < i ==> (#[trigger] data@[q])@.len() == ln,
                forall|q: int, j: int|
                    #![trigger data@[q]@[j]]
                    0 <= q < i && 0 <= j < ln ==> data@[q]@[j] == (if g.matrix_adjacent(
                        row_nodes@[q],
                        row_nodes@[j],
                    ) {
                        1u8
                    } else {
                        0u8
                    }),
            decreases ln - i,
        {
            let row = self.fill_row(row_nodes[i], &row_nodes);
            data.push(row);
            i = i + 1;
        }

        proof {
            assert forall|q: int| 0 <= q < row_nodes@.len() implies #[trigger] header_matches(
                labels@,
                row_nodes@[q],
                h_headers@[q]@,
            ) by {
                assert(labels@[sorted@[q] as int].0 == row_nodes@[q]);
                assert(labels@[sorted@[q] as int].1@ == h_headers@[q]@);
            }
            assert forall|q: int, q2: int|
                0 <= q < q2 < h_headers@.len() implies lex_le(
                (#[trigger] h_headers@[q])@,
                (#[trigger] h_headers@[q2])@,
            ) by {
                assert(lex_le(labels@[sorted@[q] as int].1@, labels@[sorted@[q2] as int].1@));
            }
        }
        Ok(LabeledMatrix { data, h_headers, v_headers, row_nodes })
    }

    /// Whether the label table names exactly the registered nodes, each once.
    fn check_labels(&self, labels: &Vec<(NodeId, String)>) -> (r: bool)
        requires
            self.wf(),
        ensures
            r == self.labels_valid(labels@),
    {
        let ln = labels.len();
        let mut p: usize = 0;
        while p < ln
            invariant
                p <= ln,
                ln == labels@.len(),
                forall|q: int| 0 <= q < p ==> self.has_node((#[trigger] labels@[q]).0),
            decreases ln - p,
        {
            if !self.contains_node(labels[p].0) {
                return false;
            }
            p = p + 1;
        }
        let mut p: usize = 0;
        while p < ln
            invariant
                p <= ln,
                ln == labels@.len(),
                forall|q: int, q2: int|
                    0 <= q < q2 < labels@.len() && q < p ==> (#[trigger] labels@[q]).0 != (
                    #[trigger] labels@[q2]).0,
            decreases ln - p,
        {
            let mut q: usize = p + 1;
            while q < ln
                invariant
                    p < q || q == p + 1,
                    p < ln,
                    q <= ln,
                    ln == labels@.len(),
                    forall|q2: int|
                        (p as int) < q2 < q ==> (#[trigger] labels@[q2]).0 != labels@[p as int].0,
                decreases ln - q,
            {
                if labels[q].0 == labels[p].0 {
                    return false;
                }
                q = q + 1;
            }
            p = p + 1;
        }
        let n = self.nodes.len();
        let mut i: usize = 0;
        while i < n
            invariant
                i <= n,
                n == self.nodes@.len(),
                ln == labels@.len(),
                forall|j: int|
                    0 <= j < i ==> exists|q: int|
                        0 <= q < labels@.len() && (#[trigger] labels@[q]).0 == (
                        #[trigger] self.nodes@[j]).id,
            decreases n - i,
        {
            let target = self.nodes[i].id;
            let mut q: usize = 0;
            let mut found = false;
            while q < ln
                invariant
                    q <= ln,
                    ln == labels@.len(),
                    found ==> exists|q2: int|
                        0 <= q2 < labels@.len() && (#[trigger] labels@[q2]).0 == target,
                    !found ==> forall|q2: int|
                        0 <= q2 < q ==> (#[trigger] labels@[q2]).0 != target,
                decreases ln - q,
            {
                if labels[q].0 == target {
                    found = true;
                }
                q = q + 1;
            }
            if !found {
                proof {
                    assert(self.has_node(target));
                }
                return false;
            }
            i = i + 1;
        }
        proof {
            assert forall|n2: NodeId| #[trigger] self.has_node(n2) implies exists|q: int|
                0 <= q < labels@.len() && (#[trigger] labels@[q]).0 == n2 by {
                let j = choose|j: int|
                    0 <= j < self.nodes@.len() && (#[trigger] self.nodes@[j]).id == n2;
                assert(exists|q: int|
                    0 <= q < labels@.len() && (#[trigger] labels@[q]).0 == self.nodes@[j].id);
            }
        }
        true
    }

    /// One matrix row: cell `j` is 1 exactly when `u` is forward-adjacent to
    /// the node of row `j`.
    #[verifier::rlimit(60)]
    fn fill_row(&self, u: NodeId, row_nodes: &Vec<NodeId>) -> (row: Vec<u8>)
        requires
            self.wf(),
            self.has_node(u),
            forall|q: int, q2: int|
                0 <= q < q2 < row_nodes@.len() ==> (#[trigger] row_nodes@[q]) != (
                #[trigger] row_nodes@[q2]),
            forall|n: NodeId|
                self.has_node(n) ==> exists|q: int|
                    0 <= q < row_nodes@.len() && (#[trigger] row_nodes@[q]) == n,
        ensures
            row@.len() == row_nodes@.len(),
            forall|j: int|
                #![trigger row@[j]]
                0 <= j < row@.len() ==> row@[j] == (if self.matrix_adjacent(u, row_nodes@[j]) {
                    1u8
                } else {
                    0u8
                }),
    {
        let ghost g = *self;
        let n = row_nodes.len();
        let mut row: Vec<u8> = Vec::new();
        let mut j: usize = 0;
        while j < n
            invariant
                j <= n,
                row@.len() == j,
                forall|q: int| 0 <= q < j ==> (#[trigger] row@[q]) == 0u8,
            decreases n - j,
        {
            row.push(0);
            j = j + 1;
        }
        let iu = match self.find_node(u) {
            Some(x) => x,
            None => {
                proof {
                    assert(false);
                }
                0
            },
        };
        proof {
            lemma_node_index_is(g, u, iu as int);
        }
        let edge_count = self.nodes[iu].edges.len();
        let mut p: usize = 0;
        while p < edge_count
            invariant
                g == *self,
                g.wf(),
                iu < g.nodes@.len(),
                g.nodes@[iu as int].id == u,
                g.node_index(u) == iu as int,
                edge_count == g.edges_of(u).len(),
                p <= edge_count,
                n == row_nodes@.len(),
                row@.len() == n,
                forall|q: int, q2: int|
                    0 <= q < q2 < row_nodes@.len() ==> (#[trigger] row_nodes@[q]) != (
                    #[trigger] row_nodes@[q2]),
                forall|n2: NodeId|
                    g.has_node(n2) ==> exists|q: int|
                        0 <= q < row_nodes@.len() && (#[trigger] row_nodes@[q]) == n2,
                forall|j2: int|
                    #![trigger row@[j2]]
                    0 <= j2 < n ==> (row@[j2] == 0u8 || row@[j2] == 1u8),
                forall|j2: int|
                    #![trigger row@[j2]]
                    0 <= j2 < n && row@[j2] == 1u8 ==> g.matrix_adjacent(u, row_nodes@[j2]),
                forall|p2: int, v: NodeId|
                    0 <= p2 < p && #[trigger] row_adj_via(g, g.edges_of(u)[p2], u, v) ==> (
                    exists|j2: int|
                        0 <= j2 < n && (#[trigger] row_nodes@[j2]) == v && row@[j2] == 1u8),
            decreases edge_count - p,
        {
            let e = self.nodes[iu].edges[p];
            proof {
                assert(g.edges_of(u)[p as int] == e);
                assert(g.has_edge(g.nodes@[iu as int].edges@[p as int]) && g.touches(
                    g.nodes@[iu as int].edges@[p as int],
                    g.nodes@[iu as int].id,
                ));
            }
            let k = match self.find_edge(e) {
                Some(x) => x,
                None => {
                    proof {
                        assert(false);
                    }
                    0
                },
            };
            proof {
                lemma_edge_index_is(g, e, k as int);
            }
            let s = self.edges[k].start;
            let t = self.edges[k].end;
            let mut vopt: Option<NodeId> = None;
            if u == s {
                vopt = Some(t);
            } else if u == t && s != t && !self.directed {
                vopt = Some(s);
            }
            if let Some(v) = vopt {
                proof {
                    assert(row_adj_via(g, e, u, v));
                    assert forall|w: NodeId| #[trigger] row_adj_via(g, e, u, w) implies w == v by {}
                    assert(g.has_node(v)) by {
                        assert(g.has_node(g.edges@[k as int].start) && g.has_node(
                            g.edges@[k as int].end,
                        ));
                    }
                    assert(g.matrix_adjacent(u, v)) by {
                        assert(0 <= (k as int) && (k as int) < g.edges@.len());
                    }
                }
                let mut j: usize = 0;
                let mut done = false;
                while j < n
                    invariant
                        n == row_nodes@.len(),
                        row@.len() == n,
                        j <= n,
                        g.matrix_adjacent(u, v),
                        forall|q: int, q2: int|
                            0 <= q < q2 < row_nodes@.len() ==> (#[trigger] row_nodes@[q]) != (
                            #[trigger] row_nodes@[q2]),
                        forall|j2: int|
                            #![trigger row@[j2]]
                            0 <= j2 < n ==> (row@[j2] == 0u8 || row@[j2] == 1u8),
                        forall|j2: int|
                            #![trigger row@[j2]]
                            0 <= j2 < n && row@[j2] == 1u8 ==> g.matrix_adjacent(
                                u,
                                row_nodes@[j2],
                            ),
                        forall|p2: int, v2: NodeId|
                            0 <= p2 < p && #[trigger] row_adj_via(g, g.edges_of(u)[p2], u, v2)
                                ==> (exists|j2: int|
                                0 <= j2 < n && (#[trigger] row_nodes@[j2]) == v2 && row@[j2]
                                    == 1u8),
                        done ==> exists|j2: int|
                            0 <= j2 < n && (#[trigger] row_nodes@[j2]) == v && row@[j2] == 1u8,
                        !done ==> forall|j2: int|
                            0 <= j2 < j ==> (#[trigger] row_nodes@[j2]) != v,
                    decreases n - j,
                {
                    if row_nodes[j] == v {
                        let ghost row0 = row@;
                        row.set(j, 1);
                        done = true;
                        proof {
                            assert(row@[j as int] == 1u8 && row_nodes@[j as int] == v);
                            assert forall|p2: int, v2: NodeId|
                                0 <= p2 < p && #[trigger] row_adj_via(
                                    g,
                                    g.edges_of(u)[p2],
                                    u,
                                    v2,
                                ) implies (exists|j2: int|
                                0 <= j2 < n && (#[trigger] row_nodes@[j2]) == v2 && row@[j2]
                                    == 1u8) by {
                                let j2 = choose|j2: int|
                                    0 <= j2 < n && (#[trigger] row_nodes@[j2]) == v2 && row0[j2]
                                        == 1u8;
                                if j2 != j as int {
                                    assert(row@[j2] == 1u8);
                                }
                            }
                        }
                    }
                    j = j + 1;
                }
                proof {
                    assert(done) by {
                        if !done {
                            let j2 = choose|j2: int|
                                0 <= j2 < row_nodes@.len() && (#[trigger] row_nodes@[j2]) == v;
                        }
                    }
                }
            } else {
                proof {
                    assert forall|w: NodeId| !row_adj_via(g, e, u, w) by {}
                }
            }
            proof {
                assert forall|p2: int, v2: NodeId|
                    0 <= p2 < p + 1 && #[trigger] row_adj_via(g, g.edges_of(u)[p2], u, v2) implies (
                exists|j2: int|
                    0 <= j2 < n && (#[trigger] row_nodes@[j2]) == v2 && row@[j2] == 1u8) by {}
            }
            p = p + 1;
        }
        proof {
            assert forall|j2: int|
                #![trigger row@[j2]]
                0 <= j2 < row@.len() implies row@[j2] == (if g.matrix_adjacent(
                u,
                row_nodes@[j2],
            ) {
                1u8
            } else {
                0u8
            }) by {
                if g.matrix_adjacent(u, row_nodes@[j2]) {
                    let v = row_nodes@[j2];
                    let k = choose|k: int|
                        0 <= k < g.edges@.len() && (((#[trigger] g.edges@[k]).start == u
                            && g.edges@[k].end == v) || (!g.directed && g.edges@[k].end == u
                            && g.edges@[k].start == v && g.edges@[k].start != g.edges@[k].end));
                    let e = g.edges@[k].id;
                    lemma_edge_index_is(g, e, k);
                    assert(row_adj_via(g, e, u, v));
                    assert(g.edges_of(g.edges@[k].start).contains(g.edges@[k].id));
                    assert(g.edges@[k].start != g.edges@[k].end ==> g.edges_of(
                        g.edges@[k].end,
                    ).contains(g.edges@[k].id));
                    assert(g.edges_of(u).contains(e));
                    let p2 = choose|p2: int|
                        0 <= p2 < g.edges_of(u).len() && g.edges_of(u)[p2] == e;
                    assert(row_adj_via(g, g.edges_of(u)[p2], u, v));
                    let j3 = choose|j3: int|
                        0 <= j3 < n && (#[trigger] row_nodes@[j3]) == v && row@[j3] == 1u8;
                    assert(j3 == j2);
                }
            }
        }
        row
    }
}

/// Edge `e` makes `u` forward-adjacent to `v`: it runs from `u` to `v`, or
/// backward to `u` in an undirected graph, a self-loop marking `u` itself.
pub(crate) open spec fn row_adj_via(g: Graph, e: EdgeId, u: NodeId, v: NodeId) -> bool {
    &&& g.has_edge(e)
    &&& ((g.start_of(e) == u && g.end_of(e) == v) || (!g.directed && g.end_of(e) == u
        && g.start_of(e) == v && g.start_of(e) != g.end_of(e)))
}

/// Lexicographic order is transitive.
proof fn lemma_lex_trans(a: Seq<char>, b: Seq<char>, c: Seq<char>)
    requires
        lex_le(a, b),
        lex_le(b, c),
    ensures
        lex_le(a, c),
    decreases a.len() + b.len() + c.len(),
{
    if a.len() > 0 && b.len() > 0 && c.len() > 0 {
        if (a[0] as u32) == (b[0] as u32) && (b[0] as u32) == (c[0] as u32) {
            lemma_lex_trans(
                a.subrange(1, a.len() as int),
                b.subrange(1, b.len() as int),
                c.subrange(1, c.len() as int),
            );
        }
    }
}

/// In a sorted selection over a valid label table, the chosen rows list
/// exactly the registered nodes, each once.
proof fn lemma_rows_are_nodes(
    g: Graph,
    labels: Seq<(NodeId, String)>,
    sorted: Seq<usize>,
    rows: Seq<NodeId>,
)
    requires
        g.wf(),
        g.labels_valid(labels),
        sorted.len() == labels.len(),
        forall|q: int| 0 <= q < sorted.len() ==> (#[trigger] sorted[q]) < labels.len(),
        forall|q: int, q2: int|
            0 <= q < q2 < sorted.len() ==> (#[trigger] sorted[q]) != (#[trigger] sorted[q2]),
        forall|x: int|
            #![trigger holds_index(sorted, x)]
            0 <= x < labels.len() ==> holds_index(sorted, x),
        rows.len() == sorted.len(),
        forall|q: int| 0 <= q < rows.len() ==> (#[trigger] rows[q]) == labels[sorted[q] as int].0,
    ensures
        rows.len() == g.nodes@.len(),
        forall|i: int, j: int| 0 <= i < j < rows.len() ==> rows[i] != rows[j],
        forall|n: NodeId| g.has_node(n) ==> exists|i: int| 0 <= i < rows.len() && rows[i] == n,
        forall|i: int| 0 <= i < rows.len() ==> g.has_node(#[trigger] rows[i]),
{
    assert forall|i: int, j: int| 0 <= i < j < rows.len() implies rows[i] != rows[j] by {
        assert(labels[sorted[i] as int].0 == rows[i]);
        assert(labels[sorted[j] as int].0 == rows[j]);
        assert(sorted[i] != sorted[j]);
        if (sorted[i] as int) < (sorted[j] as int) {
            assert(labels[sorted[i] as int].0 != labels[sorted[j] as int].0);
        } else {
            assert(labels[sorted[j] as int].0 != labels[sorted[i] as int].0);
        }
    }
    assert forall|n: NodeId| g.has_node(n) implies exists|i: int|
        0 <= i < rows.len() && rows[i] == n by {
        let p = choose|p: int| 0 <= p < labels.len() && (#[trigger] labels[p]).0 == n;
        assert(holds_index(sorted, p));
        let q = choose|q: int| 0 <= q < sorted.len() && (#[trigger] sorted[q]) as int == p;
        assert(rows[q] == n);
    }
    assert forall|i: int| 0 <= i < rows.len() implies g.has_node(#[trigger] rows[i]) by {
        assert(g.has_node(labels[sorted[i] as int].0));
    }
    // as many rows as nodes: the rows are distinct registered nodes covering
    // every registered node, and the node handles are distinct too
    let ids = Seq::new(g.nodes@.len(), |i: int| g.nodes@[i].id);
    assert forall|i: int, j: int| 0 <= i < j < ids.len() implies ids[i] != ids[j] by {
        assert(g.nodes@[i].id != g.nodes@[j].id);
    }
    assert forall|i: int| 0 <= i < rows.len() implies #[trigger] seq_has(ids, rows[i]) by {
        assert(g.has_node(rows[i]));
        let j = choose|j: int| 0 <= j < g.nodes@.len() && (#[trigger] g.nodes@[j]).id == rows[i];
        assert(ids[j] == rows[i]);
    }
    assert forall|i: int| 0 <= i < ids.len() implies #[trigger] seq_has(rows, ids[i]) by {
        assert(g.nodes@[i].id == ids[i]);
        assert(g.has_node(ids[i]));
        let j = choose|j: int| 0 <= j < rows.len() && rows[j] == ids[i];
        assert(rows[j] == ids[i]);
    }
    lemma_distinct_cover_same_len(rows, ids);
}

/// Some position of `s` holds the node handle `x`.
pub(crate) open spec fn seq_has(s: Seq<NodeId>, x: NodeId) -> bool {
    exists|j: int| 0 <= j < s.len() && (#[trigger] s[j]) == x
}

/// Two distinct sequences that each cover the other's values have the same
/// length.
proof fn lemma_distinct_cover_same_len(a: Seq<NodeId>, b: Seq<NodeId>)
    requires
        forall|i: int, j: int| 0 <= i < j < a.len() ==> a[i] != a[j],
        forall|i: int, j: int| 0 <= i < j < b.len() ==> b[i] != b[j],
        forall|i: int| 0 <= i < a.len() ==> #[trigger] seq_has(b, a[i]),
        forall|i: int| 0 <= i < b.len() ==> #[trigger] seq_has(a, b[i]),
    ensures
        a.len() == b.len(),
{
    lemma_distinct_covered_le(a, b);
    lemma_distinct_covered_le(b, a);
}

/// A sequence of distinct values each found in another sequence is no longer
/// than it.
proof fn lemma_distinct_covered_le(a: Seq<NodeId>, b: Seq<NodeId>)
    requires
        forall|i: int, j: int| 0 <= i < j < a.len() ==> a[i] != a[j],
        forall|i: int| 0 <= i < a.len() ==> #[trigger] seq_has(b, a[i]),
    ensures
        a.len() <= b.len(),
    decreases a.len(),
{
    if a.len() > 0 {
        let x = a[a.len() - 1];
        assert(seq_has(b, x));
        let jx = choose|j: int| 0 <= j < b.len() && (#[trigger] b[j]) == x;
        let a2 = a.drop_last();
        let b2 = b.remove(jx);
        assert forall|i: int| 0 <= i < a2.len() implies #[trigger] seq_has(b2, a2[i]) by {
            assert(a2[i] == a[i]);
            assert(a[i] != x);
            assert(seq_has(b, a[i]));
            let j0 = choose|j: int| 0 <= j < b.len() && (#[trigger] b[j]) == a[i];
            assert(j0 != jx);
            if j0 < jx {
                assert(b2[j0] == a[i]);
            } else {
                assert(b2[j0 - 1] == a[i]);
            }
        }
        lemma_distinct_covered_le(a2, b2);
    }
}

} // verus!
