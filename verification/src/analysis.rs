//! Degree and regularity queries on an adjacency matrix.
//!
//! An edge from `i` to `j` is an entry equal to one.  A self-loop counts
//! once as an outgoing and once as an incoming edge.

use crate::matrix::AdjMatrix;
use vstd::prelude::*;

verus! {

/// How many of the first `k` items of `s` equal one.
pub open spec fn ones_in(s: Seq<int>, k: nat) -> nat
    decreases k,
{
    if k == 0 {
        0
    } else {
        ones_in(s, (k - 1) as nat) + if s[k - 1] == 1 { 1nat } else { 0nat }
    }
}

/// Column `j` of a matrix, top to bottom.
pub open spec fn column(m: Seq<Seq<int>>, j: int) -> Seq<int> {
    Seq::new(m.len(), |i: int| m[i][j])
}

/// Number of edges that leave `v`.
pub open spec fn out_degree(m: Seq<Seq<int>>, v: int) -> nat {
    ones_in(m[v], m.len())
}

/// Number of edges that enter `v`.
pub open spec fn in_degree(m: Seq<Seq<int>>, v: int) -> nat {
    ones_in(column(m, v), m.len())
}

/// Number of edge ends at `v`.
pub open spec fn degree_of(m: Seq<Seq<int>>, v: int) -> nat {
    out_degree(m, v) + in_degree(m, v)
}

/// All vertices share one degree.
pub open spec fn regular(m: Seq<Seq<int>>) -> bool {
    forall|u: int, v: int|
        0 <= u < m.len() && 0 <= v < m.len() ==> #[trigger] degree_of(m, u) == #[trigger] degree_of(
            m,
            v,
        )
}

/// Among `k` items at most `k` equal one.
proof fn lemma_ones_in_bound(s: Seq<int>, k: nat)
    ensures
        ones_in(s, k) <= k,
    decreases k,
{
    if k > 0 {
        lemma_ones_in_bound(s, (k - 1) as nat);
    }
}

impl AdjMatrix {
    /// Number of edges that leave `vertex`: the ones in its row.
    pub fn degree_out(&self, vertex: usize) -> (ret: usize)
        requires
            self.wf(),
            vertex < self.size(),
        ensures
            ret == out_degree(self@, vertex as int),
    {
        let n = self.0.len();
        let mut count: usize = 0;
        let mut j: usize = 0;
        while j < n
            invariant
                self.wf(),
                n == self.size(),
                vertex < n,
                j <= n,
                count <= j,
                count == ones_in(self@[vertex as int], j as nat),
            decreases n - j,
        {
            if self.entry(vertex, j) == 1 {
                count += 1;
            }
            j += 1;
        }
        count
    }

    /// Number of edges that enter `vertex`: the ones in its column.
    pub fn degree_in(&self, vertex: usize) -> (ret: usize)
        requires
            self.wf(),
            vertex < self.size(),
        ensures
            ret == in_degree(self@, vertex as int),
    {
        let n = self.0.len();
        let mut count: usize = 0;
        let mut i: usize = 0;
        while i < n
            invariant
                self.wf(),
                n == self.size(),
                vertex < n,
                i <= n,
                count <= i,
                count == ones_in(column(self@, vertex as int), i as nat),
            decreases n - i,
        {
            if self.entry(i, vertex) == 1 {
                count += 1;
            }
            i += 1;
        }
        count
    }

    /// Degree of `vertex`: outgoing plus incoming edges.
    pub fn degree(&self, vertex: usize) -> (ret: usize)
        requires
            self.wf(),
            vertex < self.size(),
            2 * self.size() <= usize::MAX,
        ensures
            ret == degree_of(self@, vertex as int),
    {
        proof {
            lemma_ones_in_bound(self@[vertex as int], self.size());
            lemma_ones_in_bound(column(self@, vertex as int), self.size());
        }
        self.degree_out(vertex) + self.degree_in(vertex)
    }

    /// Whether all vertices share one degree; true of the empty graph.
    pub fn is_graph_regular(&self) -> (ret: bool)
        requires
            self.wf(),
            2 * self.size() <= usize::MAX,
        ensures
            ret == regular(self@),
    {
        let n = self.0.len();
        if n == 0 {
            return true;
        }
        let first = self.degree(0);
        let mut v: usize = 1;
        while v < n
            invariant
                self.wf(),
                n == self.size(),
                2 * n <= usize::MAX,
                1 <= v <= n,
                first == degree_of(self@, 0),
                forall|u: int| 0 <= u < v ==> #[trigger] degree_of(self@, u) == first,
            decreases n - v,
        {
            if self.degree(v) != first {
                assert(degree_of(self@, v as int) != degree_of(self@, 0));
                return false;
            }
            v += 1;
        }
        true
    }

    /// Whether no edge starts or ends at `vertex`.
    pub fn is_isolated(&self, vertex: usize) -> (ret: bool)
        requires
            self.wf(),
            vertex < self.size(),
            2 * self.size() <= usize::MAX,
        ensures
            ret == (degree_of(self@, vertex as int) == 0),
    {
        self.degree(vertex) == 0
    }

    /// Whether exactly one edge end lies at `vertex`.
    pub fn is_pendant(&self, vertex: usize) -> (ret: bool)
        requires
            self.wf(),
            vertex < self.size(),
            2 * self.size() <= usize::MAX,
        ensures
            ret == (degree_of(self@, vertex as int) == 1),
    {
        self.degree(vertex) == 1
    }
}

} // verus!
