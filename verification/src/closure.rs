//! Transitive closure: reachability and mutual connectivity.
//!
//! For the closure an edge from `i` to `j` is any non-zero entry.  The
//! closure is computed with boolean matrix products, so it is defined for
//! every square matrix, whatever the size of its entries.

use crate::algebra::same_shape;
use crate::matrix::{entrywise_and, square, transposed, AdjMatrix};
use core::ops::{BitAnd, BitOr};
use vstd::prelude::*;

verus! {

/// There is a walk of exactly `len` edges from `i` to `j`.
pub open spec fn walk(m: Seq<Seq<int>>, i: int, j: int, len: nat) -> bool
    decreases len,
{
    if len == 0 {
        i == j
    } else {
        exists|k: int|
            0 <= k < m.len() && walk(m, i, k, (len - 1) as nat) && #[trigger] m[k][j] != 0
    }
}

/// There is a walk of at most `hops` edges from `i` to `j`.  The walk
/// without edges leads from every vertex to itself.
pub open spec fn reachable_within(m: Seq<Seq<int>>, i: int, j: int, hops: nat) -> bool {
    exists|len: nat| len <= hops && #[trigger] walk(m, i, j, len)
}

/// Entry `(i, j)` is one if `j` can be reached from `i` over at most
/// `n - 1` edges, `n` being the number of vertices, and zero otherwise.
pub open spec fn reachability_matrix(m: Seq<Seq<int>>) -> Seq<Seq<int>> {
    Seq::new(
        m.len(),
        |i: int|
            Seq::new(
                m.len(),
                |j: int|
                    if reachable_within(m, i, j, (m.len() - 1) as nat) {
                        1int
                    } else {
                        0int
                    },
            ),
    )
}

/// Entry `(i, j)` is one if `i` and `j` reach each other, and zero otherwise.
pub open spec fn connectivity_matrix(m: Seq<Seq<int>>) -> Seq<Seq<int>> {
    entrywise_and(reachability_matrix(m), transposed(reachability_matrix(m)))
}

/// The boolean matrix product: entry `(i, j)` is one if some `k` has
/// non-zero entries at `(i, k)` in `a` and at `(k, j)` in `b`.
pub open spec fn bool_product(a: Seq<Seq<int>>, b: Seq<Seq<int>>) -> Seq<Seq<int>> {
    Seq::new(
        a.len(),
        |i: int|
            Seq::new(
                a.len(),
                |j: int|
                    if exists|k: int| 0 <= k < a.len() && #[trigger] a[i][k] != 0 && b[k][j] != 0 {
                        1int
                    } else {
                        0int
                    },
            ),
    )
}

/// The boolean product of two square matrices of one size.
fn bool_mul(a: &AdjMatrix, b: &AdjMatrix) -> (ret: AdjMatrix)
    requires
        same_shape(a, b),
    ensures
        ret.wf(),
        ret.size() == a.size(),
        ret@ == bool_product(a@, b@),
{
    let n = a.0.len();
    let mut rows: Vec<Vec<u32>> = Vec::new();
    let mut i: usize = 0;
    while i < n
        invariant
            same_shape(a, b),
            n == a.size(),
            i <= n,
            rows@.len() == i,
            forall|r: int| 0 <= r < i ==> (#[trigger] rows@[r])@.len() == n,
            forall|r: int, c: int|
                0 <= r < i && 0 <= c < n ==> (#[trigger] rows@[r]@[c]) as int == bool_product(
                    a@,
                    b@,
                )[r][c],
        decreases n - i,
    {
        let mut row: Vec<u32> = Vec::new();
        let mut j: usize = 0;
        while j < n
            invariant
                same_shape(a, b),
                n == a.size(),
                i < n,
                j <= n,
                row@.len() == j,
                forall|c: int|
                    0 <= c < j ==> (#[trigger] row@[c]) as int == bool_product(a@, b@)[i as int][c],
            decreases n - j,
        {
            let mut found = false;
            let mut k: usize = 0;
            while k < n && !found
                invariant
                    same_shape(a, b),
                    n == a.size(),
                    i < n,
                    j < n,
                    k <= n,
                    found ==> exists|t: int|
                        0 <= t < n && #[trigger] a@[i as int][t] != 0 && b@[t][j as int] != 0,
                    !found ==> forall|t: int|
                        0 <= t < k ==> !(#[trigger] a@[i as int][t] != 0 && b@[t][j as int] != 0),
                decreases n - k + if found { 0int } else { 1int },
            {
                if a.entry(i, k) != 0 && b.entry(k, j) != 0 {
                    found = true;
                } else {
                    k += 1;
                }
            }
            row.push(if found { 1 } else { 0 });
            j += 1;
        }
        rows.push(row);
        i += 1;
    }
    let ret = AdjMatrix(rows);
    assert(ret@ =~~= bool_product(a@, b@));
    ret
}

/// A walk of one edge is an edge.
proof fn lemma_walk_one(m: Seq<Seq<int>>, i: int, j: int)
    requires
        square(m),
        0 <= i < m.len(),
        0 <= j < m.len(),
    ensures
        walk(m, i, j, 1) == (m[i][j] != 0),
{
    reveal_with_fuel(walk, 2);
}

/// Allowing one more edge adds exactly the walks of that length.
proof fn lemma_reachable_step(m: Seq<Seq<int>>, i: int, j: int, hops: nat)
    ensures
        reachable_within(m, i, j, hops + 1) == (reachable_within(m, i, j, hops) || walk(
            m,
            i,
            j,
            hops + 1,
        )),
{
    if reachable_within(m, i, j, hops + 1) {
        let len = choose|len: nat| len <= hops + 1 && #[trigger] walk(m, i, j, len);
        if len <= hops {
            assert(reachable_within(m, i, j, hops));
        }
    }
    if reachable_within(m, i, j, hops) {
        let len = choose|len: nat| len <= hops && #[trigger] walk(m, i, j, len);
        assert(len <= hops + 1 && walk(m, i, j, len));
    }
    if walk(m, i, j, hops + 1) {
        assert(reachable_within(m, i, j, hops + 1));
    }
}

/// Without edges only the vertex itself is reached.
proof fn lemma_reachable_zero(m: Seq<Seq<int>>, i: int, j: int)
    ensures
        reachable_within(m, i, j, 0) == (i == j),
{
    if i == j {
        assert(walk(m, i, j, 0));
    }
}

impl AdjMatrix {
    /// The reachability matrix: the reflexive closure over walks of at most
    /// `n - 1` edges.
    pub fn reachability(&self) -> (ret: AdjMatrix)
        requires
            self.wf(),
        ensures
            ret.wf(),
            ret.size() == self.size(),
            ret@ == reachability_matrix(self@),
    {
        let n = self.0.len();
        let mut result = AdjMatrix::identity(n);
        let mut power = self.clone();
        let mut t: usize = 1;
        assert(result.size() == result@.len());
        assert(power.size() == power@.len());
        proof {
            assert forall|i: int, j: int| 0 <= i < n && 0 <= j < n implies (#[trigger] power@[i][j]
                != 0) == walk(self@, i, j, 1) by {
                lemma_walk_one(self@, i, j);
            }
            assert forall|i: int, j: int| 0 <= i < n && 0 <= j < n implies #[trigger] result@[i][j]
                == (if reachable_within(self@, i, j, 0) {
                1int
            } else {
                0int
            }) by {
                lemma_reachable_zero(self@, i, j);
            }
        }
        while t < n
            invariant
                self.wf(),
                n == self.size(),
                n == self@.len(),
                1 <= t,
                t <= n || n == 0,
                result.wf(),
                result.size() == n,
                power.wf(),
                power.size() == n,
                forall|i: int, j: int|
                    0 <= i < n && 0 <= j < n ==> #[trigger] result@[i][j] == (if reachable_within(
                        self@,
                        i,
                        j,
                        (t - 1) as nat,
                    ) {
                        1int
                    } else {
                        0int
                    }),
                t < n ==> forall|i: int, j: int|
                    0 <= i < n && 0 <= j < n ==> (#[trigger] power@[i][j] != 0) == walk(
                        self@,
                        i,
                        j,
                        t as nat,
                    ),
            decreases n - t,
        {
            let merged = (&result).bitor(&power);
            assert(merged.size() == merged@.len());
            proof {
                assert forall|i: int, j: int| 0 <= i < n && 0 <= j < n implies #[trigger] merged@[i][j]
                    == (if reachable_within(self@, i, j, t as nat) {
                    1int
                } else {
                    0int
                }) by {
                    lemma_reachable_step(self@, i, j, (t - 1) as nat);
                    assert(result@[i][j] != 0 == reachable_within(self@, i, j, (t - 1) as nat));
                    assert(power@[i][j] != 0 == walk(self@, i, j, t as nat));
                }
            }
            result = merged;
            if t + 1 < n {
                let next = bool_mul(&power, self);
                proof {
                    assert forall|i: int, j: int| 0 <= i < n && 0 <= j < n implies (
                    #[trigger] next@[i][j] != 0) == walk(self@, i, j, (t + 1) as nat) by {
                        if walk(self@, i, j, (t + 1) as nat) {
                            let k = choose|k: int|
                                0 <= k < n && walk(self@, i, k, t as nat) && #[trigger] self@[k][j]
                                    != 0;
                            assert(power@[i][k] != 0 && self@[k][j] != 0);
                        }
                        if next@[i][j] != 0 {
                            let k = choose|k: int|
                                0 <= k < n && #[trigger] power@[i][k] != 0 && self@[k][j] != 0;
                            assert(walk(self@, i, k, t as nat) && self@[k][j] != 0);
                        }
                    }
                }
                power = next;
            }
            t += 1;
        }
        assert(result@ =~~= reachability_matrix(self@));
        result
    }

    /// The connectivity matrix: entry `(i, j)` is one if `i` and `j` reach
    /// each other.
    pub fn connectivity(&self) -> (ret: AdjMatrix)
        requires
            self.wf(),
        ensures
            ret.wf(),
            ret.size() == self.size(),
            ret@ == connectivity_matrix(self@),
    {
        let reach = self.reachability();
        let back = reach.transpose();
        assert(back.size() == back@.len());
        let ret = (&reach).bitand(&back);
        assert(ret.size() == ret@.len());
        ret
    }
}

/// Every vertex reaches itself: the diagonal of the reachability matrix
/// holds ones only.
pub proof fn lemma_reachability_reflexive(m: Seq<Seq<int>>, i: int)
    requires
        0 <= i < m.len(),
    ensures
        reachability_matrix(m)[i][i] == 1,
{
    assert(walk(m, i, i, 0));
}

/// Mutual connectivity is symmetric.
pub proof fn lemma_connectivity_symmetric(m: Seq<Seq<int>>, i: int, j: int)
    requires
        0 <= i < m.len(),
        0 <= j < m.len(),
    ensures
        connectivity_matrix(m)[i][j] == connectivity_matrix(m)[j][i],
{
}

} // verus!
