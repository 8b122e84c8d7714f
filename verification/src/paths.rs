//! Enumeration of the walks of two and of three edges.
//!
//! A walk is listed by its vertices.  Walks are ordered by their first
//! vertex, then by their last vertex, then by their intermediate vertices in
//! increasing order.  An edge is an entry equal to one.
//!
//! The powers of the matrix count the walks between every two vertices.
//! The enumeration for a pair of vertices stops as soon as it has listed as
//! many walks as the power counts, which loses no walk.

use crate::matrix::{dot, lemma_dot_grows, non_negative, product, product_fits, square, AdjMatrix};
use core::ops::Mul;
use vstd::prelude::*;

verus! {

/// The walks `i -> t -> j` with `t` below `k`, by increasing `t`.
pub open spec fn walks2_between(m: Seq<Seq<int>>, i: int, j: int, k: nat) -> Seq<(int, int, int)>
    decreases k,
{
    if k == 0 {
        Seq::empty()
    } else if m[i][k - 1] == 1 && m[k - 1][j] == 1 {
        walks2_between(m, i, j, (k - 1) as nat).push((i, k - 1, j))
    } else {
        walks2_between(m, i, j, (k - 1) as nat)
    }
}

/// The walks of two edges from `i` to a vertex below `j`.
pub open spec fn walks2_from(m: Seq<Seq<int>>, i: int, j: nat) -> Seq<(int, int, int)>
    decreases j,
{
    if j == 0 {
        Seq::empty()
    } else {
        walks2_from(m, i, (j - 1) as nat) + walks2_between(m, i, j - 1, m.len())
    }
}

/// The walks of two edges that start at a vertex below `i`.
pub open spec fn walks2_upto(m: Seq<Seq<int>>, i: nat) -> Seq<(int, int, int)>
    decreases i,
{
    if i == 0 {
        Seq::empty()
    } else {
        walks2_upto(m, (i - 1) as nat) + walks2_from(m, i - 1, m.len())
    }
}

/// All walks of two edges.
pub open spec fn paths_of_2(m: Seq<Seq<int>>) -> Seq<(int, int, int)> {
    walks2_upto(m, m.len())
}

/// The walks `i -> k -> t -> j` with `t` below `l`, by increasing `t`.
pub open spec fn walks3_via(m: Seq<Seq<int>>, i: int, j: int, k: int, l: nat) -> Seq<
    (int, int, int, int),
>
    decreases l,
{
    if l == 0 {
        Seq::empty()
    } else if m[i][k] == 1 && m[k][l - 1] == 1 && m[l - 1][j] == 1 {
        walks3_via(m, i, j, k, (l - 1) as nat).push((i, k, l - 1, j))
    } else {
        walks3_via(m, i, j, k, (l - 1) as nat)
    }
}

/// The walks of three edges from `i` to `j` whose second vertex is below `k`.
pub open spec fn walks3_between(m: Seq<Seq<int>>, i: int, j: int, k: nat) -> Seq<
    (int, int, int, int),
>
    decreases k,
{
    if k == 0 {
        Seq::empty()
    } else {
        walks3_between(m, i, j, (k - 1) as nat) + walks3_via(m, i, j, k - 1, m.len())
    }
}

/// The walks of three edges from `i` to a vertex below `j`.
pub open spec fn walks3_from(m: Seq<Seq<int>>, i: int, j: nat) -> Seq<(int, int, int, int)>
    decreases j,
{
    if j == 0 {
        Seq::empty()
    } else {
        walks3_from(m, i, (j - 1) as nat) + walks3_between(m, i, j - 1, m.len())
    }
}

/// The walks of three edges that start at a vertex below `i`.
pub open spec fn walks3_upto(m: Seq<Seq<int>>, i: nat) -> Seq<(int, int, int, int)>
    decreases i,
{
    if i == 0 {
        Seq::empty()
    } else {
        walks3_upto(m, (i - 1) as nat) + walks3_from(m, i - 1, m.len())
    }
}

/// All walks of three edges.
pub open spec fn paths_of_3(m: Seq<Seq<int>>) -> Seq<(int, int, int, int)> {
    walks3_upto(m, m.len())
}

/// A list of vertex triples as mathematical tuples.
pub open spec fn as_triples(v: Seq<[usize; 3]>) -> Seq<(int, int, int)> {
    Seq::new(v.len(), |t: int| (v[t][0] as int, v[t][1] as int, v[t][2] as int))
}

/// A list of vertex quadruples as mathematical tuples.
pub open spec fn as_quadruples(v: Seq<[usize; 4]>) -> Seq<(int, int, int, int)> {
    Seq::new(v.len(), |t: int| (v[t][0] as int, v[t][1] as int, v[t][2] as int, v[t][3] as int))
}

/// There are at most as many walks of two edges through the first `k`
/// vertices as the partial dot product counts.
proof fn lemma_walks2_counted(m: Seq<Seq<int>>, i: int, j: int, k: nat)
    requires
        square(m),
        non_negative(m),
        0 <= i < m.len(),
        0 <= j < m.len(),
        k <= m.len(),
    ensures
        walks2_between(m, i, j, k).len() <= dot(m, m, i, j, k),
    decreases k,
{
    if k > 0 {
        lemma_walks2_counted(m, i, j, (k - 1) as nat);
        assert(m[i][k - 1] >= 0 && m[k - 1][j] >= 0);
        assert(m[i][k - 1] * m[k - 1][j] >= (if m[i][k - 1] == 1 && m[k - 1][j] == 1 {
            1int
        } else {
            0int
        })) by (nonlinear_arith)
            requires
                m[i][k - 1] >= 0,
                m[k - 1][j] >= 0,
        ;
    }
}

/// Once as many walks of two edges are listed as the square of the matrix
/// counts, the vertices that were not looked at add none.
proof fn lemma_walks2_complete(m: Seq<Seq<int>>, i: int, j: int, k: nat, upto: nat)
    requires
        square(m),
        non_negative(m),
        0 <= i < m.len(),
        0 <= j < m.len(),
        k <= upto <= m.len(),
        walks2_between(m, i, j, k).len() == dot(m, m, i, j, m.len()),
    ensures
        walks2_between(m, i, j, upto) == walks2_between(m, i, j, k),
    decreases upto,
{
    if upto > k {
        lemma_walks2_complete(m, i, j, k, (upto - 1) as nat);
        lemma_walks2_counted(m, i, j, upto);
        lemma_dot_grows(m, m, i, j, upto, m.len());
    }
}

/// The sum over the first `l` vertices `t` of the products along
/// `i -> k -> t -> j`.
spec fn tri_sum(m: Seq<Seq<int>>, i: int, j: int, k: int, l: nat) -> int
    decreases l,
{
    if l == 0 {
        0
    } else {
        tri_sum(m, i, j, k, (l - 1) as nat) + (m[i][k] * m[k][l - 1]) * m[l - 1][j]
    }
}

/// The part of the cube's entry `(i, j)` that walks with a second vertex
/// below `k` and a third vertex below `l` contribute.
spec fn mid_sum(m: Seq<Seq<int>>, i: int, j: int, k: nat, l: nat) -> int
    decreases l,
{
    if l == 0 {
        0
    } else {
        mid_sum(m, i, j, k, (l - 1) as nat) + dot(m, m, i, l - 1, k) * m[l - 1][j]
    }
}

/// Without a second vertex nothing is contributed.
proof fn lemma_mid_sum_zero(m: Seq<Seq<int>>, i: int, j: int, l: nat)
    ensures
        mid_sum(m, i, j, 0, l) == 0,
    decreases l,
{
    if l > 0 {
        lemma_mid_sum_zero(m, i, j, (l - 1) as nat);
    }
}

/// One more second vertex contributes its products.
proof fn lemma_mid_sum_step(m: Seq<Seq<int>>, i: int, j: int, k: nat, l: nat)
    ensures
        mid_sum(m, i, j, k + 1, l) == mid_sum(m, i, j, k, l) + tri_sum(m, i, j, k as int, l),
    decreases l,
{
    if l > 0 {
        lemma_mid_sum_step(m, i, j, k, (l - 1) as nat);
        let d = dot(m, m, i, l - 1, k);
        let e = m[i][k as int] * m[k as int][l - 1];
        let c = m[l - 1][j];
        assert(dot(m, m, i, l - 1, k + 1) == d + e);
        assert((d + e) * c == d * c + e * c) by (nonlinear_arith);
    }
}

/// With every second vertex the contributions add up to the entry of the
/// cube.
proof fn lemma_mid_sum_all(m: Seq<Seq<int>>, i: int, j: int, l: nat)
    requires
        square(m),
        0 <= i < m.len(),
        l <= m.len(),
    ensures
        mid_sum(m, i, j, m.len(), l) == dot(product(m, m), m, i, j, l),
    decreases l,
{
    if l > 0 {
        lemma_mid_sum_all(m, i, j, (l - 1) as nat);
        assert(product(m, m)[i][l - 1] == dot(m, m, i, l - 1, m.len()));
    }
}

/// There are at most as many walks of three edges through `k` and one of
/// the first `l` vertices as their products count.
proof fn lemma_walks3_via_counted(m: Seq<Seq<int>>, i: int, j: int, k: int, l: nat)
    requires
        square(m),
        non_negative(m),
        0 <= i < m.len(),
        0 <= j < m.len(),
        0 <= k < m.len(),
        l <= m.len(),
    ensures
        walks3_via(m, i, j, k, l).len() <= tri_sum(m, i, j, k, l),
    decreases l,
{
    if l > 0 {
        lemma_walks3_via_counted(m, i, j, k, (l - 1) as nat);
        assert(m[i][k] >= 0 && m[k][l - 1] >= 0 && m[l - 1][j] >= 0);
        assert((m[i][k] * m[k][l - 1]) * m[l - 1][j] >= (if m[i][k] == 1 && m[k][l - 1] == 1
            && m[l - 1][j] == 1 {
            1int
        } else {
            0int
        })) by (nonlinear_arith)
            requires
                m[i][k] >= 0,
                m[k][l - 1] >= 0,
                m[l - 1][j] >= 0,
        ;
    }
}

/// There are at most as many walks of three edges with a second vertex
/// below `k` as these vertices contribute to the entry of the cube.
proof fn lemma_walks3_counted(m: Seq<Seq<int>>, i: int, j: int, k: nat)
    requires
        square(m),
        non_negative(m),
        0 <= i < m.len(),
        0 <= j < m.len(),
        k <= m.len(),
    ensures
        walks3_between(m, i, j, k).len() <= mid_sum(m, i, j, k, m.len()),
    decreases k,
{
    if k > 0 {
        lemma_walks3_counted(m, i, j, (k - 1) as nat);
        lemma_walks3_via_counted(m, i, j, k - 1, m.len());
        lemma_mid_sum_step(m, i, j, (k - 1) as nat, m.len());
    } else {
        lemma_mid_sum_zero(m, i, j, m.len());
    }
}

/// Looking at more third vertices only appends walks.
proof fn lemma_walks3_via_grows(m: Seq<Seq<int>>, i: int, j: int, k: int, l: nat, upto: nat)
    requires
        l <= upto,
    ensures
        walks3_via(m, i, j, k, l).len() <= walks3_via(m, i, j, k, upto).len(),
        walks3_via(m, i, j, k, l).len() == walks3_via(m, i, j, k, upto).len() ==> walks3_via(
            m,
            i,
            j,
            k,
            l,
        ) == walks3_via(m, i, j, k, upto),
    decreases upto,
{
    if upto > l {
        lemma_walks3_via_grows(m, i, j, k, l, (upto - 1) as nat);
    }
}

/// Looking at more second vertices only appends walks.
proof fn lemma_walks3_grows(m: Seq<Seq<int>>, i: int, j: int, k: nat, upto: nat)
    requires
        k <= upto,
    ensures
        walks3_between(m, i, j, k).len() <= walks3_between(m, i, j, upto).len(),
        walks3_between(m, i, j, k).len() == walks3_between(m, i, j, upto).len()
            ==> walks3_between(m, i, j, k) == walks3_between(m, i, j, upto),
    decreases upto,
{
    if upto > k {
        lemma_walks3_grows(m, i, j, k, (upto - 1) as nat);
        let before = walks3_between(m, i, j, (upto - 1) as nat);
        let added = walks3_via(m, i, j, upto - 1, m.len());
        if walks3_between(m, i, j, k).len() == walks3_between(m, i, j, upto).len() {
            assert(added.len() == 0);
            assert(before + added =~= before);
        }
    }
}

/// Once as many walks of three edges are listed as the cube of the matrix
/// counts, no walk is missing: neither one through the second vertex `k`
/// and a third vertex from `l` on, nor one through a later second vertex.
proof fn lemma_walks3_complete(m: Seq<Seq<int>>, i: int, j: int, k: nat, l: nat)
    requires
        square(m),
        non_negative(m),
        0 <= i < m.len(),
        0 <= j < m.len(),
        k < m.len(),
        l <= m.len(),
        walks3_between(m, i, j, k).len() + walks3_via(m, i, j, k as int, l).len() == dot(
            product(m, m),
            m,
            i,
            j,
            m.len(),
        ),
    ensures
        walks3_via(m, i, j, k as int, m.len()) == walks3_via(m, i, j, k as int, l),
        walks3_between(m, i, j, m.len()) == walks3_between(m, i, j, k + 1),
{
    lemma_walks3_via_grows(m, i, j, k as int, l, m.len());
    lemma_walks3_grows(m, i, j, k + 1, m.len());
    lemma_walks3_counted(m, i, j, m.len());
    lemma_mid_sum_all(m, i, j, m.len());
}

/// Where the cube of the matrix counts no walk, there is none.
proof fn lemma_walks3_none(m: Seq<Seq<int>>, i: int, j: int)
    requires
        square(m),
        non_negative(m),
        0 <= i < m.len(),
        0 <= j < m.len(),
        dot(product(m, m), m, i, j, m.len()) == 0,
    ensures
        walks3_between(m, i, j, m.len()) == Seq::<(int, int, int, int)>::empty(),
{
    lemma_walks3_counted(m, i, j, m.len());
    lemma_mid_sum_all(m, i, j, m.len());
    assert(walks3_between(m, i, j, m.len()).len() == 0);
}

impl AdjMatrix {
    /// All walks of two edges, each as `[first, middle, last]`.
    ///
    /// The square of the matrix counts the walks between every two
    /// vertices; its entries have to fit the entry type.
    pub fn all_paths_of_2(&self) -> (paths: Vec<[usize; 3]>)
        requires
            self.wf(),
            product_fits(self@, self@),
        ensures
            as_triples(paths@) == paths_of_2(self@),
    {
        let n = self.0.len();
        let squared = self.mul(self);
        assert(squared.size() == squared@.len());
        let mut paths: Vec<[usize; 3]> = Vec::new();
        let mut i: usize = 0;
        while i < n
            invariant
                self.wf(),
                n == self.size(),
                n == self@.len(),
                squared.wf(),
                squared.size() == n,
                squared@ == product(self@, self@),
                i <= n,
                as_triples(paths@) == walks2_upto(self@, i as nat),
            decreases n - i,
        {
            let ghost before_row = as_triples(paths@);
            let mut j: usize = 0;
            while j < n
                invariant
                    self.wf(),
                    n == self.size(),
                    n == self@.len(),
                    squared.wf(),
                    squared.size() == n,
                    squared@ == product(self@, self@),
                    i < n,
                    j <= n,
                    as_triples(paths@) == before_row + walks2_from(self@, i as int, j as nat),
                decreases n - j,
            {
                let ghost before_cell = as_triples(paths@);
                let mut remaining = squared.entry(i, j);
                let mut k: usize = 0;
                while k < n && remaining > 0
                    invariant
                        self.wf(),
                        n == self.size(),
                        n == self@.len(),
                        i < n,
                        j < n,
                        k <= n,
                        remaining + walks2_between(self@, i as int, j as int, k as nat).len()
                            == dot(self@, self@, i as int, j as int, n as nat),
                        as_triples(paths@) == before_cell + walks2_between(
                            self@,
                            i as int,
                            j as int,
                            k as nat,
                        ),
                    decreases n - k,
                {
                    if self.entry(i, k) == 1 && self.entry(k, j) == 1 {
                        let ghost listed = as_triples(paths@);
                        paths.push([i, k, j]);
                        assert(as_triples(paths@) =~= listed.push((i as int, k as int, j as int)));
                        remaining -= 1;
                    }
                    k += 1;
                }
                proof {
                    if remaining == 0 {
                        lemma_walks2_complete(self@, i as int, j as int, k as nat, n as nat);
                    }
                }
                j += 1;
            }
            i += 1;
        }
        paths
    }

    /// All walks of three edges, each as `[first, second, third, last]`.
    ///
    /// The cube of the matrix counts the walks between every two vertices;
    /// the entries of the square and of the cube have to fit the entry
    /// type.
    pub fn all_paths_of_3(&self) -> (paths: Vec<[usize; 4]>)
        requires
            self.wf(),
            product_fits(self@, self@),
            product_fits(product(self@, self@), self@),
        ensures
            as_quadruples(paths@) == paths_of_3(self@),
    {
        let n = self.0.len();
        let squared = self.mul(self);
        let cubed = (&squared).mul(self);
        assert(cubed.size() == cubed@.len());
        let mut paths: Vec<[usize; 4]> = Vec::new();
        let mut i: usize = 0;
        while i < n
            invariant
                self.wf(),
                n == self.size(),
                n == self@.len(),
                cubed.wf(),
                cubed.size() == n,
                cubed@ == product(product(self@, self@), self@),
                i <= n,
                as_quadruples(paths@) == walks3_upto(self@, i as nat),
            decreases n - i,
        {
            let ghost before_row = as_quadruples(paths@);
            let mut j: usize = 0;
            while j < n
                invariant
                    self.wf(),
                    n == self.size(),
                    n == self@.len(),
                    cubed.wf(),
                    cubed.size() == n,
                    cubed@ == product(product(self@, self@), self@),
                    i < n,
                    j <= n,
                    as_quadruples(paths@) == before_row + walks3_from(self@, i as int, j as nat),
                decreases n - j,
            {
                let ghost before_cell = as_quadruples(paths@);
                let ghost count = dot(product(self@, self@), self@, i as int, j as int, n as nat);
                let mut remaining = cubed.entry(i, j);
                let mut k: usize = 0;
                proof {
                    if remaining == 0 {
                        lemma_walks3_none(self@, i as int, j as int);
                    }
                }
                while k < n && remaining > 0
                    invariant
                        self.wf(),
                        n == self.size(),
                        n == self@.len(),
                        i < n,
                        j < n,
                        k <= n,
                        count == dot(product(self@, self@), self@, i as int, j as int, n as nat),
                        remaining + walks3_between(self@, i as int, j as int, k as nat).len()
                            == count,
                        remaining == 0 ==> walks3_between(self@, i as int, j as int, n as nat)
                            == walks3_between(self@, i as int, j as int, k as nat),
                        as_quadruples(paths@) == before_cell + walks3_between(
                            self@,
                            i as int,
                            j as int,
                            k as nat,
                        ),
                    decreases n - k,
                {
                    let ghost before_mid = as_quadruples(paths@);
                    let mut l: usize = 0;
                    while l < n && remaining > 0
                        invariant
                            self.wf(),
                            n == self.size(),
                            n == self@.len(),
                            i < n,
                            j < n,
                            k < n,
                            l <= n,
                            remaining + walks3_between(self@, i as int, j as int, k as nat).len()
                                + walks3_via(self@, i as int, j as int, k as int, l as nat).len()
                                == count,
                            as_quadruples(paths@) == before_mid + walks3_via(
                                self@,
                                i as int,
                                j as int,
                                k as int,
                                l as nat,
                            ),
                        decreases n - l,
                    {
                        if self.entry(i, k) == 1 && self.entry(k, l) == 1 && self.entry(l, j)
                            == 1 {
                            let ghost listed = as_quadruples(paths@);
                            paths.push([i, k, l, j]);
                            assert(as_quadruples(paths@) =~= listed.push(
                                (i as int, k as int, l as int, j as int),
                            ));
                            remaining -= 1;
                        }
                        l += 1;
                    }
                    proof {
                        if remaining == 0 {
                            lemma_walks3_complete(self@, i as int, j as int, k as nat, l as nat);
                        }
                    }
                    k += 1;
                }
                j += 1;
            }
            i += 1;
        }
        paths
    }
}

} // verus!
