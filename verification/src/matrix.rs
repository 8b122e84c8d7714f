//! Square matrices over non-negative integers and their algebra.
//!
//! A matrix is modelled as a sequence of rows of mathematical integers.
//! All operations are specified over that model; the executable type
//! [`AdjMatrix`] stores the entries as `u32`.

use vstd::prelude::*;

verus! {

/// A matrix is square when every row is as long as the number of rows.
pub open spec fn square(m: Seq<Seq<int>>) -> bool {
    forall|i: int| 0 <= i < m.len() ==> (#[trigger] m[i]).len() == m.len()
}

/// The `n`-by-`n` matrix with ones on the diagonal and zeros elsewhere.
pub open spec fn identity_matrix(n: nat) -> Seq<Seq<int>> {
    Seq::new(n, |i: int| Seq::new(n, |j: int| if i == j { 1int } else { 0int }))
}

/// Rows and columns exchanged.
pub open spec fn transposed(m: Seq<Seq<int>>) -> Seq<Seq<int>> {
    Seq::new(m.len(), |i: int| Seq::new(m.len(), |j: int| m[j][i]))
}

/// The upper triangle mirrored onto the lower triangle.
pub open spec fn mirrored(m: Seq<Seq<int>>) -> Seq<Seq<int>> {
    Seq::new(m.len(), |i: int| Seq::new(m.len(), |j: int| if i > j { m[j][i] } else { m[i][j] }))
}

/// The sum of the first `k` products along row `i` of `a` and column `j` of `b`.
pub open spec fn dot(a: Seq<Seq<int>>, b: Seq<Seq<int>>, i: int, j: int, k: nat) -> int
    decreases k,
{
    if k == 0 {
        0
    } else {
        dot(a, b, i, j, (k - 1) as nat) + a[i][k - 1] * b[k - 1][j]
    }
}

/// The standard matrix product: entry `(i, j)` is the sum over `k` of
/// `a[i][k] * b[k][j]`.
pub open spec fn product(a: Seq<Seq<int>>, b: Seq<Seq<int>>) -> Seq<Seq<int>> {
    Seq::new(a.len(), |i: int| Seq::new(a.len(), |j: int| dot(a, b, i, j, a.len())))
}

/// Every entry of the product can be stored in a `u32`.
pub open spec fn product_fits(a: Seq<Seq<int>>, b: Seq<Seq<int>>) -> bool {
    forall|i: int, j: int|
        0 <= i < a.len() && 0 <= j < a.len() ==> #[trigger] dot(a, b, i, j, a.len()) <= u32::MAX
}

/// Entry-by-entry sum.
pub open spec fn entrywise_sum(a: Seq<Seq<int>>, b: Seq<Seq<int>>) -> Seq<Seq<int>> {
    Seq::new(a.len(), |i: int| Seq::new(a.len(), |j: int| a[i][j] + b[i][j]))
}

/// Every entry of the sum can be stored in a `u32`.
pub open spec fn sum_fits(a: Seq<Seq<int>>, b: Seq<Seq<int>>) -> bool {
    forall|i: int, j: int|
        0 <= i < a.len() && 0 <= j < a.len() ==> (#[trigger] a[i][j]) + (#[trigger] b[i][j])
            <= u32::MAX
}

/// Entry-by-entry disjunction, any non-zero entry counting as true.
pub open spec fn entrywise_or(a: Seq<Seq<int>>, b: Seq<Seq<int>>) -> Seq<Seq<int>> {
    Seq::new(
        a.len(),
        |i: int| Seq::new(a.len(), |j: int| if a[i][j] != 0 || b[i][j] != 0 { 1int } else { 0int }),
    )
}

/// Entry-by-entry conjunction, any non-zero entry counting as true.
pub open spec fn entrywise_and(a: Seq<Seq<int>>, b: Seq<Seq<int>>) -> Seq<Seq<int>> {
    Seq::new(
        a.len(),
        |i: int| Seq::new(a.len(), |j: int| if a[i][j] != 0 && b[i][j] != 0 { 1int } else { 0int }),
    )
}

/// No entry is negative.
pub open spec fn non_negative(m: Seq<Seq<int>>) -> bool {
    forall|i: int, j: int| 0 <= i < m.len() && 0 <= j < m[i].len() ==> #[trigger] m[i][j] >= 0
}

/// With non-negative entries the partial sums of a dot product never shrink.
pub proof fn lemma_dot_grows(a: Seq<Seq<int>>, b: Seq<Seq<int>>, i: int, j: int, k: nat, m: nat)
    requires
        square(a),
        square(b),
        a.len() == b.len(),
        non_negative(a),
        non_negative(b),
        0 <= i < a.len(),
        0 <= j < a.len(),
        k <= m <= a.len(),
    ensures
        0 <= dot(a, b, i, j, k) <= dot(a, b, i, j, m),
    decreases m,
{
    if m == 0 {
    } else {
        assert(a[i][m - 1] >= 0);
        assert(b[m - 1][j] >= 0);
        assert(a[i][m - 1] * b[m - 1][j] >= 0) by (nonlinear_arith)
            requires
                a[i][m - 1] >= 0,
                b[m - 1][j] >= 0,
        ;
        if k < m {
            lemma_dot_grows(a, b, i, j, k, (m - 1) as nat);
        } else {
            lemma_dot_grows(a, b, i, j, (m - 1) as nat, (m - 1) as nat);
        }
    }
}

/// Partial dot products with the identity on the left pick one entry of the
/// right operand once the diagonal position has been passed.
proof fn lemma_dot_identity_left(a: Seq<Seq<int>>, i: int, j: int, k: nat)
    requires
        square(a),
        0 <= i < a.len(),
        0 <= j < a.len(),
        k <= a.len(),
    ensures
        dot(identity_matrix(a.len()), a, i, j, k) == (if i < k { a[i][j] } else { 0 }),
    decreases k,
{
    if k > 0 {
        lemma_dot_identity_left(a, i, j, (k - 1) as nat);
        assert(identity_matrix(a.len())[i][k - 1] == (if i == k - 1 { 1int } else { 0int }));
    }
}

/// Partial dot products with the identity on the right pick one entry of the
/// left operand once the diagonal position has been passed.
proof fn lemma_dot_identity_right(a: Seq<Seq<int>>, i: int, j: int, k: nat)
    requires
        square(a),
        0 <= i < a.len(),
        0 <= j < a.len(),
        k <= a.len(),
    ensures
        dot(a, identity_matrix(a.len()), i, j, k) == (if j < k { a[i][j] } else { 0 }),
    decreases k,
{
    if k > 0 {
        lemma_dot_identity_right(a, i, j, (k - 1) as nat);
        assert(identity_matrix(a.len())[k - 1][j] == (if k - 1 == j { 1int } else { 0int }));
    }
}

/// The identity matrix is neutral for the matrix product: multiplying a
/// square matrix by the identity of its size, on either side, gives the
/// matrix back.
pub proof fn lemma_identity_neutral(a: Seq<Seq<int>>)
    requires
        square(a),
    ensures
        product(identity_matrix(a.len()), a) == a,
        product(a, identity_matrix(a.len())) == a,
{
    let n = a.len();
    let id = identity_matrix(n);
    assert forall|i: int| 0 <= i < n implies #[trigger] product(id, a)[i] == a[i] && product(
        a,
        id,
    )[i] == a[i] by {
        assert forall|j: int| 0 <= j < n implies product(id, a)[i][j] == #[trigger] a[i][j]
            && product(a, id)[i][j] == a[i][j] by {
            lemma_dot_identity_left(a, i, j, n);
            lemma_dot_identity_right(a, i, j, n);
        }
        assert(product(id, a)[i] =~= a[i]);
        assert(product(a, id)[i] =~= a[i]);
    }
    assert(product(id, a) =~= a);
    assert(product(a, id) =~= a);
}

/// Square adjacency matrix; entry `(i, j)` describes the edge from vertex `i`
/// to vertex `j`.
pub struct AdjMatrix(pub Vec<Vec<u32>>);

impl View for AdjMatrix {
    type V = Seq<Seq<int>>;

    open spec fn view(&self) -> Seq<Seq<int>> {
        Seq::new(self.0@.len(), |i: int| Seq::new(self.0@[i]@.len(), |j: int| self.0@[i]@[j] as int))
    }
}

impl AdjMatrix {
    /// The matrix is square.
    pub open spec fn wf(&self) -> bool {
        square(self@)
    }

    /// Number of vertices.
    pub open spec fn size(&self) -> nat {
        self.0@.len()
    }

    /// The identity matrix of the given size.
    pub fn identity(size: usize) -> (ret: AdjMatrix)
        ensures
            ret.wf(),
            ret@ == identity_matrix(size as nat),
    {
        let mut rows: Vec<Vec<u32>> = Vec::new();
        let mut i: usize = 0;
        while i < size
            invariant
                i <= size,
                rows@.len() == i,
                forall|r: int| 0 <= r < i ==> (#[trigger] rows@[r])@.len() == size,
                forall|r: int, c: int|
                    0 <= r < i && 0 <= c < size ==> (#[trigger] rows@[r]@[c]) == (if r == c {
                        1u32
                    } else {
                        0u32
                    }),
            decreases size - i,
        {
            let mut row: Vec<u32> = Vec::new();
            let mut j: usize = 0;
            while j < size
                invariant
                    j <= size,
                    row@.len() == j,
                    forall|c: int|
                        0 <= c < j ==> (#[trigger] row@[c]) == (if i == c {
                            1u32
                        } else {
                            0u32
                        }),
                decreases size - j,
            {
                row.push(if i == j { 1 } else { 0 });
                j += 1;
            }
            rows.push(row);
            i += 1;
        }
        let ret = AdjMatrix(rows);
        assert(ret@ =~~= identity_matrix(size as nat));
        ret
    }

    /// The transpose: entry `(i, j)` of the result is entry `(j, i)` of `self`.
    pub fn transpose(&self) -> (ret: AdjMatrix)
        requires
            self.wf(),
        ensures
            ret.wf(),
            ret@ == transposed(self@),
    {
        let n = self.0.len();
        let mut rows: Vec<Vec<u32>> = Vec::new();
        let mut col: usize = 0;
        while col < n
            invariant
                self.wf(),
                n == self.0@.len(),
                col <= n,
                rows@.len() == col,
                forall|r: int| 0 <= r < col ==> (#[trigger] rows@[r])@.len() == n,
                forall|r: int, c: int|
                    0 <= r < col && 0 <= c < n ==> (#[trigger] rows@[r]@[c]) == self.0@[c]@[r],
            decreases n - col,
        {
            let mut row: Vec<u32> = Vec::new();
            let mut k: usize = 0;
            while k < n
                invariant
                    self.wf(),
                    n == self.0@.len(),
                    col < n,
                    k <= n,
                    row@.len() == k,
                    forall|c: int| 0 <= c < k ==> (#[trigger] row@[c]) == self.0@[c]@[col as int],
                decreases n - k,
            {
                assert(self@[k as int].len() == n);
                row.push(self.0[k][col]);
                k += 1;
            }
            rows.push(row);
            col += 1;
        }
        let ret = AdjMatrix(rows);
        assert(ret@ =~~= transposed(self@));
        ret
    }

    /// The matrix whose rows are the consecutive runs of `size` cells.
    pub fn from_cells(cells: &Vec<u32>, size: usize) -> (ret: AdjMatrix)
        requires
            cells@.len() == size * size,
        ensures
            ret.wf(),
            ret.size() == size,
            forall|i: int, j: int|
                0 <= i < size && 0 <= j < size ==> #[trigger] ret@[i][j] == cells@[i * size + j],
    {
        let total = cells.len();
        let mut rows: Vec<Vec<u32>> = Vec::new();
        let mut pos: usize = 0;
        let mut i: usize = 0;
        while i < size
            invariant
                cells@.len() == size * size,
                total == cells@.len(),
                i <= size,
                pos == i * size,
                rows@.len() == i,
                forall|r: int| 0 <= r < i ==> (#[trigger] rows@[r])@.len() == size,
                forall|r: int, c: int|
                    0 <= r < i && 0 <= c < size ==> (#[trigger] rows@[r]@[c]) == cells@[r * size
                        + c],
            decreases size - i,
        {
            let mut row: Vec<u32> = Vec::new();
            let mut j: usize = 0;
            while j < size
                invariant
                    cells@.len() == size * size,
                    total == cells@.len(),
                    i < size,
                    j <= size,
                    pos == i * size + j,
                    row@.len() == j,
                    forall|c: int| 0 <= c < j ==> (#[trigger] row@[c]) == cells@[i * size + c],
                decreases size - j,
            {
                assert(i * size + j < size * size) by (nonlinear_arith)
                    requires
                        i < size,
                        j < size,
                ;
                row.push(cells[pos]);
                pos += 1;
                j += 1;
            }
            assert(i * size + size == (i + 1) * size) by (nonlinear_arith);
            rows.push(row);
            i += 1;
        }
        let ret = AdjMatrix(rows);
        assert(ret.size() == size);
        assert forall|i: int, j: int| 0 <= i < size && 0 <= j < size implies #[trigger] ret@[i][j]
            == cells@[i * size + j] by {}
        ret
    }

    /// Reads one entry.
    pub fn entry(&self, i: usize, j: usize) -> (ret: u32)
        requires
            self.wf(),
            i < self.size(),
            j < self.size(),
        ensures
            ret as int == self@[i as int][j as int],
    {
        assert(self@[i as int].len() == self.size());
        self.0[i][j]
    }

    /// The undirected variant: the upper triangle is mirrored onto the lower
    /// triangle, the diagonal stays.
    pub fn undir(&self) -> (ret: AdjMatrix)
        requires
            self.wf(),
        ensures
            ret.wf(),
            ret@ == mirrored(self@),
    {
        let n = self.0.len();
        let mut rows: Vec<Vec<u32>> = Vec::new();
        let mut i: usize = 0;
        while i < n
            invariant
                self.wf(),
                n == self.size(),
                i <= n,
                rows@.len() == i,
                forall|r: int| 0 <= r < i ==> (#[trigger] rows@[r])@.len() == n,
                forall|r: int, c: int|
                    0 <= r < i && 0 <= c < n ==> (#[trigger] rows@[r]@[c]) as int == mirrored(
                        self@,
                    )[r][c],
            decreases n - i,
        {
            let mut row: Vec<u32> = Vec::new();
            let mut j: usize = 0;
            while j < n
                invariant
                    self.wf(),
                    n == self.size(),
                    i < n,
                    j <= n,
                    row@.len() == j,
                    forall|c: int|
                        0 <= c < j ==> (#[trigger] row@[c]) as int == mirrored(self@)[i as int][c],
                decreases n - j,
            {
                let cell = if i > j {
                    self.entry(j, i)
                } else {
                    self.entry(i, j)
                };
                row.push(cell);
                j += 1;
            }
            rows.push(row);
            i += 1;
        }
        let ret = AdjMatrix(rows);
        assert(ret@ =~~= mirrored(self@));
        ret
    }
}

/// The undirected variant of a directed matrix; see [`AdjMatrix::undir`].
pub fn convert_to_undir(dir_matrix: &AdjMatrix) -> (ret: AdjMatrix)
    requires
        dir_matrix.wf(),
    ensures
        ret.wf(),
        ret@ == mirrored(dir_matrix@),
{
    dir_matrix.undir()
}

/// A square block of zeros.
pub(crate) fn zero_rows(k: usize) -> (rows: Vec<Vec<u32>>)
    ensures
        rows@.len() == k,
        forall|x: int| 0 <= x < k ==> (#[trigger] rows@[x])@.len() == k,
        forall|x: int, y: int| 0 <= x < k && 0 <= y < k ==> (#[trigger] rows@[x]@[y]) == 0,
{
    let mut rows: Vec<Vec<u32>> = Vec::new();
    let mut x: usize = 0;
    while x < k
        invariant
            x <= k,
            rows@.len() == x,
            forall|r: int| 0 <= r < x ==> (#[trigger] rows@[r])@.len() == k,
            forall|r: int, c: int| 0 <= r < x && 0 <= c < k ==> (#[trigger] rows@[r]@[c]) == 0,
        decreases k - x,
    {
        let mut row: Vec<u32> = Vec::new();
        let mut y: usize = 0;
        while y < k
            invariant
                y <= k,
                row@.len() == y,
                forall|c: int| 0 <= c < y ==> (#[trigger] row@[c]) == 0,
            decreases k - y,
        {
            row.push(0);
            y += 1;
        }
        rows.push(row);
        x += 1;
    }
    rows
}

impl Clone for AdjMatrix {
    fn clone(&self) -> (ret: Self)
        ensures
            ret@ == self@,
    {
        let ret = AdjMatrix(self.0.clone());
        assert(ret@ =~~= self@);
        ret
    }
}

} // verus!
