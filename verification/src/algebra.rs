//! The binary operators of [`AdjMatrix`]: `*`, `+`, `|` and `&` on references.
//!
//! Every operator asks for two square operands of one size.  `*` and `+`
//! also ask that each entry of the result fits the entry type.

use crate::matrix::{
    dot, entrywise_and, entrywise_or, entrywise_sum, lemma_dot_grows, product, product_fits,
    sum_fits, AdjMatrix,
};
use core::ops::{Add, BitAnd, BitOr, Mul};
use vstd::prelude::*;
use vstd::std_specs::ops::{AddSpecImpl, BitAndSpecImpl, BitOrSpecImpl, MulSpecImpl};

verus! {

/// Two square matrices of one size.
pub open spec fn same_shape(a: &AdjMatrix, b: &AdjMatrix) -> bool {
    a.wf() && b.wf() && a.size() == b.size()
}

impl<'a, 'b> core::ops::Mul<&'b AdjMatrix> for &'a AdjMatrix {
    type Output = AdjMatrix;

    /// The integer matrix product.
    fn mul(self, rhs: &'b AdjMatrix) -> (ret: AdjMatrix)
        ensures
            ret.wf(),
            ret@ == product(self@, rhs@),
    {
        let n = self.0.len();
        let mut rows: Vec<Vec<u32>> = Vec::new();
        let mut i: usize = 0;
        while i < n
            invariant
                same_shape(self, rhs),
                product_fits(self@, rhs@),
                n == self.size(),
                i <= n,
                rows@.len() == i,
                forall|r: int| 0 <= r < i ==> (#[trigger] rows@[r])@.len() == n,
                forall|r: int, c: int|
                    0 <= r < i && 0 <= c < n ==> (#[trigger] rows@[r]@[c]) as int == dot(
                        self@,
                        rhs@,
                        r,
                        c,
                        n as nat,
                    ),
            decreases n - i,
        {
            let mut row: Vec<u32> = Vec::new();
            let mut j: usize = 0;
            while j < n
                invariant
                    same_shape(self, rhs),
                    product_fits(self@, rhs@),
                    n == self.size(),
                    i < n,
                    j <= n,
                    row@.len() == j,
                    forall|c: int|
                        0 <= c < j ==> (#[trigger] row@[c]) as int == dot(
                            self@,
                            rhs@,
                            i as int,
                            c,
                            n as nat,
                        ),
                decreases n - j,
            {
                let mut sum: u32 = 0;
                let mut k: usize = 0;
                while k < n
                    invariant
                        same_shape(self, rhs),
                        product_fits(self@, rhs@),
                        n == self.size(),
                        i < n,
                        j < n,
                        k <= n,
                        sum as int == dot(self@, rhs@, i as int, j as int, k as nat),
                    decreases n - k,
                {
                    let x = self.entry(i, k);
                    let y = rhs.entry(k, j);
                    proof {
                        lemma_dot_grows(self@, rhs@, i as int, j as int, k as nat, k as nat);
                        lemma_dot_grows(self@, rhs@, i as int, j as int, (k + 1) as nat, n as nat);
                        assert(dot(self@, rhs@, i as int, j as int, n as nat) <= u32::MAX);
                        assert(0 <= x * y) by (nonlinear_arith)
                            requires
                                0 <= x,
                                0 <= y,
                        ;
                    }
                    sum = sum + x * y;
                    k += 1;
                }
                row.push(sum);
                j += 1;
            }
            rows.push(row);
            i += 1;
        }
        let ret = AdjMatrix(rows);
        assert(ret@ =~~= product(self@, rhs@));
        ret
    }
}

/// When `*` may be used.  What it gives is stated in the contract of `mul`.
impl<'a, 'b> MulSpecImpl<&'b AdjMatrix> for &'a AdjMatrix {
    open spec fn obeys_mul_spec() -> bool {
        false
    }

    open spec fn mul_req(self, rhs: &'b AdjMatrix) -> bool {
        same_shape(self, rhs) && product_fits(self@, rhs@)
    }

    open spec fn mul_spec(self, rhs: &'b AdjMatrix) -> AdjMatrix {
        *self
    }
}

/// How two entries are combined in an entry-by-entry operation.
enum Cellwise {
    Sum,
    Either,
    Both,
}

/// The combined entry.
spec fn cell_of(kind: Cellwise, x: int, y: int) -> int {
    match kind {
        Cellwise::Sum => x + y,
        Cellwise::Either => if x != 0 || y != 0 { 1 } else { 0 },
        Cellwise::Both => if x != 0 && y != 0 { 1 } else { 0 },
    }
}

/// Combines two entries.
fn combine_cells(kind: &Cellwise, x: u32, y: u32) -> (ret: u32)
    requires
        *kind is Sum ==> x + y <= u32::MAX,
    ensures
        ret as int == cell_of(*kind, x as int, y as int),
{
    match kind {
        Cellwise::Sum => x + y,
        Cellwise::Either => if x != 0 || y != 0 { 1 } else { 0 },
        Cellwise::Both => if x != 0 && y != 0 { 1 } else { 0 },
    }
}

/// Combines two matrices entry by entry.
fn combine(a: &AdjMatrix, b: &AdjMatrix, kind: Cellwise) -> (ret: AdjMatrix)
    requires
        same_shape(a, b),
        kind is Sum ==> sum_fits(a@, b@),
    ensures
        ret.wf(),
        ret.size() == a.size(),
        forall|i: int, j: int|
            0 <= i < a.size() && 0 <= j < a.size() ==> #[trigger] ret@[i][j] == cell_of(
                kind,
                a@[i][j],
                b@[i][j],
            ),
{
    let n = a.0.len();
    let mut rows: Vec<Vec<u32>> = Vec::new();
    let mut i: usize = 0;
    while i < n
        invariant
            same_shape(a, b),
            kind is Sum ==> sum_fits(a@, b@),
            n == a.size(),
            i <= n,
            rows@.len() == i,
            forall|r: int| 0 <= r < i ==> (#[trigger] rows@[r])@.len() == n,
            forall|r: int, c: int|
                0 <= r < i && 0 <= c < n ==> (#[trigger] rows@[r]@[c]) as int == cell_of(
                    kind,
                    a@[r][c],
                    b@[r][c],
                ),
        decreases n - i,
    {
        let mut row: Vec<u32> = Vec::new();
        let mut j: usize = 0;
        while j < n
            invariant
                same_shape(a, b),
                kind is Sum ==> sum_fits(a@, b@),
                n == a.size(),
                i < n,
                j <= n,
                row@.len() == j,
                forall|c: int|
                    0 <= c < j ==> (#[trigger] row@[c]) as int == cell_of(
                        kind,
                        a@[i as int][c],
                        b@[i as int][c],
                    ),
            decreases n - j,
        {
            let x = a.entry(i, j);
            let y = b.entry(i, j);
            assert(kind is Sum ==> a@[i as int][j as int] + b@[i as int][j as int] <= u32::MAX);
            row.push(combine_cells(&kind, x, y));
            j += 1;
        }
        rows.push(row);
        i += 1;
    }
    AdjMatrix(rows)
}

impl<'a, 'b> core::ops::Add<&'b AdjMatrix> for &'a AdjMatrix {
    type Output = AdjMatrix;

    /// The entry-by-entry sum.
    fn add(self, rhs: &'b AdjMatrix) -> (ret: AdjMatrix)
        ensures
            ret.wf(),
            ret@ == entrywise_sum(self@, rhs@),
    {
        let ret = combine(self, rhs, Cellwise::Sum);
        assert(ret@ =~~= entrywise_sum(self@, rhs@));
        ret
    }
}

/// When `+` may be used.  What it gives is stated in the contract of `add`.
impl<'a, 'b> AddSpecImpl<&'b AdjMatrix> for &'a AdjMatrix {
    open spec fn obeys_add_spec() -> bool {
        false
    }

    open spec fn add_req(self, rhs: &'b AdjMatrix) -> bool {
        same_shape(self, rhs) && sum_fits(self@, rhs@)
    }

    open spec fn add_spec(self, rhs: &'b AdjMatrix) -> AdjMatrix {
        *self
    }
}

impl<'a, 'b> core::ops::BitOr<&'b AdjMatrix> for &'a AdjMatrix {
    type Output = AdjMatrix;

    /// The entry-by-entry disjunction; any non-zero entry counts as true.
    fn bitor(self, rhs: &'b AdjMatrix) -> (ret: AdjMatrix)
        ensures
            ret.wf(),
            ret@ == entrywise_or(self@, rhs@),
    {
        let ret = combine(self, rhs, Cellwise::Either);
        assert(ret@ =~~= entrywise_or(self@, rhs@));
        ret
    }
}

/// When `|` may be used.  What it gives is stated in the contract of `bitor`.
impl<'a, 'b> BitOrSpecImpl<&'b AdjMatrix> for &'a AdjMatrix {
    open spec fn obeys_bitor_spec() -> bool {
        false
    }

    open spec fn bitor_req(self, rhs: &'b AdjMatrix) -> bool {
        same_shape(self, rhs)
    }

    open spec fn bitor_spec(self, rhs: &'b AdjMatrix) -> AdjMatrix {
        *self
    }
}

impl<'a, 'b> core::ops::BitAnd<&'b AdjMatrix> for &'a AdjMatrix {
    type Output = AdjMatrix;

    /// The entry-by-entry conjunction; any non-zero entry counts as true.
    fn bitand(self, rhs: &'b AdjMatrix) -> (ret: AdjMatrix)
        ensures
            ret.wf(),
            ret@ == entrywise_and(self@, rhs@),
    {
        let ret = combine(self, rhs, Cellwise::Both);
        assert(ret@ =~~= entrywise_and(self@, rhs@));
        ret
    }
}

/// When `&` may be used.  What it gives is stated in the contract of `bitand`.
impl<'a, 'b> BitAndSpecImpl<&'b AdjMatrix> for &'a AdjMatrix {
    open spec fn obeys_bitand_spec() -> bool {
        false
    }

    open spec fn bitand_req(self, rhs: &'b AdjMatrix) -> bool {
        same_shape(self, rhs)
    }

    open spec fn bitand_spec(self, rhs: &'b AdjMatrix) -> AdjMatrix {
        *self
    }
}

impl<'a> core::ops::MulAssign<&'a AdjMatrix> for AdjMatrix {
    /// Replaces the matrix by its product with `rhs`.
    fn mul_assign(&mut self, rhs: &'a AdjMatrix)
        requires
            same_shape(old(self), rhs),
            product_fits(old(self)@, rhs@),
        ensures
            final(self).wf(),
            final(self)@ == product(old(self)@, rhs@),
    {
        let next = (&*self).mul(rhs);
        *self = next;
    }
}

impl<'a> core::ops::AddAssign<&'a AdjMatrix> for AdjMatrix {
    /// Replaces the matrix by its sum with `rhs`.
    fn add_assign(&mut self, rhs: &'a AdjMatrix)
        requires
            same_shape(old(self), rhs),
            sum_fits(old(self)@, rhs@),
        ensures
            final(self).wf(),
            final(self)@ == entrywise_sum(old(self)@, rhs@),
    {
        let next = (&*self).add(rhs);
        *self = next;
    }
}

impl<'a> core::ops::BitOrAssign<&'a AdjMatrix> for AdjMatrix {
    /// Replaces the matrix by its disjunction with `rhs`.
    fn bitor_assign(&mut self, rhs: &'a AdjMatrix)
        requires
            same_shape(old(self), rhs),
        ensures
            final(self).wf(),
            final(self)@ == entrywise_or(old(self)@, rhs@),
    {
        let next = (&*self).bitor(rhs);
        *self = next;
    }
}

impl<'a> core::ops::BitAndAssign<&'a AdjMatrix> for AdjMatrix {
    /// Replaces the matrix by its conjunction with `rhs`.
    fn bitand_assign(&mut self, rhs: &'a AdjMatrix)
        requires
            same_shape(old(self), rhs),
        ensures
            final(self).wf(),
            final(self)@ == entrywise_and(old(self)@, rhs@),
    {
        let next = (&*self).bitand(rhs);
        *self = next;
    }
}

impl AdjMatrix {
    /// Whether every row is as long as the number of rows.
    pub fn is_square(&self) -> (ret: bool)
        ensures
            ret == self.wf(),
    {
        let n = self.0.len();
        let mut i: usize = 0;
        while i < n
            invariant
                n == self.size(),
                n == self@.len(),
                i <= n,
                forall|r: int| 0 <= r < i ==> (#[trigger] self@[r]).len() == n,
            decreases n - i,
        {
            if self.0[i].len() != n {
                assert(self@[i as int].len() != n);
                return false;
            }
            i += 1;
        }
        true
    }

    /// Whether `self * rhs` can be formed: both are square matrices of one
    /// size, and every entry of the product fits the entry type.
    pub fn can_multiply(&self, rhs: &AdjMatrix) -> (ret: bool)
        ensures
            ret == (same_shape(self, rhs) && product_fits(self@, rhs@)),
    {
        if !self.is_square() || !rhs.is_square() || self.0.len() != rhs.0.len() {
            return false;
        }
        let n = self.0.len();
        assert(n == self@.len());
        let mut i: usize = 0;
        while i < n
            invariant
                same_shape(self, rhs),
                n == self.size(),
                n == self@.len(),
                i <= n,
                forall|r: int, c: int|
                    0 <= r < i && 0 <= c < n ==> #[trigger] dot(self@, rhs@, r, c, n as nat)
                        <= u32::MAX,
            decreases n - i,
        {
            let mut j: usize = 0;
            while j < n
                invariant
                    same_shape(self, rhs),
                    n == self.size(),
                    n == self@.len(),
                    i < n,
                    j <= n,
                    forall|r: int, c: int|
                        0 <= r < i && 0 <= c < n ==> #[trigger] dot(self@, rhs@, r, c, n as nat)
                            <= u32::MAX,
                    forall|c: int|
                        0 <= c < j ==> #[trigger] dot(self@, rhs@, i as int, c, n as nat)
                            <= u32::MAX,
                decreases n - j,
            {
                let mut sum: u64 = 0;
                let mut k: usize = 0;
                while k < n
                    invariant
                        same_shape(self, rhs),
                        n == self.size(),
                        n == self@.len(),
                        i < n,
                        j < n,
                        k <= n,
                        sum <= u32::MAX,
                        sum as int == dot(self@, rhs@, i as int, j as int, k as nat),
                    decreases n - k,
                {
                    let x = self.entry(i, k) as u64;
                    let y = rhs.entry(k, j) as u64;
                    assert(x * y <= 0xffff_ffff * 0xffff_ffff) by (nonlinear_arith)
                        requires
                            0 <= x <= 0xffff_ffff,
                            0 <= y <= 0xffff_ffff,
                    ;
                    sum = sum + x * y;
                    k += 1;
                    if sum > 0xffff_ffff {
                        proof {
                            lemma_dot_grows(
                                self@,
                                rhs@,
                                i as int,
                                j as int,
                                k as nat,
                                n as nat,
                            );
                        }
                        return false;
                    }
                }
                j += 1;
            }
            i += 1;
        }
        true
    }

    /// Whether `self + rhs` can be formed: both are square matrices of one
    /// size, and every entry of the sum fits the entry type.
    pub fn can_add(&self, rhs: &AdjMatrix) -> (ret: bool)
        ensures
            ret == (same_shape(self, rhs) && sum_fits(self@, rhs@)),
    {
        if !self.is_square() || !rhs.is_square() || self.0.len() != rhs.0.len() {
            return false;
        }
        let n = self.0.len();
        assert(n == self@.len());
        let mut i: usize = 0;
        while i < n
            invariant
                same_shape(self, rhs),
                n == self.size(),
                n == self@.len(),
                i <= n,
                forall|r: int, c: int|
                    0 <= r < i && 0 <= c < n ==> (#[trigger] self@[r][c]) + (
                    #[trigger] rhs@[r][c]) <= u32::MAX,
            decreases n - i,
        {
            let mut j: usize = 0;
            while j < n
                invariant
                    same_shape(self, rhs),
                    n == self.size(),
                    n == self@.len(),
                    i < n,
                    j <= n,
                    forall|r: int, c: int|
                        0 <= r < i && 0 <= c < n ==> (#[trigger] self@[r][c]) + (
                        #[trigger] rhs@[r][c]) <= u32::MAX,
                    forall|c: int|
                        0 <= c < j ==> (#[trigger] self@[i as int][c]) + (
                        #[trigger] rhs@[i as int][c]) <= u32::MAX,
                decreases n - j,
            {
                if self.entry(i, j) as u64 + rhs.entry(i, j) as u64 > 0xffff_ffff {
                    assert(self@[i as int][j as int] + rhs@[i as int][j as int] > u32::MAX);
                    return false;
                }
                j += 1;
            }
            i += 1;
        }
        true
    }
}

} // verus!
