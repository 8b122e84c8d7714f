//! Disjoint sets with union by rank and path compression.
//!
//! The structure is modelled by the map from every element to the
//! representative of its set, and by the rank of every element.  Two
//! elements are in one set when they have the same representative.

use vstd::prelude::*;

verus! {

/// Every element has a representative, and every representative represents
/// itself.
pub open spec fn is_partition(roots: Seq<int>) -> bool {
    forall|x: int|
        0 <= x < roots.len() ==> 0 <= #[trigger] roots[x] < roots.len() && roots[roots[x]]
            == roots[x]
}

/// How many of the first `k` elements represent themselves.
pub open spec fn sets_upto(roots: Seq<int>, k: nat) -> nat
    decreases k,
{
    if k == 0 {
        0
    } else {
        sets_upto(roots, (k - 1) as nat) + if roots[k - 1] == k - 1 { 1nat } else { 0nat }
    }
}

/// The number of sets.
pub open spec fn set_count(roots: Seq<int>) -> nat {
    sets_upto(roots, roots.len())
}

/// The representatives after the set of `absorbed` has joined the set of
/// `survivor`.
pub open spec fn relabel(roots: Seq<int>, absorbed: int, survivor: int) -> Seq<int> {
    Seq::new(roots.len(), |x: int| if roots[x] == absorbed { survivor } else { roots[x] })
}

/// A partition of at least one element has at least one set.
pub proof fn lemma_some_set(roots: Seq<int>)
    requires
        is_partition(roots),
        roots.len() >= 1,
    ensures
        set_count(roots) >= 1,
{
    lemma_count_one(roots, roots.len(), roots[0]);
}

/// A representative among the first `k` elements is counted.
proof fn lemma_count_one(roots: Seq<int>, k: nat, r: int)
    requires
        k <= roots.len(),
        0 <= r < k,
        roots[r] == r,
    ensures
        sets_upto(roots, k) >= 1,
    decreases k,
{
    if r < k - 1 {
        lemma_count_one(roots, (k - 1) as nat, r);
    }
}

/// A representative among the first `k` elements is counted once, another
/// one is counted too.
proof fn lemma_count_two(roots: Seq<int>, k: nat, r1: int, r2: int)
    requires
        k <= roots.len(),
        0 <= r1 < k,
        0 <= r2 < k,
        r1 != r2,
        roots[r1] == r1,
        roots[r2] == r2,
    ensures
        sets_upto(roots, k) >= 2,
    decreases k,
{
    if r1 == k - 1 {
        lemma_count_one(roots, (k - 1) as nat, r2);
    } else if r2 == k - 1 {
        lemma_count_one(roots, (k - 1) as nat, r1);
    } else {
        lemma_count_two(roots, (k - 1) as nat, r1, r2);
    }
}

/// With all elements in the set of `r`, only `r` represents itself.
proof fn lemma_count_single(roots: Seq<int>, r: int, k: nat)
    requires
        k <= roots.len(),
        forall|x: int| 0 <= x < roots.len() ==> #[trigger] roots[x] == r,
    ensures
        sets_upto(roots, k) == (if r < k && 0 <= r {
            1nat
        } else {
            0nat
        }),
    decreases k,
{
    if k > 0 {
        lemma_count_single(roots, r, (k - 1) as nat);
    }
}

/// There is one set if and only if all elements have one representative.
pub proof fn lemma_single_set(roots: Seq<int>)
    requires
        is_partition(roots),
        roots.len() >= 1,
    ensures
        set_count(roots) == 1 <==> forall|a: int, b: int|
            0 <= a < roots.len() && 0 <= b < roots.len() ==> #[trigger] roots[a] == #[trigger] roots[b],
{
    if forall|a: int, b: int|
        0 <= a < roots.len() && 0 <= b < roots.len() ==> #[trigger] roots[a] == #[trigger] roots[b] {
        let r = roots[0];
        assert forall|x: int| 0 <= x < roots.len() implies #[trigger] roots[x] == r by {
            assert(roots[x] == roots[0]);
        }
        lemma_count_single(roots, r, roots.len());
    } else {
        let (a, b) = choose|a: int, b: int|
            0 <= a < roots.len() && 0 <= b < roots.len() && #[trigger] roots[a] != #[trigger] roots[b];
        lemma_count_two(roots, roots.len(), roots[a], roots[b]);
    }
}

/// Where every element represents itself there are as many sets as
/// elements.
pub(crate) proof fn lemma_all_sets(n: nat, k: nat)
    requires
        k <= n,
    ensures
        sets_upto(Seq::new(n, |x: int| x), k) == k,
    decreases k,
{
    if k > 0 {
        lemma_all_sets(n, (k - 1) as nat);
    }
}

/// Joining the sets of `x` and `y` puts `x` and `y` into one set, keeps
/// together what was together, and joins nothing but these two sets.
pub proof fn lemma_union_roots(roots: Seq<int>, ranks: Seq<int>, x: int, y: int)
    requires
        is_partition(roots),
        0 <= x < roots.len(),
        0 <= y < roots.len(),
    ensures
        union_roots(roots, ranks, x, y).len() == roots.len(),
        union_roots(roots, ranks, x, y)[x] == union_roots(roots, ranks, x, y)[y],
        forall|a: int, b: int|
            0 <= a < roots.len() && 0 <= b < roots.len() && #[trigger] roots[a] == #[trigger] roots[b]
                ==> union_roots(roots, ranks, x, y)[a] == union_roots(roots, ranks, x, y)[b],
        forall|a: int, b: int|
            0 <= a < roots.len() && 0 <= b < roots.len() && #[trigger] union_roots(
                roots,
                ranks,
                x,
                y,
            )[a] == #[trigger] union_roots(roots, ranks, x, y)[b] ==> roots[a] == roots[b] || ((
            roots[a] == roots[x] || roots[a] == roots[y]) && (roots[b] == roots[x] || roots[b]
                == roots[y])),
{
    assert(roots[roots[x]] == roots[x]);
    assert(roots[roots[y]] == roots[y]);
}

/// The sum of the first `k` ranks.
spec fn rank_sum(rank: Seq<usize>, k: nat) -> nat
    decreases k,
{
    if k == 0 {
        0
    } else {
        rank_sum(rank, (k - 1) as nat) + rank[k - 1] as nat
    }
}

/// How many of the first `k` elements are their own parent.
spec fn root_count(parent: Seq<usize>, k: nat) -> nat
    decreases k,
{
    if k == 0 {
        0
    } else {
        root_count(parent, (k - 1) as nat) + if parent[k - 1] == k - 1 { 1nat } else { 0nat }
    }
}

/// The parent pointers form a forest in which ranks grow towards the roots.
spec fn forest_ok(parent: Seq<usize>, rank: Seq<usize>) -> bool {
    &&& parent.len() == rank.len()
    &&& forall|x: int| 0 <= x < parent.len() ==> (#[trigger] parent[x]) < parent.len()
    &&& forall|x: int| 0 <= x < parent.len() ==> (#[trigger] rank[x]) < parent.len()
    &&& forall|x: int|
        0 <= x < parent.len() && (#[trigger] parent[x]) != x ==> rank[x] < rank[parent[x] as int]
    &&& rank_sum(rank, rank.len()) + root_count(parent, parent.len()) <= parent.len()
}

/// The root that the parent pointers lead to from `x`.
spec fn root_of(parent: Seq<usize>, rank: Seq<usize>, x: int) -> int
    decreases parent.len() - rank[x],
    when forest_ok(parent, rank) && 0 <= x < parent.len()
{
    if parent[x] == x {
        x
    } else {
        root_of(parent, rank, parent[x] as int)
    }
}

/// The root of an element is an element that is its own parent, and its
/// rank is above the ranks of the elements below it.
proof fn lemma_root_of(parent: Seq<usize>, rank: Seq<usize>, x: int)
    requires
        forest_ok(parent, rank),
        0 <= x < parent.len(),
    ensures
        0 <= root_of(parent, rank, x) < parent.len(),
        parent[root_of(parent, rank, x)] == root_of(parent, rank, x),
        root_of(parent, rank, root_of(parent, rank, x)) == root_of(parent, rank, x),
        parent[x] != x ==> rank[x] < rank[root_of(parent, rank, x)],
        parent[x] == x ==> root_of(parent, rank, x) == x,
    decreases parent.len() - rank[x],
{
    if parent[x] != x {
        lemma_root_of(parent, rank, parent[x] as int);
    }
}

/// No rank is above the sum of all ranks.
proof fn lemma_rank_below_sum(rank: Seq<usize>, k: nat, x: int)
    requires
        0 <= x < k,
    ensures
        rank[x] <= rank_sum(rank, k),
    decreases k,
{
    if x < k - 1 {
        lemma_rank_below_sum(rank, (k - 1) as nat, x);
    }
}

/// Raising one rank by one raises the sum by one.
proof fn lemma_rank_sum_update(rank: Seq<usize>, k: nat, x: int, value: usize)
    requires
        0 <= x < rank.len(),
        k <= rank.len(),
    ensures
        rank_sum(rank.update(x, value), k) == rank_sum(rank, k) + if x < k {
            value - rank[x]
        } else {
            0
        },
    decreases k,
{
    if k > 0 {
        lemma_rank_sum_update(rank, (k - 1) as nat, x, value);
    }
}

/// Two different roots are counted as two.
proof fn lemma_two_roots(parent: Seq<usize>, k: nat, a: int, b: int)
    requires
        0 <= a < k,
        0 <= b < k,
        a != b,
        k <= parent.len(),
        parent[a] == a,
        parent[b] == b,
    ensures
        root_count(parent, k) >= 2,
    decreases k,
{
    if a == k - 1 {
        lemma_one_root(parent, (k - 1) as nat, b);
    } else if b == k - 1 {
        lemma_one_root(parent, (k - 1) as nat, a);
    } else {
        lemma_two_roots(parent, (k - 1) as nat, a, b);
    }
}

/// A root is counted.
proof fn lemma_one_root(parent: Seq<usize>, k: nat, a: int)
    requires
        0 <= a < k,
        k <= parent.len(),
        parent[a] == a,
    ensures
        root_count(parent, k) >= 1,
    decreases k,
{
    if a < k - 1 {
        lemma_one_root(parent, (k - 1) as nat, a);
    }
}

/// Hanging a root below another element removes one root.
proof fn lemma_root_count_update(parent: Seq<usize>, k: nat, a: int, to: usize)
    requires
        0 <= a < parent.len(),
        k <= parent.len(),
        parent[a] == a,
        to != a,
    ensures
        root_count(parent.update(a, to), k) == root_count(parent, k) - if a < k {
            1int
        } else {
            0int
        },
    decreases k,
{
    if k > 0 {
        lemma_root_count_update(parent, (k - 1) as nat, a, to);
    }
}

/// Redirecting a pointer that stays a non-root pointer keeps the count of
/// roots.
proof fn lemma_root_count_same(parent: Seq<usize>, k: nat, c: int, to: usize)
    requires
        0 <= c < parent.len(),
        k <= parent.len(),
        parent[c] != c,
        to != c,
    ensures
        root_count(parent.update(c, to), k) == root_count(parent, k),
    decreases k,
{
    if k > 0 {
        lemma_root_count_same(parent, (k - 1) as nat, c, to);
    }
}

/// The roots and the self-representing elements are counted alike.
proof fn lemma_counts_agree(parent: Seq<usize>, rank: Seq<usize>, k: nat)
    requires
        forest_ok(parent, rank),
        k <= parent.len(),
    ensures
        sets_upto(Seq::new(parent.len(), |x: int| root_of(parent, rank, x)), k) == root_count(
            parent,
            k,
        ),
    decreases k,
{
    if k > 0 {
        lemma_counts_agree(parent, rank, (k - 1) as nat);
        lemma_root_of(parent, rank, k - 1);
    }
}

/// Pointing a non-root element at its root changes no root.
proof fn lemma_compress_keeps_roots(parent: Seq<usize>, rank: Seq<usize>, c: int, z: int)
    requires
        forest_ok(parent, rank),
        0 <= c < parent.len(),
        0 <= z < parent.len(),
        parent[c] != c,
        forest_ok(parent.update(c, root_of(parent, rank, c) as usize), rank),
    ensures
        root_of(parent.update(c, root_of(parent, rank, c) as usize), rank, z) == root_of(
            parent,
            rank,
            z,
        ),
    decreases parent.len() - rank[z],
{
    let r = root_of(parent, rank, c);
    let after = parent.update(c, r as usize);
    lemma_root_of(parent, rank, c);
    if z == c {
        lemma_compress_keeps_roots(parent, rank, c, r);
        lemma_root_of(parent, rank, r);
    } else if parent[z] != z {
        lemma_compress_keeps_roots(parent, rank, c, parent[z] as int);
    }
}

/// Hanging the root `a` below the root `s` sends the set of `a` to `s` and
/// changes no other root.
proof fn lemma_link_roots(
    parent: Seq<usize>,
    rank: Seq<usize>,
    rank_after: Seq<usize>,
    a: int,
    s: int,
    z: int,
)
    requires
        forest_ok(parent, rank),
        0 <= a < parent.len(),
        0 <= s < parent.len(),
        0 <= z < parent.len(),
        a != s,
        parent[a] == a,
        parent[s] == s,
        forest_ok(parent.update(a, s as usize), rank_after),
        forall|x: int| 0 <= x < rank.len() && x != s ==> rank_after[x] == rank[x],
        rank_after[s] >= rank[s],
    ensures
        root_of(parent.update(a, s as usize), rank_after, z) == (if root_of(parent, rank, z)
            == a {
            s
        } else {
            root_of(parent, rank, z)
        }),
    decreases parent.len() - rank[z],
{
    let after = parent.update(a, s as usize);
    if z == a {
        assert(root_of(after, rank_after, s) == s);
    } else if parent[z] != z {
        lemma_link_roots(parent, rank, rank_after, a, s, parent[z] as int);
    }
}

/// A disjoint-set forest over the elements `0..n`.
pub struct UnionFind {
    parent: Vec<usize>,
    rank: Vec<usize>,
}

impl View for UnionFind {
    type V = Seq<int>;

    /// The representative of every element.
    closed spec fn view(&self) -> Seq<int> {
        Seq::new(self.parent@.len(), |x: int| root_of(self.parent@, self.rank@, x))
    }
}

impl UnionFind {
    /// The internal invariant of the structure.
    pub closed spec fn wf(&self) -> bool {
        forest_ok(self.parent@, self.rank@)
    }

    /// The rank of every element.
    pub closed spec fn ranks(&self) -> Seq<int> {
        Seq::new(self.rank@.len(), |x: int| self.rank@[x] as int)
    }

    /// The representatives of a well-formed structure form a partition, and
    /// there is a rank for every element.
    pub proof fn lemma_partition(&self)
        requires
            self.wf(),
        ensures
            is_partition(self@),
            self.ranks().len() == self@.len(),
    {
        assert forall|x: int| 0 <= x < self@.len() implies 0 <= #[trigger] self@[x] < self@.len()
            && self@[self@[x]] == self@[x] by {
            lemma_root_of(self.parent@, self.rank@, x);
        }
    }

    /// The number of elements.
    pub fn len(&self) -> (ret: usize)
        requires
            self.wf(),
        ensures
            ret == self@.len(),
    {
        self.rank.len()
    }

    /// `n` sets of one element each, all of rank zero.
    pub fn new(n: usize) -> (ret: Self)
        ensures
            ret.wf(),
            ret@ == Seq::new(n as nat, |x: int| x),
            ret.ranks() == Seq::new(n as nat, |x: int| 0int),
    {
        let mut parent: Vec<usize> = Vec::new();
        let mut rank: Vec<usize> = Vec::new();
        let mut i: usize = 0;
        while i < n
            invariant
                i <= n,
                parent@.len() == i,
                rank@.len() == i,
                forall|x: int| 0 <= x < i ==> (#[trigger] parent@[x]) == x,
                forall|x: int| 0 <= x < i ==> (#[trigger] rank@[x]) == 0,
                rank_sum(rank@, i as nat) == 0,
                root_count(parent@, i as nat) == i,
            decreases n - i,
        {
            proof {
                lemma_sums_extend(parent@, rank@, i as nat, i, 0);
            }
            parent.push(i);
            rank.push(0);
            i += 1;
        }
        let ret = UnionFind { parent, rank };
        proof {
            assert(ret@ =~= Seq::new(n as nat, |x: int| x));
            assert(ret.ranks() =~= Seq::new(n as nat, |x: int| 0int));
        }
        ret
    }

    /// The representative of the set of `x`.  The parent pointers on the
    /// way to the representative are redirected to it; the sets and the
    /// ranks stay as they are.
    pub fn find(&mut self, x: usize) -> (ret: usize)
        requires
            old(self).wf(),
            x < old(self)@.len(),
        ensures
            final(self).wf(),
            final(self)@ == old(self)@,
            final(self).ranks() == old(self).ranks(),
            ret == old(self)@[x as int],
    {
        let n = self.parent.len();
        let mut root = x;
        while self.parent[root] != root
            invariant
                forest_ok(self.parent@, self.rank@),
                n == self.parent@.len(),
                root < n,
                x < n,
                root_of(self.parent@, self.rank@, root as int) == root_of(
                    self.parent@,
                    self.rank@,
                    x as int,
                ),
                self.parent@ == old(self).parent@,
                self.rank@ == old(self).rank@,
            decreases n - self.rank@[root as int],
        {
            root = self.parent[root];
        }
        let mut cur = x;
        while self.parent[cur] != cur
            invariant
                forest_ok(self.parent@, self.rank@),
                forest_ok(old(self).parent@, old(self).rank@),
                n == self.parent@.len(),
                n == old(self).parent@.len(),
                self.rank@ == old(self).rank@,
                cur < n,
                root < n,
                x < n,
                root == root_of(old(self).parent@, old(self).rank@, x as int),
                root == root_of(self.parent@, self.rank@, cur as int),
                forall|z: int|
                    0 <= z < n ==> root_of(self.parent@, self.rank@, z) == root_of(
                        old(self).parent@,
                        old(self).rank@,
                        z,
                    ),
            decreases n - self.rank@[cur as int],
        {
            let next = self.parent[cur];
            let ghost before = self.parent@;
            proof {
                lemma_root_of(before, self.rank@, cur as int);
                lemma_root_count_same(before, n as nat, cur as int, root);
            }
            self.parent[cur] = root;
            proof {
                assert(self.parent@ == before.update(cur as int, root));
                assert forall|z: int| 0 <= z < n implies root_of(self.parent@, self.rank@, z)
                    == root_of(old(self).parent@, old(self).rank@, z) by {
                    lemma_compress_keeps_roots(before, self.rank@, cur as int, z);
                }
            }
            cur = next;
        }
        proof {
            lemma_root_of(self.parent@, self.rank@, cur as int);
            assert(self@ =~= old(self)@);
            assert(self.ranks() =~= old(self).ranks());
        }
        root
    }

    /// Joins the sets of `x` and `y`.  Returns whether they were two sets.
    /// The representative of lower rank is put below the other one; with
    /// equal ranks the representative of `y` is put below that of `x`,
    /// whose rank grows by one.
    pub fn union(&mut self, x: usize, y: usize) -> (merged: bool)
        requires
            old(self).wf(),
            x < old(self)@.len(),
            y < old(self)@.len(),
        ensures
            final(self).wf(),
            merged == (old(self)@[x as int] != old(self)@[y as int]),
            final(self)@ == union_roots(old(self)@, old(self).ranks(), x as int, y as int),
            final(self).ranks() == union_ranks(old(self)@, old(self).ranks(), x as int, y as int),
            set_count(final(self)@) + (if merged { 1nat } else { 0nat }) == set_count(old(self)@),
    {
        let x_root = self.find(x);
        let y_root = self.find(y);
        if x_root == y_root {
            proof {
                assert(self@ =~= union_roots(old(self)@, old(self).ranks(), x as int, y as int));
            }
            return false;
        }
        let ghost parent0 = self.parent@;
        let ghost rank0 = self.rank@;
        let n = self.parent.len();
        proof {
            lemma_root_of(parent0, rank0, x as int);
            lemma_root_of(parent0, rank0, y as int);
            lemma_two_roots(parent0, n as nat, x_root as int, y_root as int);
            lemma_rank_below_sum(rank0, n as nat, x_root as int);
            lemma_counts_agree(parent0, rank0, n as nat);
        }
        let x_rank = self.rank[x_root];
        let y_rank = self.rank[y_root];
        if x_rank < y_rank {
            self.parent[x_root] = y_root;
            proof {
                lemma_root_count_update(parent0, n as nat, x_root as int, y_root);
                assert forall|z: int| 0 <= z < n implies root_of(self.parent@, self.rank@, z) == (
                if root_of(parent0, rank0, z) == x_root {
                    y_root as int
                } else {
                    root_of(parent0, rank0, z)
                }) by {
                    lemma_link_roots(parent0, rank0, rank0, x_root as int, y_root as int, z);
                }
            }
        } else if x_rank > y_rank {
            self.parent[y_root] = x_root;
            proof {
                lemma_root_count_update(parent0, n as nat, y_root as int, x_root);
                assert forall|z: int| 0 <= z < n implies root_of(self.parent@, self.rank@, z) == (
                if root_of(parent0, rank0, z) == y_root {
                    x_root as int
                } else {
                    root_of(parent0, rank0, z)
                }) by {
                    lemma_link_roots(parent0, rank0, rank0, y_root as int, x_root as int, z);
                }
            }
        } else {
            self.parent[y_root] = x_root;
            self.rank[x_root] = x_rank + 1;
            proof {
                lemma_root_count_update(parent0, n as nat, y_root as int, x_root);
                lemma_rank_sum_update(rank0, n as nat, x_root as int, (x_rank + 1) as usize);
                assert forall|z: int|
                    0 <= z < n && (#[trigger] self.parent@[z]) != z implies self.rank@[z]
                    < self.rank@[self.parent@[z] as int] by {
                    if z != y_root {
                        assert(parent0[z] != z);
                    }
                }
                assert forall|z: int| 0 <= z < n implies root_of(self.parent@, self.rank@, z) == (
                if root_of(parent0, rank0, z) == y_root {
                    x_root as int
                } else {
                    root_of(parent0, rank0, z)
                }) by {
                    lemma_link_roots(parent0, rank0, self.rank@, y_root as int, x_root as int, z);
                }
            }
        }
        proof {
            lemma_counts_agree(self.parent@, self.rank@, n as nat);
            assert(self@ =~= union_roots(old(self)@, old(self).ranks(), x as int, y as int));
            assert(self.ranks() =~= union_ranks(old(self)@, old(self).ranks(), x as int, y as int));
        }
        true
    }
}

/// Of the representatives of `x` and `y`, the one that represents the
/// joined set: the one of higher rank, or that of `x` if the ranks are equal.
pub open spec fn survivor(roots: Seq<int>, ranks: Seq<int>, x: int, y: int) -> int {
    if ranks[roots[x]] < ranks[roots[y]] {
        roots[y]
    } else {
        roots[x]
    }
}

/// Of the representatives of `x` and `y`, the one that is put below the
/// other.
pub open spec fn absorbed(roots: Seq<int>, ranks: Seq<int>, x: int, y: int) -> int {
    if ranks[roots[x]] < ranks[roots[y]] {
        roots[x]
    } else {
        roots[y]
    }
}

/// The representatives after the sets of `x` and `y` have been joined.
pub open spec fn union_roots(roots: Seq<int>, ranks: Seq<int>, x: int, y: int) -> Seq<int> {
    if roots[x] == roots[y] {
        roots
    } else {
        relabel(roots, absorbed(roots, ranks, x, y), survivor(roots, ranks, x, y))
    }
}

/// The ranks after the sets of `x` and `y` have been joined.
pub open spec fn union_ranks(roots: Seq<int>, ranks: Seq<int>, x: int, y: int) -> Seq<int> {
    if roots[x] != roots[y] && ranks[roots[x]] == ranks[roots[y]] {
        ranks.update(roots[x], ranks[roots[x]] + 1)
    } else {
        ranks
    }
}

/// Appending an element leaves the sums over the elements before it alone.
proof fn lemma_sums_extend(parent: Seq<usize>, rank: Seq<usize>, k: nat, p: usize, r: usize)
    requires
        k <= parent.len(),
        k <= rank.len(),
    ensures
        rank_sum(rank.push(r), k) == rank_sum(rank, k),
        root_count(parent.push(p), k) == root_count(parent, k),
    decreases k,
{
    if k > 0 {
        lemma_sums_extend(parent, rank, (k - 1) as nat, p, r);
    }
}

} // verus!
