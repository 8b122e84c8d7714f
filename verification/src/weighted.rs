//! Weighted undirected graphs and their edge lists.
//!
//! A cell holds the weight of an edge, or nothing where there is no edge.

use crate::kruskal::edges_in_range;
use crate::matrix::AdjMatrix;
use std::collections::VecDeque;
use vstd::prelude::*;

verus! {

/// Square table of optional edge weights.
pub struct Graph(pub Vec<Vec<Option<u32>>>);

impl View for Graph {
    type V = Seq<Seq<Option<u32>>>;

    open spec fn view(&self) -> Seq<Seq<Option<u32>>> {
        Seq::new(self.0@.len(), |i: int| self.0@[i]@)
    }
}

impl Clone for Graph {
    fn clone(&self) -> (ret: Self)
        ensures
            ret@ == self@,
    {
        let ret = Graph(self.0.clone());
        assert(ret@ =~~= self@);
        ret
    }
}

/// The edges `(i, t, weight)` of row `i` with `i < t < k`, by increasing `t`.
pub open spec fn row_edges(g: Seq<Seq<Option<u32>>>, i: int, k: nat) -> Seq<(usize, usize, u32)>
    decreases k,
{
    if k == 0 {
        Seq::empty()
    } else {
        let rest = row_edges(g, i, (k - 1) as nat);
        match g[i][k - 1] {
            Some(w) => if i < k - 1 {
                rest.push((i as usize, (k - 1) as usize, w))
            } else {
                rest
            },
            None => rest,
        }
    }
}

/// The edges above the diagonal of the rows below `i`, row by row.
pub open spec fn upper_edges_upto(g: Seq<Seq<Option<u32>>>, i: nat) -> Seq<(usize, usize, u32)>
    decreases i,
{
    if i == 0 {
        Seq::empty()
    } else {
        upper_edges_upto(g, (i - 1) as nat) + row_edges(g, i - 1, g.len())
    }
}

/// The undirected edges of the graph: the cells above the diagonal that
/// hold a weight, row by row.
pub open spec fn upper_edges(g: Seq<Seq<Option<u32>>>) -> Seq<(usize, usize, u32)> {
    upper_edges_upto(g, g.len())
}

/// The weights never fall along the list.
pub open spec fn sorted_by_weight(edges: Seq<(usize, usize, u32)>) -> bool {
    forall|p: int, q: int| 0 <= p < q < edges.len() ==> (#[trigger] edges[p]).2 <= (
    #[trigger] edges[q]).2
}

/// Two items of equal weight stand in `after` in the order in which they
/// stand in `before`.
pub open spec fn keeps_order_of_equals(
    before: Seq<(usize, usize, u32)>,
    after: Seq<(usize, usize, u32)>,
) -> bool {
    forall|p: int, q: int|
        0 <= p < q < before.len() && (#[trigger] before[p]).2 == (#[trigger] before[q]).2
            ==> exists|r: int, s: int|
            0 <= r < s < after.len() && #[trigger] after[r] == before[p] && #[trigger] after[s]
                == before[q]
}

/// Sorts the edges by weight with `sort_by_key` of the standard library's
/// slices.  The contract states what its documentation promises: the result
/// is a rearrangement of the input in ascending order of the key, and the
/// sort is stable, so items with equal keys keep their order.
#[verifier::external_body]
fn sort_by_weight(edges: &mut Vec<(usize, usize, u32)>)
    ensures
        final(edges)@.to_multiset() == old(edges)@.to_multiset(),
        sorted_by_weight(final(edges)@),
        keeps_order_of_equals(old(edges)@, final(edges)@),
{
    edges.sort_by_key(|edge| edge.2);
}

/// The weight that the drafts give to the edge between `a` and `b`, for
/// `a < b`: the draft at `(a, b)`, doubled where the draft at `(b, a)` is
/// zero; zero where the draft at `(a, b)` is zero.
pub open spec fn draft_weight(c: Seq<Seq<int>>, a: int, b: int) -> int {
    let present = if c[a][b] > 0 { 1int } else { 0int };
    let mirrored = if c[b][a] > 0 { 1int } else { 0int };
    let lone = if present != mirrored { 1int } else { 0int };
    c[a][b] * (present + lone)
}

/// The cell `(i, j)` of the graph that the drafts give: nothing on the
/// diagonal; elsewhere the weight of the edge between `i` and `j`, or
/// nothing where that weight is zero.  So every cell holds nothing or a
/// weight of at least one.
pub open spec fn weighed_cell(c: Seq<Seq<int>>, i: int, j: int) -> Option<u32> {
    if i == j {
        None
    } else {
        let w = if i < j { draft_weight(c, i, j) } else { draft_weight(c, j, i) };
        if w != 0 {
            Some(w as u32)
        } else {
            None
        }
    }
}

/// Every weight that the drafts give fits the weight type.
pub open spec fn drafts_fit(c: Seq<Seq<int>>) -> bool {
    forall|a: int, b: int| 0 <= a < b < c.len() ==> #[trigger] draft_weight(c, a, b) <= u32::MAX
}

/// Drafts that can be doubled within the weight type give weights that fit
/// it.
pub proof fn lemma_small_drafts_fit(c: Seq<Seq<int>>)
    requires
        forall|a: int, b: int|
            0 <= a < c.len() && 0 <= b < c.len() ==> 0 <= #[trigger] c[a][b] && 2 * c[a][b]
                <= u32::MAX,
    ensures
        drafts_fit(c),
{
    assert forall|a: int, b: int| 0 <= a < b < c.len() implies #[trigger] draft_weight(c, a, b)
        <= u32::MAX by {
        let draft = c[a][b];
        let factor = (if draft > 0 { 1int } else { 0int }) + (if (draft > 0) != (c[b][a] > 0) {
            1int
        } else {
            0int
        });
        assert(draft * factor <= 2 * draft) by (nonlinear_arith)
            requires
                0 <= draft,
                0 <= factor <= 2,
        ;
    }
}

impl Graph {
    /// The table is square.
    pub open spec fn wf(&self) -> bool {
        forall|i: int| 0 <= i < self@.len() ==> (#[trigger] self@[i]).len() == self@.len()
    }

    /// The symmetric weighted graph that a matrix of directed weight drafts
    /// gives.  Only the drafts above the diagonal become weights; a draft
    /// whose mirror image is zero counts twice.  No vertex has an edge to
    /// itself.
    pub fn from_drafts(drafts: &AdjMatrix) -> (ret: Graph)
        requires
            drafts.wf(),
            drafts_fit(drafts@),
        ensures
            ret.wf(),
            ret@.len() == drafts.size(),
            forall|i: int, j: int|
                0 <= i < drafts.size() && 0 <= j < drafts.size() ==> #[trigger] ret@[i][j]
                    == weighed_cell(drafts@, i, j),
            forall|i: int, j: int|
                0 <= i < drafts.size() && 0 <= j < drafts.size() ==> #[trigger] ret@[i][j]
                    == ret@[j][i],
            forall|i: int, j: int|
                0 <= i < drafts.size() && 0 <= j < drafts.size() ==> match #[trigger] ret@[i][j] {
                    Some(w) => w >= 1,
                    None => true,
                },
    {
        let n = drafts.0.len();
        let mut rows: Vec<Vec<Option<u32>>> = Vec::new();
        let mut i: usize = 0;
        while i < n
            invariant
                drafts.wf(),
                drafts_fit(drafts@),
                n == drafts.size(),
                n == drafts@.len(),
                i <= n,
                rows@.len() == i,
                forall|r: int| 0 <= r < i ==> (#[trigger] rows@[r])@.len() == n,
                forall|r: int, c: int|
                    0 <= r < i && 0 <= c < n ==> (#[trigger] rows@[r]@[c]) == weighed_cell(
                        drafts@,
                        r,
                        c,
                    ),
            decreases n - i,
        {
            let mut row: Vec<Option<u32>> = Vec::new();
            let mut j: usize = 0;
            while j < n
                invariant
                    drafts.wf(),
                    drafts_fit(drafts@),
                    n == drafts.size(),
                    n == drafts@.len(),
                    i < n,
                    j <= n,
                    row@.len() == j,
                    forall|c: int|
                        0 <= c < j ==> (#[trigger] row@[c]) == weighed_cell(drafts@, i as int, c),
                decreases n - j,
            {
                let cell = if i == j {
                    None
                } else {
                    let (a, b) = if i < j { (i, j) } else { (j, i) };
                    let draft = drafts.entry(a, b);
                    let present: u32 = if draft > 0 { 1 } else { 0 };
                    let mirrored: u32 = if drafts.entry(b, a) > 0 { 1 } else { 0 };
                    let lone: u32 = if present != mirrored { 1 } else { 0 };
                    assert(draft_weight(drafts@, a as int, b as int) <= u32::MAX);
                    let weight = draft * (present + lone);
                    if weight != 0 {
                        Some(weight)
                    } else {
                        None
                    }
                };
                row.push(cell);
                j += 1;
            }
            rows.push(row);
            i += 1;
        }
        let ret = Graph(rows);
        assert(ret@.len() == n);
        proof {
            assert forall|i: int, j: int| 0 <= i < n && 0 <= j < n implies match #[trigger] ret@[i][j] {
                Some(w) => w >= 1,
                None => true,
            } by {
                if i != j {
                    let (a, b) = if i < j { (i, j) } else { (j, i) };
                    assert(0 <= draft_weight(drafts@, a, b) <= u32::MAX) by {
                        assert(drafts@[a][b] >= 0);
                    }
                }
            }
        }
        ret
    }

    /// The queue of candidate edges for a spanning forest: the undirected
    /// edges `(u, v, weight)` with `u < v`, in ascending order of weight,
    /// edges of equal weight in the order of their cells.
    pub fn sorted_edges(&self) -> (queue: VecDeque<(usize, usize, u32)>)
        requires
            self.wf(),
        ensures
            queue@.to_multiset() == upper_edges(self@).to_multiset(),
            sorted_by_weight(queue@),
            keeps_order_of_equals(upper_edges(self@), queue@),
            edges_in_range(queue@, self@.len()),
    {
        let n = self.0.len();
        let mut edges: Vec<(usize, usize, u32)> = Vec::new();
        let mut i: usize = 0;
        while i < n
            invariant
                self.wf(),
                n == self@.len(),
                i <= n,
                edges@ == upper_edges_upto(self@, i as nat),
                edges_in_range(edges@, n as nat),
            decreases n - i,
        {
            let ghost before = edges@;
            let mut j: usize = 0;
            while j < n
                invariant
                    self.wf(),
                    n == self@.len(),
                    i < n,
                    j <= n,
                    edges@ == before + row_edges(self@, i as int, j as nat),
                    edges_in_range(edges@, n as nat),
                decreases n - j,
            {
                assert(self@[i as int].len() == n);
                if let Some(weight) = self.0[i][j] {
                    if i < j {
                        edges.push((i, j, weight));
                    }
                }
                j += 1;
            }
            i += 1;
        }
        let ghost listed = edges@;
        sort_by_weight(&mut edges);
        proof {
            assert forall|q: int| 0 <= q < edges@.len() implies (#[trigger] edges@[q]).0 < n
                && edges@[q].1 < n by {
                edges@.to_multiset_ensures();
                listed.to_multiset_ensures();
                assert(edges@.contains(edges@[q]));
                assert(listed.to_multiset().count(edges@[q]) > 0);
                assert(listed.contains(edges@[q]));
                let r = choose|r: int| 0 <= r < listed.len() && listed[r] == edges@[q];
                assert(listed[r].0 < n);
            }
        }
        let mut queue: VecDeque<(usize, usize, u32)> = VecDeque::new();
        let mut k: usize = 0;
        while k < edges.len()
            invariant
                k <= edges@.len(),
                queue@ == edges@.take(k as int),
            decreases edges@.len() - k,
        {
            queue.push_back(edges[k]);
            assert(edges@.take(k + 1) =~= edges@.take(k as int).push(edges@[k as int]));
            k += 1;
        }
        assert(edges@.take(k as int) =~= edges@);
        queue
    }
}

} // verus!
