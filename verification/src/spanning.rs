//! What holds of the forest that the Kruskal construction builds.
//!
//! The sets of the construction are the trees of its forest: two vertices
//! lie in one set if and only if a path along edges of the forest joins
//! them.  So an edge is only accepted if it closes no cycle.
//!
//! The construction is followed along the whole list of candidate edges:
//! the queue is what is left of the list, the pending edge is the one
//! before the queue, and every edge before that has been settled.  Once the
//! construction has ended, the forest has one edge less than there are
//! vertices if and only if the candidate edges connect the graph.

use crate::kruskal::{
    consistent, edges_in_range, pulls, queue_after, settled, spanning, state_after, Forest,
};
use crate::union_find::{lemma_single_set, lemma_some_set, lemma_union_roots, set_count};
use vstd::prelude::*;

verus! {

/// Some edge of the list joins `a` and `b`, in either direction.
pub open spec fn linked(edges: Seq<(usize, usize, u32)>, a: int, b: int) -> bool {
    exists|q: int|
        0 <= q < edges.len() && (((#[trigger] edges[q]).0 == a && edges[q].1 == b) || (edges[q].0
            == b && edges[q].1 == a))
}

/// A path of exactly `hops` edges of the list leads from `a` to `b`.
pub open spec fn connects_within(edges: Seq<(usize, usize, u32)>, a: int, b: int, hops: nat) -> bool
    decreases hops,
{
    if hops == 0 {
        a == b
    } else {
        exists|c: int|
            connects_within(edges, a, c, (hops - 1) as nat) && #[trigger] linked(edges, c, b)
    }
}

/// Some path along edges of the list leads from `a` to `b`.
pub open spec fn connects(edges: Seq<(usize, usize, u32)>, a: int, b: int) -> bool {
    exists|hops: nat| #[trigger] connects_within(edges, a, b, hops)
}

/// The edges connect every two of the vertices `0..n`.
pub open spec fn connected_graph(n: nat, edges: Seq<(usize, usize, u32)>) -> bool {
    forall|a: int, b: int| 0 <= a < n && 0 <= b < n ==> #[trigger] connects(edges, a, b)
}

/// The two ends of the edge lie in one set.
pub open spec fn ends_joined(roots: Seq<int>, e: (usize, usize, u32)) -> bool {
    roots[e.0 as int] == roots[e.1 as int]
}

/// Every set is held together by edges of the forest.
pub open spec fn tree_links(f: Forest) -> bool {
    forall|a: int, b: int|
        0 <= a < f.roots.len() && 0 <= b < f.roots.len() && f.roots[a] == f.roots[b]
            ==> #[trigger] connects(f.tree, a, b)
}

/// The sets are the trees of the forest: every set is held together by
/// edges of the forest, and the two ends of every edge of the forest are
/// vertices that lie in one set.
pub open spec fn knit(f: Forest) -> bool {
    &&& tree_links(f)
    &&& edges_in_range(f.tree, f.roots.len())
    &&& forall|t: int| 0 <= t < f.tree.len() ==> ends_joined(f.roots, #[trigger] f.tree[t])
}

/// How many edges of the list have been settled when `k` edges have left
/// the queue.
pub open spec fn settled_count(k: int, f: Forest) -> int {
    if f.current is Some {
        k - 1
    } else {
        k
    }
}

/// The construction follows the list `all` of candidate edges and has taken
/// `k` of them from the queue: the queue is the rest of the list, the
/// pending edge is the one taken last, the ends of every settled edge lie in
/// one set, every edge of the forest is an edge of the list, and the sets
/// are the trees of the forest.
pub open spec fn tracks(
    all: Seq<(usize, usize, u32)>,
    k: int,
    queue: Seq<(usize, usize, u32)>,
    f: Forest,
) -> bool {
    &&& 0 <= k <= all.len()
    &&& queue == all.skip(k)
    &&& match f.current {
        Some(e) => k >= 1 && e == all[k - 1],
        None => true,
    }
    &&& forall|i: int| 0 <= i < settled_count(k, f) ==> ends_joined(f.roots, #[trigger] all[i])
    &&& forall|t: int| 0 <= t < f.tree.len() ==> all.contains(#[trigger] f.tree[t])
    &&& edges_in_range(all, f.roots.len())
    &&& knit(f)
}

/// The construction has ended: the forest spans the graph, or no edge is
/// left.
pub open spec fn ended(queue: Seq<(usize, usize, u32)>, f: Forest) -> bool {
    spanning(f) || (queue.len() == 0 && f.current is None)
}

/// Paths can be put end to end.
proof fn lemma_connects_chain(
    edges: Seq<(usize, usize, u32)>,
    a: int,
    b: int,
    c: int,
    h1: nat,
    h2: nat,
)
    requires
        connects_within(edges, a, b, h1),
        connects_within(edges, b, c, h2),
    ensures
        connects_within(edges, a, c, h1 + h2),
    decreases h2,
{
    if h2 > 0 {
        let d = choose|d: int|
            connects_within(edges, b, d, (h2 - 1) as nat) && #[trigger] linked(edges, d, c);
        lemma_connects_chain(edges, a, b, d, h1, (h2 - 1) as nat);
        assert(connects_within(edges, a, d, (h1 + h2 - 1) as nat) && linked(edges, d, c));
    }
}

/// An edge is a path of one edge.
proof fn lemma_connects_edge(edges: Seq<(usize, usize, u32)>, a: int, b: int)
    requires
        linked(edges, a, b),
    ensures
        connects_within(edges, a, b, 1),
{
    assert(connects_within(edges, a, a, 0) && linked(edges, a, b));
}

/// A path can be walked backwards.
proof fn lemma_connects_back(edges: Seq<(usize, usize, u32)>, a: int, b: int, hops: nat)
    requires
        connects_within(edges, a, b, hops),
    ensures
        connects_within(edges, b, a, hops),
    decreases hops,
{
    if hops > 0 {
        let c = choose|c: int|
            connects_within(edges, a, c, (hops - 1) as nat) && #[trigger] linked(edges, c, b);
        lemma_connects_back(edges, a, c, (hops - 1) as nat);
        assert(linked(edges, b, c)) by {
            let q = choose|q: int|
                0 <= q < edges.len() && (((#[trigger] edges[q]).0 == c && edges[q].1 == b) || (
                edges[q].0 == b && edges[q].1 == c));
            assert((edges[q].0 == b && edges[q].1 == c) || (edges[q].0 == c && edges[q].1 == b));
        }
        lemma_connects_edge(edges, b, c);
        lemma_connects_chain(edges, b, c, a, 1, (hops - 1) as nat);
    }
}

/// A path along edges of one list is a path along the edges of any list
/// that links all pairs which the first list links.
proof fn lemma_connects_more(
    fewer: Seq<(usize, usize, u32)>,
    more: Seq<(usize, usize, u32)>,
    a: int,
    b: int,
    hops: nat,
)
    requires
        connects_within(fewer, a, b, hops),
        forall|x: int, y: int| #[trigger] linked(fewer, x, y) ==> linked(more, x, y),
    ensures
        connects_within(more, a, b, hops),
    decreases hops,
{
    if hops > 0 {
        let c = choose|c: int|
            connects_within(fewer, a, c, (hops - 1) as nat) && #[trigger] linked(fewer, c, b);
        lemma_connects_more(fewer, more, a, c, (hops - 1) as nat);
        assert(connects_within(more, a, c, (hops - 1) as nat) && linked(more, c, b));
    }
}

/// Where the ends of every edge lie in one set, the ends of every path do.
proof fn lemma_path_in_one_set(
    edges: Seq<(usize, usize, u32)>,
    roots: Seq<int>,
    a: int,
    b: int,
    hops: nat,
)
    requires
        connects_within(edges, a, b, hops),
        forall|q: int| 0 <= q < edges.len() ==> ends_joined(roots, #[trigger] edges[q]),
    ensures
        roots[a] == roots[b],
    decreases hops,
{
    if hops > 0 {
        let c = choose|c: int|
            connects_within(edges, a, c, (hops - 1) as nat) && #[trigger] linked(edges, c, b);
        lemma_path_in_one_set(edges, roots, a, c, (hops - 1) as nat);
        let q = choose|q: int|
            0 <= q < edges.len() && (((#[trigger] edges[q]).0 == c && edges[q].1 == b) || (
            edges[q].0 == b && edges[q].1 == c));
        assert(ends_joined(roots, edges[q]));
    }
}

/// Every step keeps the construction on the list of candidate edges: a
/// step that pulls an edge takes one more edge from the list.
pub proof fn lemma_step_tracks(
    all: Seq<(usize, usize, u32)>,
    k: int,
    queue: Seq<(usize, usize, u32)>,
    f: Forest,
)
    requires
        consistent(f),
        tracks(all, k, queue, f),
    ensures
        tracks(
            all,
            if pulls(queue, f) {
                k + 1
            } else {
                k
            },
            queue_after(queue, f),
            state_after(queue, f),
        ),
        !pulls(queue, f) ==> ended(queue_after(queue, f), state_after(queue, f)),
{
    let n = f.roots.len();
    let after = state_after(queue, f);
    if spanning(f) {
        lemma_single_set(f.roots);
        assert forall|i: int| 0 <= i < settled_count(k, after) implies ends_joined(
            after.roots,
            #[trigger] all[i],
        ) by {
            assert(f.roots[all[i].0 as int] == f.roots[all[i].1 as int]);
        }
    } else {
        lemma_settled_tracks(all, k, f);
        lemma_settled_knit(f);
        if queue.len() > 0 {
            assert(queue[0] == all[k]);
            assert(queue.drop_first() =~= all.skip(k + 1));
        }
    }
}

/// Settling the pending edge keeps the sets the trees of the forest.
pub proof fn lemma_settled_knit(f: Forest)
    requires
        consistent(f),
        knit(f),
    ensures
        settled(f).roots.len() == f.roots.len(),
        knit(settled(f)),
{
    let g = settled(f);
    let n = f.roots.len();
    match f.current {
        Some(e) => {
            let x = e.0 as int;
            let y = e.1 as int;
            if f.roots[x] != f.roots[y] {
                lemma_union_roots(f.roots, f.ranks, x, y);
                assert forall|t: int| 0 <= t < g.tree.len() implies ends_joined(
                    g.roots,
                    #[trigger] g.tree[t],
                ) by {
                    if t < f.tree.len() {
                        assert(g.tree[t] == f.tree[t]);
                        assert(ends_joined(f.roots, f.tree[t]));
                        assert(f.roots[f.tree[t].0 as int] == f.roots[f.tree[t].1 as int]);
                    }
                }
                // the forest with the new edge links what the old forest
                // linked
                assert forall|p: int, q: int| #[trigger] linked(f.tree, p, q) implies linked(
                    g.tree,
                    p,
                    q,
                ) by {
                    let r = choose|r: int|
                        0 <= r < f.tree.len() && (((#[trigger] f.tree[r]).0 == p && f.tree[r].1
                            == q) || (f.tree[r].0 == q && f.tree[r].1 == p));
                    assert(g.tree[r] == f.tree[r]);
                }
                assert(linked(g.tree, x, y)) by {
                    assert(g.tree[f.tree.len() as int] == e);
                }
                lemma_connects_edge(g.tree, x, y);
                assert forall|a: int, b: int|
                    0 <= a < n && 0 <= b < n && g.roots[a] == g.roots[b] implies #[trigger] connects(
                    g.tree,
                    a,
                    b,
                ) by {
                    if f.roots[a] == f.roots[b] {
                        assert(connects(f.tree, a, b));
                        let h = choose|h: nat| #[trigger] connects_within(f.tree, a, b, h);
                        lemma_connects_more(f.tree, g.tree, a, b, h);
                    } else {
                        // one of the two lies with `x`, the other with `y`
                        let (ax, by) = if f.roots[a] == f.roots[x] { (a, b) } else { (b, a) };
                        assert(f.roots[ax] == f.roots[x] && f.roots[by] == f.roots[y]);
                        assert(connects(f.tree, ax, x));
                        assert(connects(f.tree, y, by));
                        let h1 = choose|h: nat| #[trigger] connects_within(f.tree, ax, x, h);
                        let h2 = choose|h: nat| #[trigger] connects_within(f.tree, y, by, h);
                        lemma_connects_more(f.tree, g.tree, ax, x, h1);
                        lemma_connects_more(f.tree, g.tree, y, by, h2);
                        lemma_connects_chain(g.tree, ax, x, y, h1, 1);
                        lemma_connects_chain(g.tree, ax, y, by, h1 + 1, h2);
                        if ax != a {
                            lemma_connects_back(g.tree, ax, by, h1 + 1 + h2);
                        }
                    }
                }
            }
        },
        None => {},
    }
}

/// A construction starts with sets that are the trees of its empty forest.
pub proof fn lemma_start_knit(n: nat)
    ensures
        knit(
            Forest {
                current: None,
                tree: Seq::empty(),
                roots: Seq::new(n, |x: int| x),
                ranks: Seq::new(n, |x: int| 0int),
            },
        ),
{
    let f = Forest {
        current: None,
        tree: Seq::empty(),
        roots: Seq::new(n, |x: int| x),
        ranks: Seq::new(n, |x: int| 0int),
    };
    assert forall|a: int, b: int|
        0 <= a < f.roots.len() && 0 <= b < f.roots.len() && f.roots[a] == f.roots[b]
            implies #[trigger] connects(f.tree, a, b) by {
        assert(connects_within(f.tree, a, b, 0));
    }
}

/// Every step keeps the sets the trees of the forest.
pub proof fn lemma_step_knit(queue: Seq<(usize, usize, u32)>, f: Forest)
    requires
        consistent(f),
        knit(f),
    ensures
        knit(state_after(queue, f)),
{
    lemma_settled_knit(f);
}

/// Two vertices lie in one set if and only if a path along edges of the
/// forest joins them.
pub proof fn lemma_sets_are_trees(f: Forest, a: int, b: int)
    requires
        knit(f),
        0 <= a < f.roots.len(),
        0 <= b < f.roots.len(),
    ensures
        f.roots[a] == f.roots[b] <==> connects(f.tree, a, b),
{
    if connects(f.tree, a, b) {
        let h = choose|h: nat| #[trigger] connects_within(f.tree, a, b, h);
        lemma_path_in_one_set(f.tree, f.roots, a, b, h);
    }
}

/// A step accepts at most the pending edge, and only if no path along
/// edges of the forest joins its two ends: no accepted edge closes a cycle.
pub proof fn lemma_accepted_edge_closes_no_cycle(queue: Seq<(usize, usize, u32)>, f: Forest)
    requires
        consistent(f),
        knit(f),
    ensures
        state_after(queue, f).tree == f.tree || match f.current {
            Some(e) => !connects(f.tree, e.0 as int, e.1 as int) && state_after(queue, f).tree
                == f.tree.push(e),
            None => false,
        },
{
    match f.current {
        Some(e) => {
            lemma_sets_are_trees(f, e.0 as int, e.1 as int);
        },
        None => {},
    }
}

/// Settling the pending edge keeps the sets in step with the settled edges
/// of the list, and the forest within the list.
proof fn lemma_settled_tracks(all: Seq<(usize, usize, u32)>, k: int, f: Forest)
    requires
        consistent(f),
        0 <= k <= all.len(),
        match f.current {
            Some(e) => k >= 1 && e == all[k - 1],
            None => true,
        },
        forall|i: int| 0 <= i < settled_count(k, f) ==> ends_joined(f.roots, #[trigger] all[i]),
        forall|t: int| 0 <= t < f.tree.len() ==> all.contains(#[trigger] f.tree[t]),
        edges_in_range(all, f.roots.len()),
    ensures
        forall|i: int| 0 <= i < k ==> ends_joined(settled(f).roots, #[trigger] all[i]),
        forall|t: int| 0 <= t < settled(f).tree.len() ==> all.contains(#[trigger] settled(f).tree[t]),
{
    let g = settled(f);
    match f.current {
        Some(e) => {
            let x = e.0 as int;
            let y = e.1 as int;
            assert(all[k - 1] == e);
            if f.roots[x] != f.roots[y] {
                lemma_union_roots(f.roots, f.ranks, x, y);
                assert forall|i: int| 0 <= i < k implies ends_joined(g.roots, #[trigger] all[i]) by {
                    if i < k - 1 {
                        assert(ends_joined(f.roots, all[i]));
                        assert(f.roots[all[i].0 as int] == f.roots[all[i].1 as int]);
                    }
                }
                assert forall|t: int| 0 <= t < g.tree.len() implies all.contains(
                    #[trigger] g.tree[t],
                ) by {
                    if t < f.tree.len() {
                        assert(g.tree[t] == f.tree[t]);
                    }
                }
            } else {
                assert forall|i: int| 0 <= i < k implies ends_joined(g.roots, #[trigger] all[i]) by {
                    if i < k - 1 {
                        assert(ends_joined(f.roots, all[i]));
                    }
                }
            }
        },
        None => {},
    }
}

/// A construction starts on its list of candidate edges.
pub proof fn lemma_start_tracks(all: Seq<(usize, usize, u32)>, n: nat)
    requires
        edges_in_range(all, n),
    ensures
        tracks(
            all,
            0,
            all,
            Forest {
                current: None,
                tree: Seq::empty(),
                roots: Seq::new(n, |x: int| x),
                ranks: Seq::new(n, |x: int| 0int),
            },
        ),
{
    let f = Forest {
        current: None,
        tree: Seq::empty(),
        roots: Seq::new(n, |x: int| x),
        ranks: Seq::new(n, |x: int| 0int),
    };
    assert(all.skip(0) =~= all);
    lemma_start_knit(n);
}

/// Once the construction has ended, the forest has one edge less than
/// there are vertices if and only if the candidate edges connect the graph.
/// It never has more.
pub proof fn lemma_spanning_iff_connected(
    all: Seq<(usize, usize, u32)>,
    k: int,
    queue: Seq<(usize, usize, u32)>,
    f: Forest,
)
    requires
        consistent(f),
        tracks(all, k, queue, f),
        ended(queue, f),
    ensures
        f.tree.len() <= f.roots.len() - 1,
        f.tree.len() == f.roots.len() - 1 <==> connected_graph(f.roots.len(), all),
{
    let n = f.roots.len();
    lemma_some_set(f.roots);
    lemma_single_set(f.roots);
    if spanning(f) {
        assert forall|p: int, q: int| #[trigger] linked(f.tree, p, q) implies linked(all, p, q) by {
            let r = choose|r: int|
                0 <= r < f.tree.len() && (((#[trigger] f.tree[r]).0 == p && f.tree[r].1 == q) || (
                f.tree[r].0 == q && f.tree[r].1 == p));
            assert(all.contains(f.tree[r]));
            let s = choose|s: int| 0 <= s < all.len() && all[s] == f.tree[r];
            assert((all[s].0 == p && all[s].1 == q) || (all[s].0 == q && all[s].1 == p));
        }
        assert forall|a: int, b: int| 0 <= a < n && 0 <= b < n implies #[trigger] connects(
            all,
            a,
            b,
        ) by {
            assert(f.roots[a] == f.roots[b]);
            assert(connects(f.tree, a, b));
            let h = choose|h: nat| #[trigger] connects_within(f.tree, a, b, h);
            lemma_connects_more(f.tree, all, a, b, h);
        }
    } else if connected_graph(n, all) {
        assert(queue.len() == 0 && f.current is None);
        assert(k == all.len());
        assert forall|a: int, b: int| 0 <= a < n && 0 <= b < n implies #[trigger] f.roots[a]
            == #[trigger] f.roots[b] by {
            assert(connects(all, a, b));
            let h = choose|h: nat| #[trigger] connects_within(all, a, b, h);
            lemma_path_in_one_set(all, f.roots, a, b, h);
        }
        assert(set_count(f.roots) == 1);
    }
}

} // verus!
