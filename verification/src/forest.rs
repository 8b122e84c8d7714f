//! What holds of the forest that a traversal builds.
//!
//! A traversal that has finished has drawn every vertex.  It has drawn
//! every vertex exactly once unless some vertex that was seeded to start a
//! new tree is found again later, through an edge from a vertex that was
//! not drawn before it: such a vertex enters the forest a second time.

use crate::search::{
    advance, draw_at, first_pair, first_undrawn, frontier_in_range, has_child, has_work,
    pairs_in_range, scan, start_at, Search, Traversal,
};
use vstd::prelude::*;
use vstd::set_lib::{lemma_int_range, lemma_len_subset, set_int_range};

verus! {

/// No two pairs of the list have the same child.
pub open spec fn distinct_children(pairs: Seq<(usize, usize)>) -> bool {
    forall|p: int, q: int|
        0 <= p < q < pairs.len() ==> (#[trigger] pairs[p]).1 != (#[trigger] pairs[q]).1
}

/// No two items of the list are equal.
pub open spec fn distinct(items: Seq<usize>) -> bool {
    forall|p: int, q: int| 0 <= p < q < items.len() ==> #[trigger] items[p] != #[trigger] items[q]
}

/// The forest pair at index `k` starts a new tree, and an edge leads to its
/// vertex from the vertex `x`, which was not drawn before it.
pub open spec fn returns_to(m: Seq<Seq<int>>, tree: Seq<(usize, usize)>, k: int, x: int) -> bool {
    &&& 0 < k < tree.len()
    &&& tree[k].0 == tree[k].1
    &&& 0 <= x < m.len()
    &&& m[x][tree[k].1 as int] == 1
    &&& !has_child(tree.take(k), x as usize)
}

/// No vertex that starts a new tree has an edge coming in from a vertex
/// that was not drawn before it.
pub open spec fn roots_unreturned(m: Seq<Seq<int>>, tree: Seq<(usize, usize)>) -> bool {
    forall|k: int, x: int| !#[trigger] returns_to(m, tree, k, x)
}

/// The vertex `v` is the child of exactly one forest pair.
pub open spec fn drawn_once(tree: Seq<(usize, usize)>, v: usize) -> bool {
    exists|k: int|
        0 <= k < tree.len() && (#[trigger] tree[k]).1 == v && forall|j: int|
            0 <= j < tree.len() && (#[trigger] tree[j]).1 == v ==> j == k
}

/// The bookkeeping of a traversal in which no vertex was drawn twice: the
/// frontier holds discovered vertices that were not drawn, every discovered
/// vertex waits in the frontier or was drawn, and a drawn vertex that was
/// never discovered starts a tree.
pub open spec fn exact(t: Traversal) -> bool {
    &&& distinct_children(t.tree)
    &&& distinct(t.frontier)
    &&& forall|q: int|
        0 <= q < t.frontier.len() ==> has_child(t.visited, #[trigger] t.frontier[q]) && !has_child(
            t.tree,
            t.frontier[q],
        )
    &&& forall|k: int|
        0 <= k < t.tree.len() && !has_child(t.visited, (#[trigger] t.tree[k]).1) ==> k > 0
            && t.tree[k].0 == t.tree[k].1
    &&& forall|q: int|
        0 <= q < t.visited.len() ==> t.frontier.contains((#[trigger] t.visited[q]).1) || has_child(
            t.tree,
            t.visited[q].1,
        )
    &&& t.frontier.len() > 0 || t.tree.len() > 0
}

/// What every step of a traversal keeps: the state knows the number of
/// vertices of the graph, the frontier and all pairs lie within the graph,
/// no vertex is discovered twice, and the bookkeeping is exact as long as no
/// seeded vertex has been found again.
pub open spec fn sound(m: Seq<Seq<int>>, t: Traversal) -> bool {
    &&& m.len() == t.size
    &&& frontier_in_range(t, m.len())
    &&& pairs_in_range(t.visited, m.len())
    &&& pairs_in_range(t.tree, m.len())
    &&& distinct_children(t.visited)
    &&& t.tree.len() + t.frontier.len() <= t.visited.len() + child_set(t.tree).len()
    &&& roots_unreturned(m, t.tree) ==> exact(t)
}

/// The vertices that are children of pairs of the list.
pub open spec fn child_set(pairs: Seq<(usize, usize)>) -> Set<int> {
    Set::new(|v: int| exists|k: int| 0 <= k < pairs.len() && (#[trigger] pairs[k]).1 == v)
}

/// The children of pairs within the graph are finitely many: at most as many
/// as the graph has vertices.
proof fn lemma_child_set_bounded(pairs: Seq<(usize, usize)>, n: nat)
    requires
        pairs_in_range(pairs, n),
    ensures
        child_set(pairs).finite(),
        child_set(pairs).len() <= n,
{
    lemma_int_range(0, n as int);
    assert(child_set(pairs).subset_of(set_int_range(0, n as int)));
    lemma_len_subset(child_set(pairs), set_int_range(0, n as int));
}

/// One more pair adds its child to the children.
proof fn lemma_child_set_push(pairs: Seq<(usize, usize)>, pair: (usize, usize), n: nat)
    requires
        pairs_in_range(pairs, n),
    ensures
        child_set(pairs.push(pair)).len() == child_set(pairs).len() + if has_child(
            pairs,
            pair.1,
        ) {
            0int
        } else {
            1int
        },
{
    let longer = pairs.push(pair);
    lemma_child_set_bounded(pairs, n);
    assert(child_set(longer) =~= child_set(pairs).insert(pair.1 as int)) by {
        assert forall|v: int| child_set(longer).contains(v) implies child_set(pairs).insert(
            pair.1 as int,
        ).contains(v) by {
            let k = choose|k: int| 0 <= k < longer.len() && (#[trigger] longer[k]).1 == v;
            if k < pairs.len() {
                assert(pairs[k].1 == v);
            }
        }
        assert forall|v: int| child_set(pairs).insert(pair.1 as int).contains(
            v,
        ) implies child_set(longer).contains(v) by {
            if v == pair.1 as int {
                assert(longer[pairs.len() as int].1 == v);
            } else {
                let k = choose|k: int| 0 <= k < pairs.len() && (#[trigger] pairs[k]).1 == v;
                assert(longer[k].1 == v);
            }
        }
    }
    if has_child(pairs, pair.1) {
        let k = choose|k: int| 0 <= k < pairs.len() && (#[trigger] pairs[k]).1 == pair.1;
        assert(child_set(pairs).contains(pair.1 as int));
    } else {
        if child_set(pairs).contains(pair.1 as int) {
            let k = choose|k: int|
                0 <= k < pairs.len() && (#[trigger] pairs[k]).1 == pair.1 as int;
            assert(pairs[k].1 == pair.1);
        }
    }
}

/// The first pair with child `v` has child `v`; without such a pair it is
/// `(v, v)`.
proof fn lemma_first_pair(pairs: Seq<(usize, usize)>, v: usize, from: int)
    requires
        0 <= from,
    ensures
        first_pair(pairs, v, from).1 == v,
        (forall|q: int| from <= q < pairs.len() ==> (#[trigger] pairs[q]).1 != v) ==> first_pair(
            pairs,
            v,
            from,
        ) == (v, v),
        first_pair(pairs, v, from) == (v, v) || exists|q: int|
            from <= q < pairs.len() && #[trigger] pairs[q] == first_pair(pairs, v, from),
    decreases pairs.len() - from,
{
    if from < pairs.len() && pairs[from].1 != v {
        lemma_first_pair(pairs, v, from + 1);
    }
}

/// The lowest vertex that was not drawn: all vertices below it were drawn.
proof fn lemma_first_undrawn(tree: Seq<(usize, usize)>, n: nat, from: nat)
    requires
        from <= n,
        n <= usize::MAX,
    ensures
        from <= first_undrawn(tree, n, from) <= n,
        first_undrawn(tree, n, from) < n ==> !has_child(
            tree,
            first_undrawn(tree, n, from) as usize,
        ),
        forall|u: usize| from <= u < first_undrawn(tree, n, from) ==> #[trigger] has_child(tree, u),
    decreases n - from,
{
    if from < n && has_child(tree, from as usize) {
        lemma_first_undrawn(tree, n, from + 1);
    }
}

/// A forest that satisfies the condition on its roots satisfies it without
/// its last pair too.
proof fn lemma_unreturned_prefix(m: Seq<Seq<int>>, tree: Seq<(usize, usize)>, pair: (usize, usize))
    requires
        roots_unreturned(m, tree.push(pair)),
    ensures
        roots_unreturned(m, tree),
{
    let longer = tree.push(pair);
    assert forall|k: int, x: int| !#[trigger] returns_to(m, tree, k, x) by {
        if returns_to(m, tree, k, x) {
            assert(longer[k] == tree[k]);
            assert(longer.take(k) =~= tree.take(k));
            assert(returns_to(m, longer, k, x));
        }
    }
}

/// Looking at neighbours keeps the frontier in the graph, discovers no
/// vertex twice and leaves the forest alone.
proof fn lemma_scan_basic(m: Seq<Seq<int>>, v: usize, d: Traversal, upto: nat)
    requires
        frontier_in_range(d, m.len()),
        pairs_in_range(d.visited, m.len()),
        distinct_children(d.visited),
        v < m.len(),
        upto <= m.len(),
        m.len() <= usize::MAX,
    ensures
        frontier_in_range(scan(m, v, d, upto), m.len()),
        pairs_in_range(scan(m, v, d, upto).visited, m.len()),
        distinct_children(scan(m, v, d, upto).visited),
        scan(m, v, d, upto).tree == d.tree,
        scan(m, v, d, upto).size == d.size,
        scan(m, v, d, upto).visited.len() - scan(m, v, d, upto).frontier.len() == d.visited.len()
            - d.frontier.len(),
    decreases upto,
{
    if upto > 0 {
        lemma_scan_basic(m, v, d, (upto - 1) as nat);
        let p = scan(m, v, d, (upto - 1) as nat);
        let w = (upto - 1) as usize;
        if m[v as int][w as int] == 1 && !has_child(p.visited, w) {
            let s = scan(m, v, d, upto);
            assert forall|a: int, b: int| 0 <= a < b < s.visited.len() implies (
            #[trigger] s.visited[a]).1 != (#[trigger] s.visited[b]).1 by {
                if b == p.visited.len() {
                    assert(p.visited[a].1 != w);
                }
            }
        }
    }
}

/// Looking at the neighbours of the vertex drawn last keeps exact
/// bookkeeping exact, as long as no seeded vertex is found again.
proof fn lemma_scan_exact(m: Seq<Seq<int>>, v: usize, d: Traversal, upto: nat)
    requires
        frontier_in_range(d, m.len()),
        pairs_in_range(d.visited, m.len()),
        distinct_children(d.visited),
        exact(d),
        roots_unreturned(m, d.tree),
        d.tree.len() > 0,
        d.tree.last().1 == v,
        v < m.len(),
        upto <= m.len(),
        m.len() <= usize::MAX,
    ensures
        exact(scan(m, v, d, upto)),
    decreases upto,
{
    if upto > 0 {
        lemma_scan_exact(m, v, d, (upto - 1) as nat);
        lemma_scan_basic(m, v, d, (upto - 1) as nat);
        let p = scan(m, v, d, (upto - 1) as nat);
        let w = (upto - 1) as usize;
        let tree = d.tree;
        let last = tree.len() - 1;
        if m[v as int][w as int] == 1 && !has_child(p.visited, w) {
            let s = scan(m, v, d, upto);
            // the neighbour was not drawn: it would be a seeded vertex that
            // is found again from `v`
            if has_child(tree, w) {
                let k = choose|k: int| 0 <= k < tree.len() && (#[trigger] tree[k]).1 == w;
                assert(k > 0 && tree[k].0 == tree[k].1);
                assert(!returns_to(m, tree, k, v as int));
                assert(has_child(tree.take(k), v));
                let j = choose|j: int|
                    0 <= j < tree.take(k).len() && (#[trigger] tree.take(k)[j]).1 == v;
                assert(tree[j].1 == v);
                assert(tree[last].1 == v);
                assert(false);
            }
            assert forall|a: int, b: int| 0 <= a < b < s.frontier.len() implies #[trigger] s.frontier[a]
                != #[trigger] s.frontier[b] by {
                if b == p.frontier.len() {
                    assert(has_child(p.visited, p.frontier[a]));
                }
            }
            assert forall|q: int| 0 <= q < s.frontier.len() implies has_child(
                s.visited,
                #[trigger] s.frontier[q],
            ) && !has_child(s.tree, s.frontier[q]) by {
                if q < p.frontier.len() {
                    assert(has_child(p.visited, p.frontier[q]));
                    let r = choose|r: int|
                        0 <= r < p.visited.len() && (#[trigger] p.visited[r]).1 == p.frontier[q];
                    assert(s.visited[r] == p.visited[r]);
                } else {
                    assert(s.visited[p.visited.len() as int].1 == w);
                }
            }
            assert forall|k: int|
                0 <= k < s.tree.len() && !has_child(s.visited, (#[trigger] s.tree[k]).1) implies k
                > 0 && s.tree[k].0 == s.tree[k].1 by {
                if has_child(p.visited, s.tree[k].1) {
                    let r = choose|r: int|
                        0 <= r < p.visited.len() && (#[trigger] p.visited[r]).1 == s.tree[k].1;
                    assert(s.visited[r] == p.visited[r]);
                }
            }
            assert forall|q: int| 0 <= q < s.visited.len() implies s.frontier.contains(
                (#[trigger] s.visited[q]).1,
            ) || has_child(s.tree, s.visited[q].1) by {
                if q < p.visited.len() {
                    assert(s.visited[q] == p.visited[q]);
                    if p.frontier.contains(p.visited[q].1) {
                        let r = choose|r: int|
                            0 <= r < p.frontier.len() && p.frontier[r] == p.visited[q].1;
                        assert(s.frontier[r] == p.frontier[r]);
                    }
                } else {
                    assert(s.frontier[p.frontier.len() as int] == w);
                }
            }
        }
    }
}

/// Drawing a vertex from the frontier, or a seeded vertex from an empty
/// frontier, keeps a sound state sound.
proof fn lemma_draw_sound(m: Seq<Seq<int>>, t: Traversal, ready: Traversal, pos: int)
    requires
        sound(m, t),
        0 <= pos < ready.frontier.len(),
        ready.size == t.size,
        ready.visited == t.visited,
        ready.tree == t.tree,
        ready == t || (t.frontier.len() == 0 && first_undrawn(t.tree, m.len(), 0) < m.len()
            && ready.frontier == seq![first_undrawn(t.tree, m.len(), 0) as usize]),
    ensures
        sound(m, draw_at(m, ready, pos)),
{
    let n = m.len();
    let v = ready.frontier[pos];
    let pair = first_pair(t.visited, v, 0);
    let d = Traversal {
        size: ready.size,
        active: v,
        visited: ready.visited,
        frontier: ready.frontier.remove(pos),
        tree: ready.tree.push(pair),
    };
    lemma_first_pair(t.visited, v, 0);
    lemma_first_undrawn(t.tree, n, 0);
    assert(v < n);
    assert(frontier_in_range(d, n));
    assert(pairs_in_range(d.tree, n)) by {
        if pair != (v, v) {
            let q = choose|q: int| 0 <= q < t.visited.len() && #[trigger] t.visited[q] == pair;
            assert(t.visited[q].0 < n);
        }
    }
    lemma_scan_basic(m, v, d, n);
    lemma_child_set_push(t.tree, pair, n);
    if ready != t {
        assert(!has_child(t.tree, v));
    }
    if roots_unreturned(m, d.tree) {
        lemma_unreturned_prefix(m, t.tree, pair);
        assert(exact(t));
        let seeded = ready != t;
        // the drawn vertex was not drawn before
        assert(!has_child(t.tree, v)) by {
            if !seeded {
                assert(t.frontier[pos] == v);
            }
        }
        // a seeded vertex was never discovered
        if seeded {
            if has_child(t.visited, v) {
                let r = choose|r: int| 0 <= r < t.visited.len() && (#[trigger] t.visited[r]).1 == v;
                assert(t.frontier.contains(t.visited[r].1) || has_child(t.tree, t.visited[r].1));
                assert(false);
            }
            assert(pair == (v, v));
        }
        assert forall|a: int, b: int| 0 <= a < b < d.tree.len() implies (#[trigger] d.tree[a]).1 != (
        #[trigger] d.tree[b]).1 by {
            if b == t.tree.len() {
                assert(t.tree[a].1 != v);
            }
        }
        assert forall|a: int, b: int| 0 <= a < b < d.frontier.len() implies #[trigger] d.frontier[a]
            != #[trigger] d.frontier[b] by {
            let a0 = if a < pos { a } else { a + 1 };
            let b0 = if b < pos { b } else { b + 1 };
            assert(ready.frontier[a0] != ready.frontier[b0]);
        }
        assert forall|q: int| 0 <= q < d.frontier.len() implies has_child(
            d.visited,
            #[trigger] d.frontier[q],
        ) && !has_child(d.tree, d.frontier[q]) by {
            let q0 = if q < pos { q } else { q + 1 };
            assert(d.frontier[q] == t.frontier[q0]);
            assert(t.frontier[q0] != t.frontier[pos]);
            if has_child(d.tree, d.frontier[q]) {
                let k = choose|k: int|
                    0 <= k < d.tree.len() && (#[trigger] d.tree[k]).1 == d.frontier[q];
                if k < t.tree.len() {
                    assert(t.tree[k].1 == t.frontier[q0]);
                }
            }
        }
        assert forall|k: int|
            0 <= k < d.tree.len() && !has_child(d.visited, (#[trigger] d.tree[k]).1) implies k > 0
            && d.tree[k].0 == d.tree[k].1 by {
            if k < t.tree.len() {
                assert(d.tree[k] == t.tree[k]);
            } else if !seeded {
                assert(has_child(t.visited, t.frontier[pos]));
            }
        }
        assert forall|q: int| 0 <= q < d.visited.len() implies d.frontier.contains(
            (#[trigger] d.visited[q]).1,
        ) || has_child(d.tree, d.visited[q].1) by {
            let c = t.visited[q].1;
            if c == v {
                assert(d.tree[t.tree.len() as int].1 == v);
            } else if has_child(t.tree, c) {
                let k = choose|k: int| 0 <= k < t.tree.len() && (#[trigger] t.tree[k]).1 == c;
                assert(d.tree[k] == t.tree[k]);
            } else {
                assert(t.frontier.contains(c));
                let r = choose|r: int| 0 <= r < t.frontier.len() && t.frontier[r] == c;
                let r1 = if r < pos { r } else { r - 1 };
                assert(d.frontier[r1] == c);
            }
        }
        assert(exact(d));
        lemma_scan_exact(m, v, d, n);
    }
}

/// A traversal that is set up for the number of vertices of the graph and
/// for one of its vertices starts in a sound state.
pub proof fn lemma_start_sound(m: Seq<Seq<int>>, start: usize, size: usize)
    requires
        start < m.len(),
        m.len() == size,
    ensures
        sound(m, start_at(start, size)),
{
    let t = start_at(start, size);
    assert(t.visited[0].1 == start);
    assert(t.frontier[0] == start);
}

/// Every step keeps a sound state sound.
pub proof fn lemma_advance_sound<S: Search>(m: Seq<Seq<int>>, t: Traversal)
    requires
        sound(m, t),
    ensures
        sound(m, advance::<S>(m, t)),
{
    if t.frontier.len() > 0 {
        S::lemma_position(t.frontier);
        lemma_draw_sound(m, t, t, S::position(t.frontier));
    } else if first_undrawn(t.tree, m.len(), 0) < m.len() {
        let seeded = seq![first_undrawn(t.tree, m.len(), 0) as usize];
        S::lemma_position(seeded);
        lemma_draw_sound(m, t, Traversal { frontier: seeded, ..t }, S::position(seeded));
    }
}

/// Pairs within the graph of which no two have one child are at most as
/// many as the graph has vertices.
proof fn lemma_distinct_bounded(pairs: Seq<(usize, usize)>, n: nat)
    requires
        pairs_in_range(pairs, n),
        distinct_children(pairs),
    ensures
        pairs.len() <= n,
{
    let children = Seq::new(pairs.len(), |k: int| pairs[k].1 as int);
    assert(children.no_duplicates()) by {
        assert forall|a: int, b: int|
            0 <= a < children.len() && 0 <= b < children.len() && a != b implies children[a]
            != children[b] by {
            if a < b {
                assert(pairs[a].1 != pairs[b].1);
            } else {
                assert(pairs[b].1 != pairs[a].1);
            }
        }
    }
    assert(children.to_set().subset_of(set_int_range(0, n as int))) by {
        assert forall|x: int| children.to_set().contains(x) implies set_int_range(
            0,
            n as int,
        ).contains(x) by {
            let k = choose|k: int| 0 <= k < children.len() && children[k] == x;
            assert(pairs[k].1 < n);
        }
    }
    children.unique_seq_to_set();
    lemma_int_range(0, n as int);
    lemma_len_subset(children.to_set(), set_int_range(0, n as int));
}

/// A forest in which every vertex of the graph, and nothing else, is a
/// child exactly once has as many pairs as the graph has vertices.
proof fn lemma_one_pair_per_vertex(tree: Seq<(usize, usize)>, n: nat)
    requires
        n <= usize::MAX,
        pairs_in_range(tree, n),
        distinct_children(tree),
        forall|v: usize| v < n ==> #[trigger] has_child(tree, v),
    ensures
        tree.len() == n,
{
    let children = Seq::new(tree.len(), |k: int| tree[k].1 as int);
    assert(children.no_duplicates()) by {
        assert forall|a: int, b: int|
            0 <= a < children.len() && 0 <= b < children.len() && a != b implies children[a]
            != children[b] by {
            if a < b {
                assert(tree[a].1 != tree[b].1);
            } else {
                assert(tree[b].1 != tree[a].1);
            }
        }
    }
    assert(children.to_set() =~= set_int_range(0, n as int)) by {
        assert forall|x: int| set_int_range(0, n as int).contains(x) implies children.to_set().contains(
            x,
        ) by {
            assert(has_child(tree, x as usize));
            let k = choose|k: int| 0 <= k < tree.len() && (#[trigger] tree[k]).1 == x as usize;
            assert(children[k] == x);
        }
        assert forall|x: int| children.to_set().contains(x) implies set_int_range(
            0,
            n as int,
        ).contains(x) by {
            let k = choose|k: int| 0 <= k < children.len() && children[k] == x;
            assert(tree[k].1 < n);
        }
    }
    children.unique_seq_to_set();
    lemma_int_range(0, n as int);
}

/// A traversal draws at most twice as many vertices as the graph has, so
/// it ends: every step that does anything draws one vertex.
pub proof fn lemma_forest_bounded<S: Search>(m: Seq<Seq<int>>, t: Traversal)
    requires
        sound(m, t),
    ensures
        t.tree.len() <= 2 * m.len(),
        has_work(m, t) ==> advance::<S>(m, t).tree.len() == t.tree.len() + 1,
{
    lemma_distinct_bounded(t.visited, m.len());
    lemma_child_set_bounded(t.tree, m.len());
    if t.frontier.len() > 0 {
        S::lemma_position(t.frontier);
        let v = t.frontier[S::position(t.frontier)];
        lemma_scan_tree(
            m,
            v,
            Traversal {
                size: t.size,
                active: v,
                visited: t.visited,
                frontier: t.frontier.remove(S::position(t.frontier)),
                tree: t.tree.push(first_pair(t.visited, v, 0)),
            },
            m.len(),
        );
    } else if first_undrawn(t.tree, m.len(), 0) < m.len() {
        let seeded = seq![first_undrawn(t.tree, m.len(), 0) as usize];
        S::lemma_position(seeded);
        let v = seeded[S::position(seeded)];
        lemma_scan_tree(
            m,
            v,
            Traversal {
                size: t.size,
                active: v,
                visited: t.visited,
                frontier: seeded.remove(S::position(seeded)),
                tree: t.tree.push(first_pair(t.visited, v, 0)),
            },
            m.len(),
        );
    }
}

/// Looking at neighbours leaves the forest alone.
proof fn lemma_scan_tree(m: Seq<Seq<int>>, v: usize, d: Traversal, upto: nat)
    ensures
        scan(m, v, d, upto).tree == d.tree,
    decreases upto,
{
    if upto > 0 {
        lemma_scan_tree(m, v, d, (upto - 1) as nat);
    }
}

/// A finished traversal has drawn every vertex.  It has drawn every vertex
/// exactly once, so that its forest has one pair for every vertex, provided
/// that no vertex that starts a new tree has an edge coming in from a
/// vertex that was not drawn before it.
pub proof fn lemma_forest_exact(m: Seq<Seq<int>>, t: Traversal)
    requires
        sound(m, t),
        !has_work(m, t),
    ensures
        forall|v: usize| v < m.len() ==> #[trigger] has_child(t.tree, v),
        roots_unreturned(m, t.tree) ==> forall|v: usize|
            v < m.len() ==> #[trigger] drawn_once(t.tree, v),
        roots_unreturned(m, t.tree) ==> t.tree.len() == m.len(),
{
    lemma_first_undrawn(t.tree, m.len(), 0);
    if roots_unreturned(m, t.tree) {
        lemma_one_pair_per_vertex(t.tree, m.len());
        assert forall|v: usize| v < m.len() implies #[trigger] drawn_once(t.tree, v) by {
            assert(has_child(t.tree, v));
            let k = choose|k: int| 0 <= k < t.tree.len() && (#[trigger] t.tree[k]).1 == v;
            assert forall|j: int|
                0 <= j < t.tree.len() && (#[trigger] t.tree[j]).1 == v implies j == k by {
                if j < k {
                    assert(t.tree[j].1 != t.tree[k].1);
                } else if k < j {
                    assert(t.tree[k].1 != t.tree[j].1);
                }
            }
        }
    }
}

} // verus!
