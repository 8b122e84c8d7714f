//! Why walks of at most `n - 1` edges suffice in a graph of `n` vertices.
//!
//! A walk that is longer passes through some vertex twice, and the part
//! between the two visits can be cut out.  So the reachability matrix marks
//! exactly the pairs that are joined by a walk of any length, reachability
//! is transitive, mutual connectivity is an equivalence, and the connected
//! components are its classes.

use crate::closure::{connectivity_matrix, reachability_matrix, reachable_within, walk};
use crate::components::{components, in_one_group, lemma_components_by_rows};
use vstd::prelude::*;
use vstd::set_lib::{lemma_int_range, lemma_len_subset, set_int_range};

verus! {

/// Some walk, of any number of edges, leads from `i` to `j`.
pub open spec fn reaches(m: Seq<Seq<int>>, i: int, j: int) -> bool {
    exists|len: nat| #[trigger] walk(m, i, j, len)
}

/// The vertices of the list lie in the graph, and an edge leads from each
/// to the next.
spec fn is_walk(m: Seq<Seq<int>>, p: Seq<int>) -> bool {
    &&& p.len() >= 1
    &&& forall|t: int| 0 <= t < p.len() ==> 0 <= #[trigger] p[t] < m.len()
    &&& forall|t: int| 0 <= t < p.len() - 1 ==> m[#[trigger] p[t]][p[t + 1]] != 0
}

/// The vertices along a walk.
proof fn lemma_walk_vertices(m: Seq<Seq<int>>, i: int, j: int, len: nat) -> (p: Seq<int>)
    requires
        walk(m, i, j, len),
        0 <= i < m.len(),
        0 <= j < m.len(),
    ensures
        is_walk(m, p),
        p.len() == len + 1,
        p[0] == i,
        p.last() == j,
    decreases len,
{
    if len == 0 {
        seq![i]
    } else {
        let k = choose|k: int|
            0 <= k < m.len() && walk(m, i, k, (len - 1) as nat) && #[trigger] m[k][j] != 0;
        let before = lemma_walk_vertices(m, i, k, (len - 1) as nat);
        let p = before.push(j);
        assert forall|t: int| 0 <= t < p.len() - 1 implies m[#[trigger] p[t]][p[t + 1]] != 0 by {
            if t < before.len() - 1 {
                assert(p[t] == before[t] && p[t + 1] == before[t + 1]);
                assert(m[before[t]][before[t + 1]] != 0);
            }
        }
        p
    }
}

/// The walk along a list of vertices.
proof fn lemma_vertices_walk(m: Seq<Seq<int>>, p: Seq<int>)
    requires
        is_walk(m, p),
    ensures
        walk(m, p[0], p.last(), (p.len() - 1) as nat),
    decreases p.len(),
{
    if p.len() > 1 {
        let before = p.drop_last();
        assert forall|t: int| 0 <= t < before.len() - 1 implies m[#[trigger] before[t]][before[t
            + 1]] != 0 by {
            assert(m[p[t]][p[t + 1]] != 0);
        }
        lemma_vertices_walk(m, before);
        let k = before.last();
        assert(m[p[p.len() - 2]][p[p.len() - 2 + 1]] != 0);
        assert(0 <= k < m.len() && walk(m, p[0], k, (p.len() - 2) as nat) && m[k][p.last()] != 0);
    }
}

/// More vertices than the graph has cannot all be different.
proof fn lemma_some_vertex_twice(p: Seq<int>, n: nat) -> (ab: (int, int))
    requires
        forall|t: int| 0 <= t < p.len() ==> 0 <= #[trigger] p[t] < n,
        p.len() > n,
    ensures
        0 <= ab.0 < ab.1 < p.len(),
        p[ab.0] == p[ab.1],
{
    if p.no_duplicates() {
        assert(p.to_set().subset_of(set_int_range(0, n as int))) by {
            assert forall|x: int| p.to_set().contains(x) implies set_int_range(
                0,
                n as int,
            ).contains(x) by {
                let t = choose|t: int| 0 <= t < p.len() && p[t] == x;
                assert(0 <= p[t] < n);
            }
        }
        p.unique_seq_to_set();
        lemma_int_range(0, n as int);
        lemma_len_subset(p.to_set(), set_int_range(0, n as int));
        assert(false);
    }
    let (a, b) = choose|a: int, b: int| 0 <= a < p.len() && 0 <= b < p.len() && a != b && p[a] == p[b];
    if a < b {
        (a, b)
    } else {
        (b, a)
    }
}

/// A walk with the same ends that visits no more vertices than the graph
/// has.
proof fn lemma_short_walk(m: Seq<Seq<int>>, p: Seq<int>) -> (q: Seq<int>)
    requires
        is_walk(m, p),
    ensures
        is_walk(m, q),
        q.len() <= m.len(),
        q[0] == p[0],
        q.last() == p.last(),
    decreases p.len(),
{
    if p.len() <= m.len() {
        p
    } else {
        let (a, b) = lemma_some_vertex_twice(p, m.len());
        let cut = p.take(a + 1) + p.skip(b + 1);
        assert forall|t: int| 0 <= t < cut.len() implies 0 <= #[trigger] cut[t] < m.len() by {
            if t <= a {
                assert(cut[t] == p[t]);
            } else {
                assert(cut[t] == p[t + b - a]);
            }
        }
        assert forall|t: int| 0 <= t < cut.len() - 1 implies m[#[trigger] cut[t]][cut[t + 1]]
            != 0 by {
            if t < a {
                assert(cut[t] == p[t] && cut[t + 1] == p[t + 1]);
                assert(m[p[t]][p[t + 1]] != 0);
            } else if t == a {
                assert(cut[t] == p[a] && cut[t + 1] == p[b + 1]);
                assert(m[p[b]][p[b + 1]] != 0);
            } else {
                assert(cut[t] == p[t + b - a] && cut[t + 1] == p[t + b - a + 1]);
                assert(m[p[t + b - a]][p[t + b - a + 1]] != 0);
            }
        }
        assert(cut[0] == p[0]);
        assert(cut.last() == p.last()) by {
            if b + 1 < p.len() {
                assert(cut[cut.len() - 1] == p[cut.len() - 1 + b - a]);
            } else {
                assert(cut[cut.len() - 1] == p[a]);
            }
        }
        lemma_short_walk(m, cut)
    }
}

/// Two walks can be put end to end.
proof fn lemma_walk_chain(m: Seq<Seq<int>>, i: int, j: int, k: int, a: nat, b: nat)
    requires
        walk(m, i, j, a),
        walk(m, j, k, b),
    ensures
        walk(m, i, k, a + b),
    decreases b,
{
    if b > 0 {
        let c = choose|c: int|
            0 <= c < m.len() && walk(m, j, c, (b - 1) as nat) && #[trigger] m[c][k] != 0;
        lemma_walk_chain(m, i, j, c, a, (b - 1) as nat);
        assert(0 <= c < m.len() && walk(m, i, c, (a + b - 1) as nat) && m[c][k] != 0);
    }
}

/// The reachability matrix marks exactly the pairs of vertices that are
/// joined by a walk of any number of edges.
pub proof fn lemma_reachability_is_closure(m: Seq<Seq<int>>, i: int, j: int)
    requires
        0 <= i < m.len(),
        0 <= j < m.len(),
    ensures
        reachability_matrix(m)[i][j] == 1 <==> reaches(m, i, j),
{
    if reaches(m, i, j) {
        let len = choose|len: nat| #[trigger] walk(m, i, j, len);
        let p = lemma_walk_vertices(m, i, j, len);
        let q = lemma_short_walk(m, p);
        lemma_vertices_walk(m, q);
        assert(walk(m, i, j, (q.len() - 1) as nat));
        assert(reachable_within(m, i, j, (m.len() - 1) as nat));
    }
    if reachable_within(m, i, j, (m.len() - 1) as nat) {
        let len = choose|len: nat| len <= (m.len() - 1) as nat && #[trigger] walk(m, i, j, len);
        assert(walk(m, i, j, len));
    }
}

/// Reachability is transitive.
pub proof fn lemma_reachability_transitive(m: Seq<Seq<int>>, i: int, j: int, k: int)
    requires
        0 <= i < m.len(),
        0 <= j < m.len(),
        0 <= k < m.len(),
        reachability_matrix(m)[i][j] == 1,
        reachability_matrix(m)[j][k] == 1,
    ensures
        reachability_matrix(m)[i][k] == 1,
{
    lemma_reachability_is_closure(m, i, j);
    lemma_reachability_is_closure(m, j, k);
    lemma_reachability_is_closure(m, i, k);
    let a = choose|len: nat| #[trigger] walk(m, i, j, len);
    let b = choose|len: nat| #[trigger] walk(m, j, k, len);
    lemma_walk_chain(m, i, j, k, a, b);
}

/// Mutual connectivity is an equivalence: every vertex is connected with
/// itself, and two vertices that are connected with a third one are
/// connected with each other.  (That it is symmetric is stated with the
/// connectivity matrix.)
pub proof fn lemma_connectivity_equivalence(m: Seq<Seq<int>>, i: int, j: int, k: int)
    requires
        0 <= i < m.len(),
        0 <= j < m.len(),
        0 <= k < m.len(),
    ensures
        connectivity_matrix(m)[i][i] == 1,
        connectivity_matrix(m)[i][j] == 1 && connectivity_matrix(m)[j][k] == 1
            ==> connectivity_matrix(m)[i][k] == 1,
{
    assert(walk(m, i, i, 0));
    if connectivity_matrix(m)[i][j] == 1 && connectivity_matrix(m)[j][k] == 1 {
        lemma_reachability_transitive(m, i, j, k);
        lemma_reachability_transitive(m, k, j, i);
    }
}

/// Two vertices stand in one connected component if and only if each of
/// them reaches the other.
pub proof fn lemma_components_are_classes(m: Seq<Seq<int>>, u: int, v: int)
    requires
        0 <= u < m.len(),
        0 <= v < m.len(),
    ensures
        in_one_group(components(m), u, v) <==> reaches(m, u, v) && reaches(m, v, u),
{
    let c = connectivity_matrix(m);
    lemma_components_by_rows(m, u, v);
    lemma_reachability_is_closure(m, u, v);
    lemma_reachability_is_closure(m, v, u);
    if c[u] == c[v] {
        lemma_connectivity_equivalence(m, v, v, v);
        assert(c[u][v] == c[v][v]);
    }
    if c[u][v] == 1 {
        assert forall|w: int| 0 <= w < m.len() implies c[u][w] == c[v][w] by {
            lemma_connectivity_equivalence(m, v, u, w);
            lemma_connectivity_equivalence(m, u, v, w);
            assert(c[v][u] == 1);
        }
        assert(c[u] =~= c[v]);
    }
}

} // verus!
