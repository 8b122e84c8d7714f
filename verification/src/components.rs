//! Connected components and the condensation of a graph.
//!
//! Vertices are grouped by identical rows of the connectivity matrix.  They
//! are placed in increasing order, each into the first group whose first
//! member has the same row, or into a new group at the end.

use crate::closure::connectivity_matrix;
use crate::matrix::{square, zero_rows, AdjMatrix};
use vstd::prelude::*;

verus! {

/// Index of the first group, from `from` on, whose first member has the row
/// of `v`; the number of groups if there is none.
pub open spec fn first_match(c: Seq<Seq<int>>, groups: Seq<Seq<int>>, v: int, from: int) -> int
    decreases groups.len() - from,
{
    if from < 0 || from >= groups.len() {
        groups.len() as int
    } else if c[groups[from][0]] == c[v] {
        from
    } else {
        first_match(c, groups, v, from + 1)
    }
}

/// The groups once the vertices below `v` have been placed.
pub open spec fn groups_upto(c: Seq<Seq<int>>, v: nat) -> Seq<Seq<int>>
    decreases v,
{
    if v == 0 {
        Seq::empty()
    } else {
        let prev = groups_upto(c, (v - 1) as nat);
        let g = first_match(c, prev, v - 1, 0);
        if g < prev.len() {
            prev.update(g, prev[g].push(v - 1))
        } else {
            prev.push(seq![v - 1])
        }
    }
}

/// The connected components of a graph: its vertices grouped by their rows
/// in the connectivity matrix.
pub open spec fn components(m: Seq<Seq<int>>) -> Seq<Seq<int>> {
    groups_upto(connectivity_matrix(m), m.len())
}

/// Vertex `v` stands at position `t` of group `g`.
pub open spec fn placed_at(groups: Seq<Seq<int>>, v: int, g: int, t: int) -> bool {
    0 <= g < groups.len() && 0 <= t < groups[g].len() && groups[g][t] == v
}

/// Vertex `v` stands at exactly one position of exactly one group.
pub open spec fn placed_once(groups: Seq<Seq<int>>, v: int) -> bool {
    exists|g: int, t: int|
        #[trigger] placed_at(groups, v, g, t) && forall|h: int, s: int|
            #[trigger] placed_at(groups, v, h, s) ==> h == g && s == t
}

/// The groups hold each of the vertices `0..n` exactly once and nothing
/// else, and no group is empty.
pub open spec fn exact_partition(groups: Seq<Seq<int>>, n: int) -> bool {
    &&& forall|v: int| 0 <= v < n ==> #[trigger] placed_once(groups, v)
    &&& forall|g: int, t: int|
        0 <= g < groups.len() && 0 <= t < groups[g].len() ==> 0 <= #[trigger] groups[g][t] < n
    &&& forall|g: int| 0 <= g < groups.len() ==> (#[trigger] groups[g]).len() > 0
}

/// Some edge leads from a vertex of `from` to a vertex of `to`.
pub open spec fn crossing(m: Seq<Seq<int>>, from: Seq<int>, to: Seq<int>) -> bool {
    exists|s: int, t: int|
        0 <= s < from.len() && 0 <= t < to.len() && m[#[trigger] from[s]][#[trigger] to[t]] == 1
}

/// One vertex per group; an edge leads from group `x` to another group `y`
/// if some edge of `m` does.  No group has an edge to itself.
pub open spec fn condensation(m: Seq<Seq<int>>, groups: Seq<Seq<int>>) -> Seq<Seq<int>> {
    Seq::new(
        groups.len(),
        |x: int|
            Seq::new(
                groups.len(),
                |y: int|
                    if x != y && crossing(m, groups[x], groups[y]) {
                        1int
                    } else {
                        0int
                    },
            ),
    )
}

/// The condensation of a graph over its connected components.
pub open spec fn condensed_matrix(m: Seq<Seq<int>>) -> Seq<Seq<int>> {
    condensation(m, components(m))
}

/// A list of vertex lists as sequences of integers.
pub open spec fn group_lists(v: Seq<Vec<usize>>) -> Seq<Seq<int>> {
    Seq::new(v.len(), |g: int| Seq::new(v[g]@.len(), |t: int| v[g]@[t] as int))
}

/// Placing the vertices below `v` yields an exact partition of them.
proof fn lemma_groups_partition(c: Seq<Seq<int>>, v: nat)
    ensures
        exact_partition(groups_upto(c, v), v as int),
    decreases v,
{
    let groups = groups_upto(c, v);
    if v > 0 {
        let prev = groups_upto(c, (v - 1) as nat);
        lemma_groups_partition(c, (v - 1) as nat);
        let g = first_match(c, prev, v - 1, 0);
        lemma_first_match_range(c, prev, v - 1, 0);
        // where the new vertex went
        let (ng, nt) = if g < prev.len() {
            (g, prev[g].len() as int)
        } else {
            (prev.len() as int, 0int)
        };
        assert(placed_at(groups, v - 1, ng, nt));
        // every position of the new groups is an old position or the new one
        assert forall|h: int, s: int, u: int| #[trigger] placed_at(groups, u, h, s) implies (h == ng
            && s == nt && u == v - 1) || placed_at(prev, u, h, s) by {}
        assert forall|h: int, s: int, u: int| #[trigger] placed_at(prev, u, h, s) implies placed_at(
            groups,
            u,
            h,
            s,
        ) by {}
        assert forall|u: int| 0 <= u < v implies #[trigger] placed_once(groups, u) by {
            if u == v - 1 {
                assert forall|h: int, s: int| #[trigger] placed_at(groups, u, h, s) implies h == ng
                    && s == nt by {
                    if !(h == ng && s == nt) {
                        assert(placed_at(prev, u, h, s));
                        assert(prev[h][s] < v - 1);
                    }
                }
            } else {
                assert(placed_once(prev, u));
                let (g0, t0) = choose|g0: int, t0: int|
                    #[trigger] placed_at(prev, u, g0, t0) && forall|h: int, s: int|
                        #[trigger] placed_at(prev, u, h, s) ==> h == g0 && s == t0;
                assert(placed_at(groups, u, g0, t0));
                assert forall|h: int, s: int| #[trigger] placed_at(groups, u, h, s) implies h == g0
                    && s == t0 by {
                    assert(placed_at(prev, u, h, s));
                }
            }
        }
        assert forall|h: int, s: int| 0 <= h < groups.len() && 0 <= s < groups[h].len() implies 0
            <= #[trigger] groups[h][s] < v by {
            assert(placed_at(groups, groups[h][s], h, s));
            if !(h == ng && s == nt) {
                assert(placed_at(prev, groups[h][s], h, s));
                assert(0 <= prev[h][s] < v - 1);
            }
        }
    }
}

/// The index found by `first_match` is a group index at or after `from`, or
/// the number of groups.
proof fn lemma_first_match_range(c: Seq<Seq<int>>, groups: Seq<Seq<int>>, v: int, from: int)
    requires
        0 <= from,
    ensures
        from <= first_match(c, groups, v, from) || first_match(c, groups, v, from) == groups.len(),
        first_match(c, groups, v, from) <= groups.len(),
    decreases groups.len() - from,
{
    if from < groups.len() && c[groups[from][0]] != c[v] {
        lemma_first_match_range(c, groups, v, from + 1);
    }
}

/// The index found by `first_match` is that of a group whose first member
/// has the row of `v`, and no group from `from` on before it is one.
proof fn lemma_first_match_rows(c: Seq<Seq<int>>, groups: Seq<Seq<int>>, v: int, from: int)
    requires
        0 <= from,
    ensures
        first_match(c, groups, v, from) < groups.len() ==> c[groups[first_match(
            c,
            groups,
            v,
            from,
        )][0]] == c[v],
        forall|g: int|
            from <= g < first_match(c, groups, v, from) ==> c[(#[trigger] groups[g])[0]] != c[v],
    decreases groups.len() - from,
{
    if from < groups.len() && c[groups[from][0]] != c[v] {
        lemma_first_match_rows(c, groups, v, from + 1);
    }
}

/// All members of a group have the row of its first member, and the first
/// members of two groups have different rows.
spec fn grouped_by_rows(c: Seq<Seq<int>>, groups: Seq<Seq<int>>) -> bool {
    &&& forall|g: int, t: int|
        0 <= g < groups.len() && 0 <= t < groups[g].len() ==> c[#[trigger] groups[g][t]]
            == c[groups[g][0]]
    &&& forall|g: int, h: int|
        0 <= g < groups.len() && 0 <= h < groups.len() && g != h ==> c[(#[trigger] groups[g])[0]]
            != c[(#[trigger] groups[h])[0]]
}

/// Placing the vertices below `v` groups them by their rows.
proof fn lemma_groups_rows(c: Seq<Seq<int>>, v: nat)
    ensures
        grouped_by_rows(c, groups_upto(c, v)),
    decreases v,
{
    let groups = groups_upto(c, v);
    if v > 0 {
        let prev = groups_upto(c, (v - 1) as nat);
        lemma_groups_rows(c, (v - 1) as nat);
        lemma_groups_partition(c, (v - 1) as nat);
        let g = first_match(c, prev, v - 1, 0);
        lemma_first_match_range(c, prev, v - 1, 0);
        lemma_first_match_rows(c, prev, v - 1, 0);
        assert forall|h: int| 0 <= h < groups.len() implies (#[trigger] groups[h])[0] == (if h
            < prev.len() {
            prev[h][0]
        } else {
            v - 1
        }) by {
            if h < prev.len() {
                assert(prev[h].len() > 0);
            }
        }
        assert forall|h: int, t: int|
            0 <= h < groups.len() && 0 <= t < groups[h].len() implies c[#[trigger] groups[h][t]]
            == c[groups[h][0]] by {
            if h < prev.len() && t < prev[h].len() {
                assert(groups[h][t] == prev[h][t]);
            }
        }
    }
}

/// Two vertices are members of one group.
pub open spec fn in_one_group(groups: Seq<Seq<int>>, u: int, v: int) -> bool {
    exists|g: int| 0 <= g < groups.len() && (#[trigger] groups[g]).contains(u) && groups[g].contains(v)
}

/// Two vertices stand in one connected component if and only if they have
/// the same row in the connectivity matrix.
pub proof fn lemma_components_by_rows(m: Seq<Seq<int>>, u: int, v: int)
    requires
        0 <= u < m.len(),
        0 <= v < m.len(),
    ensures
        in_one_group(components(m), u, v) <==> connectivity_matrix(m)[u] == connectivity_matrix(
            m,
        )[v],
{
    let c = connectivity_matrix(m);
    let groups = components(m);
    lemma_groups_rows(c, m.len());
    lemma_groups_partition(c, m.len());
    assert(placed_once(groups, u));
    assert(placed_once(groups, v));
    let (gu, tu) = choose|g: int, t: int| #[trigger] placed_at(groups, u, g, t);
    let (gv, tv) = choose|g: int, t: int| #[trigger] placed_at(groups, v, g, t);
    assert(c[groups[gu][tu]] == c[groups[gu][0]]);
    assert(c[groups[gv][tv]] == c[groups[gv][0]]);
    assert(groups[gu].contains(u));
    assert(groups[gv].contains(v));
    if in_one_group(groups, u, v) {
        let g = choose|g: int|
            0 <= g < groups.len() && (#[trigger] groups[g]).contains(u) && groups[g].contains(v);
        let su = choose|s: int| 0 <= s < groups[g].len() && groups[g][s] == u;
        let sv = choose|s: int| 0 <= s < groups[g].len() && groups[g][s] == v;
        assert(c[groups[g][su]] == c[groups[g][0]]);
        assert(c[groups[g][sv]] == c[groups[g][0]]);
    }
    if c[u] == c[v] {
        assert(gu == gv) by {
            if gu != gv {
                assert(c[groups[gu][0]] != c[groups[gv][0]]);
            }
        }
    }
}

/// The connected components partition the vertices exactly: every vertex
/// stands in exactly one component, exactly once, and no component is empty.
pub proof fn lemma_components_partition(m: Seq<Seq<int>>)
    ensures
        exact_partition(components(m), m.len() as int),
{
    lemma_groups_partition(connectivity_matrix(m), m.len());
}

/// The condensation has one vertex per connected component and no edge from
/// a component to itself.
pub proof fn lemma_condensed_shape(m: Seq<Seq<int>>)
    ensures
        condensed_matrix(m).len() == components(m).len(),
        square(condensed_matrix(m)),
        forall|x: int|
            0 <= x < components(m).len() ==> (#[trigger] condensed_matrix(m)[x])[x] == 0,
{
}

impl AdjMatrix {
    /// Whether two rows hold the same entries.
    fn same_row(&self, a: usize, b: usize) -> (ret: bool)
        requires
            self.wf(),
            a < self.size(),
            b < self.size(),
        ensures
            ret == (self@[a as int] == self@[b as int]),
    {
        let n = self.0.len();
        let mut j: usize = 0;
        while j < n
            invariant
                self.wf(),
                n == self.size(),
                n == self@.len(),
                a < n,
                b < n,
                j <= n,
                forall|t: int| 0 <= t < j ==> self@[a as int][t] == self@[b as int][t],
            decreases n - j,
        {
            if self.entry(a, j) != self.entry(b, j) {
                return false;
            }
            j += 1;
        }
        assert(self@[a as int].len() == n && self@[b as int].len() == n);
        assert(self@[a as int] =~= self@[b as int]);
        true
    }

    /// The connected components: the vertices grouped by mutual
    /// reachability, each group in increasing order, the groups in the order
    /// of their first members.
    pub fn conn_components(&self) -> (ret: Vec<Vec<usize>>)
        requires
            self.wf(),
        ensures
            group_lists(ret@) == components(self@),
    {
        let conn = self.connectivity();
        let n = conn.0.len();
        let mut result: Vec<Vec<usize>> = Vec::new();
        let mut i: usize = 0;
        assert(group_lists(result@) =~~= groups_upto(conn@, 0));
        while i < n
            invariant
                conn.wf(),
                n == conn.size(),
                n == self@.len(),
                conn@ == connectivity_matrix(self@),
                i <= n,
                group_lists(result@) == groups_upto(conn@, i as nat),
            decreases n - i,
        {
            let ghost prev = group_lists(result@);
            proof {
                lemma_groups_partition(conn@, i as nat);
            }
            let mut g: usize = 0;
            let mut found = false;
            while g < result.len() && !found
                invariant
                    conn.wf(),
                    n == conn.size(),
                    i < n,
                    prev == group_lists(result@),
                    exact_partition(prev, i as int),
                    g <= result@.len(),
                    first_match(conn@, prev, i as int, 0) == first_match(
                        conn@,
                        prev,
                        i as int,
                        g as int,
                    ),
                    found ==> g < result@.len() && first_match(conn@, prev, i as int, g as int)
                        == g,
                decreases result@.len() - g + if found { 0int } else { 1int },
            {
                assert(prev[g as int].len() > 0);
                assert(0 <= prev[g as int][0] < i);
                let head = result[g][0];
                if conn.same_row(head, i) {
                    found = true;
                } else {
                    g += 1;
                }
            }
            if found {
                result[g].push(i);
                assert(group_lists(result@) =~~= prev.update(
                    g as int,
                    prev[g as int].push(i as int),
                ));
            } else {
                let mut fresh: Vec<usize> = Vec::new();
                fresh.push(i);
                result.push(fresh);
                assert(group_lists(result@) =~~= prev.push(seq![i as int]));
            }
            i += 1;
        }
        result
    }

    /// The condensation: one vertex per connected component, and an edge
    /// from one component to another where some edge of the graph leads from
    /// a member of the first to a member of the second.
    pub fn condensed(&self) -> (ret: AdjMatrix)
        requires
            self.wf(),
        ensures
            ret.wf(),
            ret@ == condensed_matrix(self@),
    {
        let parts = self.conn_components();
        let ghost groups = group_lists(parts@);
        proof {
            lemma_components_partition(self@);
        }
        let n = self.0.len();
        let k = parts.len();
        let mut cells = zero_rows(k);
        let mut i: usize = 0;
        while i < n
            invariant
                self.wf(),
                n == self.size(),
                n == self@.len(),
                groups == group_lists(parts@),
                exact_partition(groups, n as int),
                k == parts@.len(),
                i <= n,
                cells@.len() == k,
                forall|x: int| 0 <= x < k ==> (#[trigger] cells@[x])@.len() == k,
                forall|x: int, y: int|
                    0 <= x < k && 0 <= y < k ==> (#[trigger] cells@[x]@[y]) == (if x != y
                        && crossing_before(self@, groups, x, y, i as int, 0) {
                        1u32
                    } else {
                        0u32
                    }),
            decreases n - i,
        {
            let mut j: usize = 0;
            while j < n
                invariant
                    self.wf(),
                    n == self.size(),
                    n == self@.len(),
                    groups == group_lists(parts@),
                    exact_partition(groups, n as int),
                    k == parts@.len(),
                    i < n,
                    j <= n,
                    cells@.len() == k,
                    forall|x: int| 0 <= x < k ==> (#[trigger] cells@[x])@.len() == k,
                    forall|x: int, y: int|
                        0 <= x < k && 0 <= y < k ==> (#[trigger] cells@[x]@[y]) == (if x != y
                            && crossing_before(self@, groups, x, y, i as int, j as int) {
                            1u32
                        } else {
                            0u32
                        }),
                decreases n - j,
            {
                let ghost before = cells@;
                if self.entry(i, j) == 1 {
                    proof {
                        lemma_has_group(groups, n as int, i as int);
                        lemma_has_group(groups, n as int, j as int);
                    }
                    let from = comp_index(&parts, i);
                    let to = comp_index(&parts, j);
                    if from != to {
                        cells[from][to] = 1;
                    }
                    proof {
                        assert forall|x: int, y: int| 0 <= x < k && 0 <= y < k implies (
                        #[trigger] cells@[x]@[y]) == (if x != y && crossing_before(
                            self@,
                            groups,
                            x,
                            y,
                            i as int,
                            j + 1,
                        ) {
                            1u32
                        } else {
                            0u32
                        }) by {
                            lemma_crossing_step(self@, groups, x, y, i as int, j as int);
                            lemma_unique_group(groups, n as int, i as int, from as int, x);
                            lemma_unique_group(groups, n as int, j as int, to as int, y);
                        }
                    }
                } else {
                    proof {
                        assert forall|x: int, y: int| 0 <= x < k && 0 <= y < k implies (
                        #[trigger] cells@[x]@[y]) == (if x != y && crossing_before(
                            self@,
                            groups,
                            x,
                            y,
                            i as int,
                            j + 1,
                        ) {
                            1u32
                        } else {
                            0u32
                        }) by {
                            lemma_crossing_step(self@, groups, x, y, i as int, j as int);
                        }
                    }
                }
                j += 1;
            }
            proof {
                assert forall|x: int, y: int| 0 <= x < k && 0 <= y < k implies crossing_before(
                    self@,
                    groups,
                    x,
                    y,
                    i as int,
                    n as int,
                ) == crossing_before(self@, groups, x, y, i + 1, 0) by {
                    lemma_crossing_row(self@, groups, x, y, i as int);
                }
            }
            i += 1;
        }
        let ret = AdjMatrix(cells);
        proof {
            assert forall|x: int, y: int| 0 <= x < k && 0 <= y < k implies #[trigger] ret@[x][y]
                == condensation(self@, groups)[x][y] by {
                lemma_crossing_all(self@, groups, x, y);
            }
            assert(ret@ =~~= condensation(self@, groups));
        }
        ret
    }
}

/// Some edge `(a, b)` that comes before `(i, j)` in row-major order leads
/// from a member of group `x` to a member of group `y`.
spec fn crossing_before(
    m: Seq<Seq<int>>,
    groups: Seq<Seq<int>>,
    x: int,
    y: int,
    i: int,
    j: int,
) -> bool {
    exists|s: int, t: int|
        0 <= s < groups[x].len() && 0 <= t < groups[y].len() && m[#[trigger] groups[x][s]][#[trigger] groups[y][t]]
            == 1 && (groups[x][s] < i || (groups[x][s] == i && groups[y][t] < j))
}

/// Looking at one more cell adds the edge of that cell, if there is one.
proof fn lemma_crossing_step(
    m: Seq<Seq<int>>,
    groups: Seq<Seq<int>>,
    x: int,
    y: int,
    i: int,
    j: int,
)
    ensures
        crossing_before(m, groups, x, y, i, j + 1) == (crossing_before(m, groups, x, y, i, j) || (
        m[i][j] == 1 && groups[x].contains(i) && groups[y].contains(j))),
{
    if crossing_before(m, groups, x, y, i, j + 1) {
        let (s, t) = choose|s: int, t: int|
            0 <= s < groups[x].len() && 0 <= t < groups[y].len() && m[#[trigger] groups[x][s]][#[trigger] groups[y][t]]
                == 1 && (groups[x][s] < i || (groups[x][s] == i && groups[y][t] < j + 1));
        if groups[x][s] == i && groups[y][t] == j {
            assert(groups[x].contains(i));
            assert(groups[y].contains(j));
        }
    }
    if crossing_before(m, groups, x, y, i, j) {
        let (s, t) = choose|s: int, t: int|
            0 <= s < groups[x].len() && 0 <= t < groups[y].len() && m[#[trigger] groups[x][s]][#[trigger] groups[y][t]]
                == 1 && (groups[x][s] < i || (groups[x][s] == i && groups[y][t] < j));
        assert(m[groups[x][s]][groups[y][t]] == 1);
    }
    if m[i][j] == 1 && groups[x].contains(i) && groups[y].contains(j) {
        let s = choose|s: int| 0 <= s < groups[x].len() && groups[x][s] == i;
        let t = choose|t: int| 0 <= t < groups[y].len() && groups[y][t] == j;
        assert(m[groups[x][s]][groups[y][t]] == 1);
    }
}

/// The end of one row is the start of the next.
proof fn lemma_crossing_row(m: Seq<Seq<int>>, groups: Seq<Seq<int>>, x: int, y: int, i: int)
    requires
        0 <= x < groups.len(),
        0 <= y < groups.len(),
        exact_partition(groups, m.len() as int),
    ensures
        crossing_before(m, groups, x, y, i, m.len() as int) == crossing_before(
            m,
            groups,
            x,
            y,
            i + 1,
            0,
        ),
{
    if crossing_before(m, groups, x, y, i, m.len() as int) {
        let (s, t) = choose|s: int, t: int|
            0 <= s < groups[x].len() && 0 <= t < groups[y].len() && m[#[trigger] groups[x][s]][#[trigger] groups[y][t]]
                == 1 && (groups[x][s] < i || (groups[x][s] == i && groups[y][t] < m.len()));
        assert(m[groups[x][s]][groups[y][t]] == 1);
    }
    if crossing_before(m, groups, x, y, i + 1, 0) {
        let (s, t) = choose|s: int, t: int|
            0 <= s < groups[x].len() && 0 <= t < groups[y].len() && m[#[trigger] groups[x][s]][#[trigger] groups[y][t]]
                == 1 && (groups[x][s] < i + 1 || (groups[x][s] == i + 1 && groups[y][t] < 0));
        assert(0 <= groups[y][t] < m.len());
        assert(m[groups[x][s]][groups[y][t]] == 1);
    }
}

/// Once every cell has been looked at, every crossing edge has been seen.
proof fn lemma_crossing_all(m: Seq<Seq<int>>, groups: Seq<Seq<int>>, x: int, y: int)
    requires
        0 <= x < groups.len(),
        0 <= y < groups.len(),
        exact_partition(groups, m.len() as int),
    ensures
        crossing_before(m, groups, x, y, m.len() as int, 0) == crossing(m, groups[x], groups[y]),
{
    if crossing(m, groups[x], groups[y]) {
        let (s, t) = choose|s: int, t: int|
            0 <= s < groups[x].len() && 0 <= t < groups[y].len() && m[#[trigger] groups[x][s]][#[trigger] groups[y][t]]
                == 1;
        assert(0 <= groups[x][s] < m.len());
        assert(m[groups[x][s]][groups[y][t]] == 1);
    }
    if crossing_before(m, groups, x, y, m.len() as int, 0) {
        let (s, t) = choose|s: int, t: int|
            0 <= s < groups[x].len() && 0 <= t < groups[y].len() && m[#[trigger] groups[x][s]][#[trigger] groups[y][t]]
                == 1 && (groups[x][s] < m.len() || (groups[x][s] == m.len() && groups[y][t] < 0));
        assert(m[groups[x][s]][groups[y][t]] == 1);
    }
}

/// In an exact partition every vertex is a member of some group.
proof fn lemma_has_group(groups: Seq<Seq<int>>, n: int, v: int)
    requires
        exact_partition(groups, n),
        0 <= v < n,
    ensures
        exists|h: int| 0 <= h < groups.len() && (#[trigger] groups[h]).contains(v),
{
    assert(placed_once(groups, v));
    let (g, t) = choose|g: int, t: int| #[trigger] placed_at(groups, v, g, t);
    assert(groups[g][t] == v);
    assert(groups[g].contains(v));
}

/// In an exact partition a vertex is a member of one group only.
proof fn lemma_unique_group(groups: Seq<Seq<int>>, n: int, v: int, g: int, x: int)
    requires
        exact_partition(groups, n),
        0 <= v < n,
        0 <= g < groups.len(),
        0 <= x < groups.len(),
        groups[g].contains(v),
    ensures
        groups[x].contains(v) == (x == g),
{
    assert(placed_once(groups, v));
    let t = choose|t: int| 0 <= t < groups[g].len() && groups[g][t] == v;
    assert(placed_at(groups, v, g, t));
    if groups[x].contains(v) {
        let s = choose|s: int| 0 <= s < groups[x].len() && groups[x][s] == v;
        assert(placed_at(groups, v, x, s));
    }
}

/// Index of the group that holds `vertex`.
fn comp_index(parts: &Vec<Vec<usize>>, vertex: usize) -> (g: usize)
    requires
        exists|h: int| 0 <= h < parts@.len() && (#[trigger] group_lists(parts@)[h]).contains(
            vertex as int,
        ),
    ensures
        g < parts@.len(),
        group_lists(parts@)[g as int].contains(vertex as int),
        forall|h: int| 0 <= h < g ==> !(#[trigger] group_lists(parts@)[h]).contains(vertex as int),
{
    let ghost groups = group_lists(parts@);
    let count = parts.len();
    let mut g: usize = 0;
    loop
        invariant
            groups == group_lists(parts@),
            count == parts@.len(),
            g < parts@.len(),
            exists|h: int| 0 <= h < parts@.len() && (#[trigger] groups[h]).contains(vertex as int),
            forall|h: int| 0 <= h < g ==> !(#[trigger] groups[h]).contains(vertex as int),
        decreases parts@.len() - g,
    {
        let part = &parts[g];
        let mut t: usize = 0;
        while t < part.len()
            invariant
                groups == group_lists(parts@),
                g < parts@.len(),
                part == parts@[g as int],
                t <= part@.len(),
                forall|h: int| 0 <= h < g ==> !(#[trigger] groups[h]).contains(vertex as int),
                forall|s: int| 0 <= s < t ==> groups[g as int][s] != vertex,
            decreases part@.len() - t,
        {
            if part[t] == vertex {
                assert(groups[g as int][t as int] == vertex);
                return g;
            }
            t += 1;
        }
        assert(!groups[g as int].contains(vertex as int));
        proof {
            let h = choose|h: int|
                0 <= h < parts@.len() && (#[trigger] groups[h]).contains(vertex as int);
            assert(h > g);
        }
        g += 1;
    }
}

} // verus!
