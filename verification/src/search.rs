//! Resumable breadth-first and depth-first traversal.
//!
//! A traversal is driven one step at a time.  Each step draws one vertex
//! from the frontier, records the pair under which the vertex enters the
//! spanning forest and appends the undiscovered neighbours of the vertex to
//! the frontier.  When the frontier is empty the lowest vertex that was not
//! drawn yet is seeded, so that the forest finally covers every vertex.
//!
//! The two disciplines differ only in the end of the frontier from which
//! they draw.  An edge is an entry equal to one.

use crate::forest::{lemma_advance_sound, sound};
use crate::matrix::{zero_rows, AdjMatrix};
use std::collections::VecDeque;
use std::marker::PhantomData;
use vstd::prelude::*;

verus! {

/// The state of a traversal as mathematical data.
pub ghost struct Traversal {
    /// The number of vertices of the graph that is traversed.
    pub size: usize,
    /// The vertex drawn last.
    pub active: usize,
    /// The discovery pairs `(parent, child)` in the order of discovery.
    pub visited: Seq<(usize, usize)>,
    /// The discovered vertices that wait to be drawn.
    pub frontier: Seq<usize>,
    /// The forest pairs `(parent, child)` in the order in which the
    /// vertices were drawn.
    pub tree: Seq<(usize, usize)>,
}

/// The discipline of a traversal: the place in the frontier from which the
/// next vertex is drawn.
pub trait Search {
    /// The index of the item that is drawn from a non-empty frontier.
    spec fn position(frontier: Seq<usize>) -> int;

    /// The drawn item is an item of the frontier.
    proof fn lemma_position(frontier: Seq<usize>)
        requires
            frontier.len() > 0,
        ensures
            0 <= Self::position(frontier) < frontier.len(),
    ;

    /// Takes the next item out of the frontier, if there is one.
    fn draw(frontier: &mut VecDeque<usize>) -> (drawn: Option<usize>)
        ensures
            old(frontier)@.len() == 0 ==> drawn is None && final(frontier)@ == old(frontier)@,
            old(frontier)@.len() > 0 ==> drawn == Some(
                old(frontier)@[Self::position(old(frontier)@)],
            ) && final(frontier)@ == old(frontier)@.remove(Self::position(old(frontier)@)),
    ;
}

/// Breadth first: the frontier is a queue.
#[derive(Debug)]
pub struct Bfs;

/// Depth first: the frontier is a stack.
#[derive(Debug)]
pub struct Dfs;

impl Search for Bfs {
    open spec fn position(frontier: Seq<usize>) -> int {
        0
    }

    proof fn lemma_position(frontier: Seq<usize>) {
    }

    fn draw(frontier: &mut VecDeque<usize>) -> (drawn: Option<usize>) {
        let drawn = frontier.pop_front();
        proof {
            if old(frontier)@.len() > 0 {
                assert(frontier@ =~= old(frontier)@.remove(0));
            }
        }
        drawn
    }
}

impl Search for Dfs {
    open spec fn position(frontier: Seq<usize>) -> int {
        frontier.len() - 1
    }

    proof fn lemma_position(frontier: Seq<usize>) {
    }

    fn draw(frontier: &mut VecDeque<usize>) -> (drawn: Option<usize>) {
        let drawn = frontier.pop_back();
        proof {
            if old(frontier)@.len() > 0 {
                assert(frontier@ =~= old(frontier)@.remove(old(frontier)@.len() - 1));
            }
        }
        drawn
    }
}

/// The state of one traversal run.
#[derive(Debug)]
pub struct SearchStep<S: Search> {
    /// The number of vertices of the graph that is traversed.
    pub size: usize,
    /// The vertex drawn last.
    pub active: usize,
    /// The discovery pairs `(parent, child)` in the order of discovery.
    pub visited: Vec<(usize, usize)>,
    /// The discovered vertices that wait to be drawn.
    pub queue: VecDeque<usize>,
    /// The forest pairs `(parent, child)` in the order in which the
    /// vertices were drawn.
    pub tree: Vec<(usize, usize)>,
    marker: PhantomData<S>,
}

impl<S: Search> View for SearchStep<S> {
    type V = Traversal;

    /// The public fields, the lists taken as sequences.  The methods named
    /// after the fields read them and tie them to this view.
    closed spec fn view(&self) -> Traversal {
        Traversal {
            size: self.size,
            active: self.active,
            visited: self.visited@,
            frontier: self.queue@,
            tree: self.tree@,
        }
    }
}

/// The state of a traversal of a graph of `size` vertices that is about to
/// start at `start`.
pub open spec fn start_at(start: usize, size: usize) -> Traversal {
    Traversal {
        size,
        active: start,
        visited: seq![(start, start)],
        frontier: seq![start],
        tree: Seq::empty(),
    }
}

impl<S: Search> SearchStep<S> {
    /// A traversal, rooted at `active`, of a graph of `size` vertices.
    pub fn new(active: usize, size: usize) -> (ret: Self)
        ensures
            ret@ == start_at(active, size),
    {
        let mut visited: Vec<(usize, usize)> = Vec::with_capacity(size);
        visited.push((active, active));
        let mut queue: VecDeque<usize> = VecDeque::with_capacity(size);
        queue.push_back(active);
        let ret = SearchStep {
            size,
            active,
            visited,
            queue,
            tree: Vec::with_capacity(size),
            marker: PhantomData,
        };
        assert(ret@.visited =~= seq![(active, active)]);
        assert(ret@.frontier =~= seq![active]);
        ret
    }

    /// The number of vertices of the graph that is traversed.
    pub fn size(&self) -> (ret: usize)
        ensures
            ret == self@.size,
    {
        self.size
    }

    /// The vertex drawn last.
    pub fn active(&self) -> (ret: usize)
        ensures
            ret == self@.active,
    {
        self.active
    }

    /// The discovery pairs in the order of discovery.
    pub fn visited(&self) -> (ret: &Vec<(usize, usize)>)
        ensures
            ret@ == self@.visited,
    {
        &self.visited
    }

    /// The discovered vertices that wait to be drawn.
    pub fn queue(&self) -> (ret: &VecDeque<usize>)
        ensures
            ret@ == self@.frontier,
    {
        &self.queue
    }

    /// The forest pairs in the order in which the vertices were drawn.
    pub fn tree(&self) -> (ret: &Vec<(usize, usize)>)
        ensures
            ret@ == self@.tree,
    {
        &self.tree
    }
}

/// The frontier of a traversal.
pub trait Queue {
    /// Appends a discovered vertex.
    fn push_queue(&mut self, value: usize);

    /// Draws the next vertex, if there is one.
    fn pop_queue(&mut self) -> Option<usize>;
}

impl<S: Search> Queue for SearchStep<S> {
    fn push_queue(&mut self, value: usize)
        ensures
            final(self)@ == (Traversal { frontier: old(self)@.frontier.push(value), ..old(self)@ }),
    {
        self.queue.push_back(value);
    }

    fn pop_queue(&mut self) -> (drawn: Option<usize>)
        ensures
            old(self)@.frontier.len() == 0 ==> drawn is None && final(self)@ == old(self)@,
            old(self)@.frontier.len() > 0 ==> drawn == Some(
                old(self)@.frontier[S::position(old(self)@.frontier)],
            ) && final(self)@ == (Traversal {
                frontier: old(self)@.frontier.remove(S::position(old(self)@.frontier)),
                ..old(self)@
            }),
    {
        S::draw(&mut self.queue)
    }
}

/// Some pair of the list has `v` as its child.
pub open spec fn has_child(pairs: Seq<(usize, usize)>, v: usize) -> bool {
    exists|q: int| 0 <= q < pairs.len() && (#[trigger] pairs[q]).1 == v
}

/// The first pair, from index `from` on, whose child is `v`; the pair
/// `(v, v)` if there is none.
pub open spec fn first_pair(pairs: Seq<(usize, usize)>, v: usize, from: int) -> (usize, usize)
    decreases pairs.len() - from,
{
    if from < 0 || from >= pairs.len() {
        (v, v)
    } else if pairs[from].1 == v {
        pairs[from]
    } else {
        first_pair(pairs, v, from + 1)
    }
}

/// The lowest vertex from `from` on that is no child in `tree`; `n` if every
/// such vertex below `n` is one.
pub open spec fn first_undrawn(tree: Seq<(usize, usize)>, n: nat, from: nat) -> nat
    decreases n - from,
{
    if from >= n {
        n
    } else if !has_child(tree, from as usize) {
        from
    } else {
        first_undrawn(tree, n, from + 1)
    }
}

/// The state after the neighbours below `upto` of the drawn vertex `v` have
/// been looked at: each neighbour that was not discovered before is
/// discovered from `v` and joins the frontier.
pub open spec fn scan(m: Seq<Seq<int>>, v: usize, t: Traversal, upto: nat) -> Traversal
    decreases upto,
{
    if upto == 0 {
        t
    } else {
        let p = scan(m, v, t, (upto - 1) as nat);
        let w = (upto - 1) as usize;
        if m[v as int][w as int] == 1 && !has_child(p.visited, w) {
            Traversal { visited: p.visited.push((v, w)), frontier: p.frontier.push(w), ..p }
        } else {
            p
        }
    }
}

/// The state after the item at index `pos` of the frontier has been drawn.
pub open spec fn draw_at(m: Seq<Seq<int>>, t: Traversal, pos: int) -> Traversal {
    let v = t.frontier[pos];
    scan(
        m,
        v,
        Traversal {
            size: t.size,
            active: v,
            visited: t.visited,
            frontier: t.frontier.remove(pos),
            tree: t.tree.push(first_pair(t.visited, v, 0)),
        },
        m.len(),
    )
}

/// Whether a step has anything to do: a vertex waits in the frontier, or
/// some vertex was not drawn yet.
pub open spec fn has_work(m: Seq<Seq<int>>, t: Traversal) -> bool {
    t.frontier.len() > 0 || first_undrawn(t.tree, m.len(), 0) < m.len()
}

/// The state after one step.  A step on a state without work changes
/// nothing.
pub open spec fn advance<S: Search>(m: Seq<Seq<int>>, t: Traversal) -> Traversal {
    if t.frontier.len() > 0 {
        draw_at(m, t, S::position(t.frontier))
    } else if first_undrawn(t.tree, m.len(), 0) < m.len() {
        let seeded = seq![first_undrawn(t.tree, m.len(), 0) as usize];
        draw_at(m, Traversal { frontier: seeded, ..t }, S::position(seeded))
    } else {
        t
    }
}

/// Every vertex that waits in the frontier is a vertex of the graph.
pub open spec fn frontier_in_range(t: Traversal, n: nat) -> bool {
    forall|q: int| 0 <= q < t.frontier.len() ==> (#[trigger] t.frontier[q]) < n
}

/// Looking at neighbours keeps the frontier within the graph.
proof fn lemma_scan_in_range(m: Seq<Seq<int>>, v: usize, t: Traversal, upto: nat)
    requires
        frontier_in_range(t, m.len()),
        upto <= m.len(),
    ensures
        frontier_in_range(scan(m, v, t, upto), m.len()),
        scan(m, v, t, upto).tree == t.tree,
        scan(m, v, t, upto).active == t.active,
    decreases upto,
{
    if upto > 0 {
        lemma_scan_in_range(m, v, t, (upto - 1) as nat);
    }
}

/// Whether the list has a pair with child `v`.
fn child_listed(pairs: &Vec<(usize, usize)>, v: usize) -> (ret: bool)
    ensures
        ret == has_child(pairs@, v),
{
    let mut q: usize = 0;
    while q < pairs.len()
        invariant
            q <= pairs@.len(),
            forall|r: int| 0 <= r < q ==> (#[trigger] pairs@[r]).1 != v,
        decreases pairs@.len() - q,
    {
        if pairs[q].1 == v {
            return true;
        }
        q += 1;
    }
    false
}

/// The first pair with child `v`, or `(v, v)`.
fn parent_pair(pairs: &Vec<(usize, usize)>, v: usize) -> (ret: (usize, usize))
    ensures
        ret == first_pair(pairs@, v, 0),
{
    let mut q: usize = 0;
    while q < pairs.len()
        invariant
            q <= pairs@.len(),
            first_pair(pairs@, v, 0) == first_pair(pairs@, v, q as int),
        decreases pairs@.len() - q,
    {
        if pairs[q].1 == v {
            return pairs[q];
        }
        q += 1;
    }
    (v, v)
}

/// The lowest vertex below `n` that is no child in `tree`, or `n`.
fn lowest_undrawn(tree: &Vec<(usize, usize)>, n: usize) -> (ret: usize)
    ensures
        ret == first_undrawn(tree@, n as nat, 0),
{
    let mut v: usize = 0;
    while v < n
        invariant
            v <= n,
            first_undrawn(tree@, n as nat, 0) == first_undrawn(tree@, n as nat, v as nat),
        decreases n - v,
    {
        if !child_listed(tree, v) {
            return v;
        }
        v += 1;
    }
    n
}

impl AdjMatrix {
    /// One step of a traversal of this graph.  Returns whether the step did
    /// anything; it does not once the frontier is empty and every vertex has
    /// been drawn.  A state that is sound for this graph stays sound.
    pub fn search_next<S: Search>(&self, step: &mut SearchStep<S>) -> (more: bool)
        requires
            self.wf(),
            frontier_in_range(old(step)@, self.size()),
        ensures
            more == has_work(self@, old(step)@),
            final(step)@ == advance::<S>(self@, old(step)@),
            frontier_in_range(final(step)@, self.size()),
            sound(self@, old(step)@) ==> sound(self@, final(step)@),
    {
        let n = self.0.len();
        assert(n == self@.len());
        proof {
            if sound(self@, step@) {
                lemma_advance_sound::<S>(self@, step@);
            }
        }
        proof {
            if step@.frontier.len() > 0 {
                S::lemma_position(step@.frontier);
            }
        }
        let next = match step.pop_queue() {
            Some(v) => v,
            None => {
                let seed = lowest_undrawn(&step.tree, n);
                if seed >= n {
                    return false;
                }
                step.push_queue(seed);
                proof {
                    assert(step@.frontier =~= seq![seed]);
                    S::lemma_position(step@.frontier);
                }
                match step.pop_queue() {
                    Some(v) => v,
                    None => {
                        return false;
                    },
                }
            },
        };
        assert(next < n);
        step.active = next;
        let pair = parent_pair(&step.visited, next);
        step.tree.push(pair);
        let ghost drawn = step@;
        assert(self@[next as int].len() == n);
        let mut i: usize = 0;
        while i < n
            invariant
                self.wf(),
                n == self.size(),
                n == self@.len(),
                next < n,
                i <= n,
                frontier_in_range(drawn, n as nat),
                step@ == scan(self@, next, drawn, i as nat),
            decreases n - i,
        {
            if self.entry(next, i) == 1 && !child_listed(&step.visited, i) {
                step.visited.push((next, i));
                step.push_queue(i);
            }
            i += 1;
        }
        proof {
            lemma_scan_in_range(self@, next, drawn, n as nat);
        }
        true
    }

    /// The spanning forest of a traversal as a matrix over the vertices of
    /// the graph: entry `(parent, child)` is one for every forest pair with
    /// two different vertices, and every other entry is zero.  The forest
    /// may be that of a traversal that has not finished.
    pub fn from<S: Search>(value: &SearchStep<S>) -> (ret: AdjMatrix)
        requires
            pairs_in_range(value@.tree, value@.size as nat),
        ensures
            ret.wf(),
            ret.size() == value@.size,
            ret@ == forest_matrix(value@.tree, value@.size as nat),
    {
        let size = value.size;
        let count = value.tree.len();
        let mut cells = zero_rows(size);
        let mut t: usize = 0;
        while t < count
            invariant
                size == value@.size,
                count == value@.tree.len(),
                value.tree@ == value@.tree,
                pairs_in_range(value@.tree, size as nat),
                t <= count,
                cells@.len() == size,
                forall|p: int| 0 <= p < size ==> (#[trigger] cells@[p])@.len() == size,
                forall|p: int, c: int|
                    0 <= p < size && 0 <= c < size ==> (#[trigger] cells@[p]@[c]) == (if p != c
                        && has_pair(value@.tree.take(t as int), p, c) {
                        1u32
                    } else {
                        0u32
                    }),
            decreases count - t,
        {
            let (from, to) = value.tree[t];
            let ghost before = value@.tree.take(t as int);
            let ghost after = value@.tree.take(t + 1);
            assert(after =~= before.push((from, to)));
            assert(value@.tree[t as int] == (from, to));
            if from != to {
                cells[from][to] = 1;
            }
            proof {
                assert forall|p: int, c: int| 0 <= p < size && 0 <= c < size implies (
                #[trigger] cells@[p]@[c]) == (if p != c && has_pair(after, p, c) {
                    1u32
                } else {
                    0u32
                }) by {
                    if has_pair(after, p, c) {
                        let q = choose|q: int|
                            0 <= q < after.len() && (#[trigger] after[q]).0 == p && after[q].1 == c;
                        if q < t {
                            assert(before[q] == after[q]);
                        }
                    }
                    if has_pair(before, p, c) {
                        let q = choose|q: int|
                            0 <= q < before.len() && (#[trigger] before[q]).0 == p && before[q].1
                                == c;
                        assert(after[q] == before[q]);
                    }
                    if from == p && to == c {
                        assert(after[t as int] == (from, to));
                    }
                }
            }
            t += 1;
        }
        let ret = AdjMatrix(cells);
        proof {
            assert(value@.tree.take(count as int) =~= value@.tree);
            assert(ret@ =~~= forest_matrix(value@.tree, size as nat));
        }
        ret
    }
}

/// Both vertices of every pair are below `n`.
pub open spec fn pairs_in_range(pairs: Seq<(usize, usize)>, n: nat) -> bool {
    forall|q: int| 0 <= q < pairs.len() ==> (#[trigger] pairs[q]).0 < n && pairs[q].1 < n
}

/// The list holds the pair `(p, c)`.
pub open spec fn has_pair(pairs: Seq<(usize, usize)>, p: int, c: int) -> bool {
    exists|q: int| 0 <= q < pairs.len() && (#[trigger] pairs[q]).0 == p && pairs[q].1 == c
}

/// The matrix of a forest over `n` vertices: entry `(p, c)` is one if `p`
/// and `c` differ and `(p, c)` is a forest pair, and zero otherwise.
pub open spec fn forest_matrix(tree: Seq<(usize, usize)>, n: nat) -> Seq<Seq<int>> {
    Seq::new(
        n,
        |p: int|
            Seq::new(
                n,
                |c: int|
                    if p != c && has_pair(tree, p, c) {
                        1int
                    } else {
                        0int
                    },
            ),
    )
}

} // verus!
