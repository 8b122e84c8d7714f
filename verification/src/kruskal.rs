//! Resumable construction of a minimum spanning forest after Kruskal.
//!
//! The caller owns the queue of candidate edges `(u, v, weight)`, sorted by
//! weight, and hands it to every step.  A step settles the edge that was
//! pulled by the step before (it joins the forest if its ends lie in two
//! different sets), then pulls the next edge.

use crate::union_find::{
    is_partition, lemma_all_sets, lemma_some_set, set_count, union_ranks, union_roots, UnionFind,
};
use crate::weighted::Graph;
use std::collections::VecDeque;
use vstd::prelude::*;

verus! {

/// The state of a forest construction as mathematical data.
pub ghost struct Forest {
    /// The edge that the next step settles.
    pub current: Option<(usize, usize, u32)>,
    /// The accepted edges in the order of their acceptance.
    pub tree: Seq<(usize, usize, u32)>,
    /// The representative of the set of every vertex.
    pub roots: Seq<int>,
    /// The rank of every vertex in the disjoint-set forest.
    pub ranks: Seq<int>,
}

/// Both ends of every edge are below `n`.
pub open spec fn edges_in_range(edges: Seq<(usize, usize, u32)>, n: nat) -> bool {
    forall|q: int| 0 <= q < edges.len() ==> (#[trigger] edges[q]).0 < n && edges[q].1 < n
}

/// What holds of the state between any two steps: there is a vertex, the
/// sets form a partition, the pending edge lies within the graph, and every
/// accepted edge has reduced the number of sets by one.
pub open spec fn consistent(f: Forest) -> bool {
    &&& f.roots.len() >= 1
    &&& f.ranks.len() == f.roots.len()
    &&& is_partition(f.roots)
    &&& f.tree.len() + set_count(f.roots) == f.roots.len()
    &&& match f.current {
        Some(e) => e.0 < f.roots.len() && e.1 < f.roots.len(),
        None => true,
    }
}

/// The state after the pending edge has been settled: an edge whose ends
/// lie in one set is dropped, any other edge joins the two sets and the
/// forest.
pub open spec fn settled(f: Forest) -> Forest {
    match f.current {
        Some(e) => if f.roots[e.0 as int] == f.roots[e.1 as int] {
            f
        } else {
            Forest {
                tree: f.tree.push(e),
                roots: union_roots(f.roots, f.ranks, e.0 as int, e.1 as int),
                ranks: union_ranks(f.roots, f.ranks, e.0 as int, e.1 as int),
                ..f
            }
        },
        None => f,
    }
}

/// The forest spans the graph: it has one edge less than there are vertices.
pub open spec fn spanning(f: Forest) -> bool {
    f.tree.len() == f.roots.len() - 1
}

/// The state after one step.
pub open spec fn state_after(queue: Seq<(usize, usize, u32)>, f: Forest) -> Forest {
    if spanning(f) {
        Forest { current: None, ..f }
    } else if queue.len() > 0 {
        Forest { current: Some(queue[0]), ..settled(f) }
    } else {
        Forest { current: None, ..settled(f) }
    }
}

/// The queue after one step.
pub open spec fn queue_after(queue: Seq<(usize, usize, u32)>, f: Forest) -> Seq<
    (usize, usize, u32),
> {
    if !spanning(f) && queue.len() > 0 {
        queue.drop_first()
    } else {
        queue
    }
}

/// Whether a step pulls an edge, so that more steps remain.
pub open spec fn pulls(queue: Seq<(usize, usize, u32)>, f: Forest) -> bool {
    !spanning(f) && queue.len() > 0
}

/// The sum of the weights of the edges.
pub open spec fn weight_total(edges: Seq<(usize, usize, u32)>) -> nat
    decreases edges.len(),
{
    if edges.len() == 0 {
        0
    } else {
        weight_total(edges.drop_last()) + edges.last().2 as nat
    }
}

/// The forest never has more edges than a spanning tree: one less than
/// there are vertices.
pub proof fn lemma_forest_size(f: Forest)
    requires
        consistent(f),
    ensures
        f.tree.len() <= f.roots.len() - 1,
{
    lemma_some_set(f.roots);
}

/// A step accepts at most the pending edge, and only if its two ends lie in
/// different sets.
pub proof fn lemma_accepts_joining_edges(queue: Seq<(usize, usize, u32)>, f: Forest)
    ensures
        state_after(queue, f).tree == f.tree || match f.current {
            Some(e) => f.roots[e.0 as int] != f.roots[e.1 as int] && state_after(queue, f).tree
                == f.tree.push(e),
            None => false,
        },
{
}

/// The sum over the first edges is at most the sum over all edges.
proof fn lemma_weight_prefix(edges: Seq<(usize, usize, u32)>, k: int)
    requires
        0 <= k <= edges.len(),
    ensures
        weight_total(edges.take(k)) <= weight_total(edges),
    decreases edges.len(),
{
    if k < edges.len() {
        lemma_weight_prefix(edges.drop_last(), k);
        assert(edges.drop_last().take(k) =~= edges.take(k));
    } else {
        assert(edges.take(k) =~= edges);
    }
}

/// The state of one forest construction.
pub struct KruskalStep {
    /// The edge that the next step settles.
    pub current: Option<(usize, usize, u32)>,
    /// The accepted edges in the order of their acceptance.
    pub tree: Vec<(usize, usize, u32)>,
    uf: UnionFind,
}

impl View for KruskalStep {
    type V = Forest;

    /// The two public fields and the disjoint sets.  The methods named
    /// after the fields read them and tie them to this view.
    closed spec fn view(&self) -> Forest {
        Forest {
            current: self.current,
            tree: self.tree@,
            roots: self.uf@,
            ranks: self.uf.ranks(),
        }
    }
}

impl KruskalStep {
    /// The internal invariant: the disjoint sets are well formed and the
    /// state is consistent.
    pub closed spec fn wf(&self) -> bool {
        self.uf.wf() && consistent(self@)
    }

    /// A well-formed state is consistent.
    pub proof fn lemma_consistent(&self)
        requires
            self.wf(),
        ensures
            consistent(self@),
    {
    }

    /// The start of a construction over `vertex_count` vertices: no edge
    /// pending, no edge accepted, every vertex in a set of its own.
    pub fn new(vertex_count: usize) -> (ret: Self)
        requires
            vertex_count >= 1,
        ensures
            ret.wf(),
            ret@ == (Forest {
                current: None,
                tree: Seq::empty(),
                roots: Seq::new(vertex_count as nat, |x: int| x),
                ranks: Seq::new(vertex_count as nat, |x: int| 0int),
            }),
    {
        let ret = KruskalStep {
            current: None,
            tree: Vec::with_capacity(vertex_count - 1),
            uf: UnionFind::new(vertex_count),
        };
        proof {
            lemma_all_sets(vertex_count as nat, vertex_count as nat);
        }
        ret
    }

    /// The edge that the next step settles.
    pub fn current(&self) -> (ret: Option<(usize, usize, u32)>)
        ensures
            ret == self@.current,
    {
        self.current
    }

    /// The accepted edges in the order of their acceptance.
    pub fn tree(&self) -> (ret: &Vec<(usize, usize, u32)>)
        ensures
            ret@ == self@.tree,
    {
        &self.tree
    }

    /// The number of vertices.
    pub fn vertex_count(&self) -> (ret: usize)
        requires
            self.wf(),
        ensures
            ret == self@.roots.len(),
    {
        self.uf.len()
    }

    /// The sum of the weights of the accepted edges, or nothing where the
    /// sum does not fit the result type.
    pub fn checked_weight_sum(&self) -> (ret: Option<usize>)
        ensures
            match ret {
                Some(sum) => sum == weight_total(self@.tree),
                None => weight_total(self@.tree) > usize::MAX,
            },
    {
        let mut sum: usize = 0;
        let mut i: usize = 0;
        while i < self.tree.len()
            invariant
                i <= self.tree@.len(),
                self.tree@ == self@.tree,
                sum == weight_total(self.tree@.take(i as int)),
            decreases self.tree@.len() - i,
        {
            proof {
                lemma_weight_prefix(self.tree@, i + 1);
                assert(self.tree@.take(i + 1).drop_last() =~= self.tree@.take(i as int));
            }
            match sum.checked_add(self.tree[i].2 as usize) {
                Some(next) => {
                    sum = next;
                },
                None => {
                    return None;
                },
            }
            i += 1;
        }
        assert(self.tree@.take(i as int) =~= self.tree@);
        Some(sum)
    }

    /// The sum of the weights of the accepted edges.
    pub fn weight_sum(&self) -> (ret: usize)
        requires
            weight_total(self@.tree) <= usize::MAX,
        ensures
            ret == weight_total(self@.tree),
    {
        let mut sum: usize = 0;
        let mut i: usize = 0;
        while i < self.tree.len()
            invariant
                i <= self.tree@.len(),
                self.tree@ == self@.tree,
                weight_total(self@.tree) <= usize::MAX,
                sum == weight_total(self.tree@.take(i as int)),
            decreases self.tree@.len() - i,
        {
            proof {
                lemma_weight_prefix(self.tree@, i + 1);
                assert(self.tree@.take(i + 1).drop_last() =~= self.tree@.take(i as int));
            }
            sum = sum + self.tree[i].2 as usize;
            i += 1;
        }
        assert(self.tree@.take(i as int) =~= self.tree@);
        sum
    }
}

impl Graph {
    /// One step of the construction.  Returns whether an edge was pulled
    /// from the queue, so that more steps remain.
    ///
    /// A forest that spans the graph ends the construction: the pending
    /// edge is dropped and the queue stays as it is.  Otherwise the pending
    /// edge is settled and the next edge is pulled.
    pub fn kruskal_step(edges: &mut VecDeque<(usize, usize, u32)>, step: &mut KruskalStep) -> (more:
        bool)
        requires
            old(step).wf(),
            edges_in_range(old(edges)@, old(step)@.roots.len()),
        ensures
            final(step).wf(),
            final(step)@ == state_after(old(edges)@, old(step)@),
            final(edges)@ == queue_after(old(edges)@, old(step)@),
            more == pulls(old(edges)@, old(step)@),
            edges_in_range(final(edges)@, final(step)@.roots.len()),
            final(step)@.roots.len() == old(step)@.roots.len(),
    {
        proof {
            step.uf.lemma_partition();
        }
        if step.tree.len() == step.uf.len() - 1 {
            step.current = None;
            return false;
        }
        if let Some(current) = step.current {
            if step.uf.find(current.0) != step.uf.find(current.1) {
                step.uf.union(current.0, current.1);
                step.tree.push(current);
            }
        }
        proof {
            step.uf.lemma_partition();
        }
        step.current = edges.pop_front();
        proof {
            if old(edges)@.len() > 0 {
                assert(edges@ =~= old(edges)@.drop_first());
            }
        }
        step.current.is_some()
    }
}

} // verus!
