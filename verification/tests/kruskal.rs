use graph_engine::kruskal::KruskalStep;
use graph_engine::matrix::AdjMatrix;
use graph_engine::union_find::UnionFind;
use graph_engine::weighted::Graph;
use std::collections::VecDeque;

fn run(edges: &[(usize, usize, u32)], vertex_count: usize) -> (KruskalStep, Vec<bool>) {
    let mut queue: VecDeque<(usize, usize, u32)> = edges.iter().copied().collect();
    let mut step = KruskalStep::new(vertex_count);
    let mut answers = Vec::new();
    loop {
        let more = Graph::kruskal_step(&mut queue, &mut step);
        answers.push(more);
        if !more {
            return (step, answers);
        }
        assert!(answers.len() <= edges.len() + 2);
    }
}

#[test]
fn new_sets_are_their_own_representatives() {
    let mut uf = UnionFind::new(4);
    assert_eq!(uf.len(), 4);
    for x in 0..4 {
        assert_eq!(uf.find(x), x);
    }
}

#[test]
fn union_joins_two_sets_once() {
    let mut uf = UnionFind::new(4);
    assert!(uf.union(0, 1));
    assert_eq!(uf.find(0), uf.find(1));
    assert!(!uf.union(1, 0));
    assert!(!uf.union(0, 0));
    assert_ne!(uf.find(2), uf.find(0));
    assert_ne!(uf.find(2), uf.find(3));
}

#[test]
fn union_puts_the_lower_rank_below_the_higher() {
    let mut uf = UnionFind::new(5);
    assert!(uf.union(0, 1));
    assert_eq!(uf.find(1), 0);
    assert!(uf.union(2, 3));
    assert_eq!(uf.find(3), 2);
    assert!(uf.union(3, 1));
    assert_eq!(uf.find(0), 2);
    assert_eq!(uf.find(1), 2);
    assert!(uf.union(4, 0));
    assert_eq!(uf.find(4), 2);
    assert!(uf.union(1, 1) == false);
}

#[test]
fn find_keeps_the_sets() {
    let mut uf = UnionFind::new(6);
    uf.union(0, 1);
    uf.union(2, 3);
    uf.union(0, 2);
    uf.union(4, 5);
    let before: Vec<usize> = (0..6).map(|x| uf.find(x)).collect();
    let again: Vec<usize> = (0..6).map(|x| uf.find(x)).collect();
    assert_eq!(before, again);
    assert_eq!(before, vec![0, 0, 0, 0, 4, 4]);
}

#[test]
fn a_new_construction_is_empty() {
    let step = KruskalStep::new(4);
    assert_eq!(step.current, None);
    assert!(step.tree.is_empty());
    assert_eq!(step.weight_sum(), 0);
}

#[test]
fn two_separate_edges_are_both_accepted() {
    let (step, answers) = run(&[(0, 1, 5), (2, 3, 5)], 4);
    assert_eq!(step.tree, vec![(0, 1, 5), (2, 3, 5)]);
    assert_eq!(step.tree.len(), 2);
    assert_eq!(step.weight_sum(), 10);
    assert_eq!(step.current, None);
    assert_eq!(answers, vec![true, true, false]);
}

#[test]
fn the_first_step_only_pulls_an_edge() {
    let mut queue: VecDeque<(usize, usize, u32)> = VecDeque::from(vec![(0, 1, 5), (1, 2, 6)]);
    let mut step = KruskalStep::new(3);
    assert!(Graph::kruskal_step(&mut queue, &mut step));
    assert_eq!(step.current, Some((0, 1, 5)));
    assert!(step.tree.is_empty());
    assert_eq!(queue, [(1, 2, 6)]);
    assert!(Graph::kruskal_step(&mut queue, &mut step));
    assert_eq!(step.current, Some((1, 2, 6)));
    assert_eq!(step.tree, vec![(0, 1, 5)]);
    assert!(queue.is_empty());
}

#[test]
fn an_edge_within_one_set_is_dropped() {
    let (step, answers) = run(&[(0, 1, 1), (1, 2, 1), (0, 2, 2), (2, 3, 3)], 4);
    assert_eq!(step.tree, vec![(0, 1, 1), (1, 2, 1), (2, 3, 3)]);
    assert_eq!(step.weight_sum(), 5);
    assert_eq!(answers, vec![true, true, true, true, false]);
}

#[test]
fn a_spanning_forest_ends_the_construction() {
    let mut queue: VecDeque<(usize, usize, u32)> =
        VecDeque::from(vec![(0, 1, 1), (1, 2, 2), (0, 2, 3), (0, 1, 4)]);
    let mut step = KruskalStep::new(3);
    assert!(Graph::kruskal_step(&mut queue, &mut step));
    assert!(Graph::kruskal_step(&mut queue, &mut step));
    assert!(Graph::kruskal_step(&mut queue, &mut step));
    assert_eq!(step.tree, vec![(0, 1, 1), (1, 2, 2)]);
    assert_eq!(step.current, Some((0, 2, 3)));
    assert!(!Graph::kruskal_step(&mut queue, &mut step));
    assert_eq!(step.current, None);
    assert_eq!(queue, [(0, 1, 4)]);
    assert_eq!(step.tree.len(), 2);
    assert_eq!(step.weight_sum(), 3);
    assert!(!Graph::kruskal_step(&mut queue, &mut step));
    assert_eq!(queue, [(0, 1, 4)]);
}

#[test]
fn a_connected_graph_gets_a_tree_of_all_but_one_vertex() {
    let edges = [(0, 1, 1), (2, 3, 1), (1, 2, 2), (0, 3, 2), (3, 4, 7)];
    let (step, _) = run(&edges, 5);
    assert_eq!(step.tree.len(), 4);
    assert_eq!(step.tree, vec![(0, 1, 1), (2, 3, 1), (1, 2, 2), (3, 4, 7)]);
    assert_eq!(step.weight_sum(), 11);
}

#[test]
fn a_disconnected_graph_gets_a_smaller_forest() {
    let (step, answers) = run(&[(0, 1, 3), (0, 1, 4)], 3);
    assert_eq!(step.tree, vec![(0, 1, 3)]);
    assert!(step.tree.len() < 2);
    assert_eq!(answers, vec![true, true, false]);
}

#[test]
fn a_graph_without_edges_ends_at_once() {
    let (step, answers) = run(&[], 3);
    assert!(step.tree.is_empty());
    assert_eq!(answers, vec![false]);
    let (single, answers) = run(&[], 1);
    assert!(single.tree.is_empty());
    assert_eq!(answers, vec![false]);
}

#[test]
fn no_accepted_edge_closes_a_cycle() {
    let edges = [(0, 1, 1), (1, 2, 1), (0, 2, 1), (2, 3, 2), (1, 3, 2), (0, 3, 2)];
    let (step, _) = run(&edges, 4);
    let mut check = UnionFind::new(4);
    for (u, v, _) in &step.tree {
        assert!(check.union(*u, *v));
    }
    assert_eq!(step.tree.len(), 3);
}

#[test]
fn weight_sum_adds_the_weights_of_the_tree() {
    let mut step = KruskalStep::new(3);
    step.tree.push((0, 1, 4_000_000_000));
    step.tree.push((1, 2, 7));
    assert_eq!(step.weight_sum(), 4_000_000_007);
}

#[test]
fn edges_are_queued_by_weight_and_then_by_cell() {
    let graph = Graph(vec![
        vec![Some(0), Some(7), Some(2), None],
        vec![Some(7), Some(0), Some(7), Some(1)],
        vec![Some(2), Some(7), Some(0), Some(2)],
        vec![None, Some(1), Some(2), Some(0)],
    ]);
    assert_eq!(
        graph.sorted_edges(),
        [(1, 3, 1), (0, 2, 2), (2, 3, 2), (0, 1, 7), (1, 2, 7)]
    );
}

#[test]
fn only_cells_above_the_diagonal_are_queued() {
    let graph = Graph(vec![vec![Some(9), None], vec![Some(3), Some(1)]]);
    assert!(graph.sorted_edges().is_empty());
    assert!(Graph(vec![]).sorted_edges().is_empty());
}

#[test]
fn queued_edges_build_the_forest() {
    let graph = Graph(vec![
        vec![Some(0), Some(7), Some(2)],
        vec![Some(7), Some(0), Some(3)],
        vec![Some(2), Some(3), Some(0)],
    ]);
    let mut queue = graph.sorted_edges();
    let mut step = KruskalStep::new(3);
    while Graph::kruskal_step(&mut queue, &mut step) {}
    assert_eq!(step.tree, vec![(0, 2, 2), (1, 2, 3)]);
    assert_eq!(step.weight_sum(), 5);
}

#[test]
fn drafts_become_symmetric_weights() {
    let drafts = AdjMatrix(vec![vec![9, 5, 0], vec![2, 0, 3], vec![4, 0, 8]]);
    let graph = Graph::from_drafts(&drafts);
    assert_eq!(
        graph.0,
        vec![
            vec![None, Some(5), None],
            vec![Some(5), None, Some(6)],
            vec![None, Some(6), None],
        ]
    );
}

#[test]
fn a_draft_without_mirror_image_counts_twice() {
    let drafts = AdjMatrix(vec![vec![0, 100], vec![0, 0]]);
    assert_eq!(Graph::from_drafts(&drafts).0, vec![vec![None, Some(200)], vec![Some(200), None]]);
    let drafts = AdjMatrix(vec![vec![0, 100], vec![1, 0]]);
    assert_eq!(Graph::from_drafts(&drafts).0, vec![vec![None, Some(100)], vec![Some(100), None]]);
}

#[test]
fn every_cell_from_drafts_is_empty_or_a_positive_weight() {
    let drafts = AdjMatrix(vec![vec![7, 1, 0, 3], vec![0, 9, 2, 0], vec![5, 0, 0, 0], vec![3, 4, 0, 1]]);
    let graph = Graph::from_drafts(&drafts).0;
    assert_eq!(graph.len(), 4);
    for i in 0..4 {
        assert_eq!(graph[i].len(), 4);
        assert_eq!(graph[i][i], None);
        for j in 0..4 {
            assert_eq!(graph[i][j], graph[j][i]);
            assert!(graph[i][j].map_or(true, |weight| weight >= 1));
        }
    }
    assert_eq!(graph[0], vec![None, Some(2), None, Some(3)]);
    assert_eq!(graph[1], vec![Some(2), None, Some(4), None]);
}

#[test]
fn the_methods_of_a_construction_read_its_fields() {
    let mut queue: VecDeque<(usize, usize, u32)> = VecDeque::from(vec![(0, 1, 5), (1, 2, 6)]);
    let mut step = KruskalStep::new(3);
    assert_eq!(step.vertex_count(), 3);
    assert_eq!(step.current(), None);
    assert!(step.tree().is_empty());
    Graph::kruskal_step(&mut queue, &mut step);
    Graph::kruskal_step(&mut queue, &mut step);
    assert_eq!(step.current(), Some((1, 2, 6)));
    assert_eq!(step.tree(), &vec![(0, 1, 5)]);
    assert_eq!(step.vertex_count(), 3);
}

#[test]
fn checked_weight_sum_is_the_sum_where_it_fits() {
    let mut step = KruskalStep::new(3);
    assert_eq!(step.checked_weight_sum(), Some(0));
    step.tree.push((0, 1, 4_000_000_000));
    step.tree.push((1, 2, 7));
    assert_eq!(step.checked_weight_sum(), Some(4_000_000_007));
    assert_eq!(step.checked_weight_sum(), Some(step.weight_sum()));
}
