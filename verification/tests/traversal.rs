use graph_engine::matrix::AdjMatrix;
use graph_engine::search::{Bfs, Dfs, Queue, Search, SearchStep};

fn graph(rows: &[&[u32]]) -> AdjMatrix {
    AdjMatrix(rows.iter().map(|row| row.to_vec()).collect())
}

fn four_cycle() -> AdjMatrix {
    graph(&[&[0, 1, 0, 0], &[0, 0, 1, 0], &[0, 0, 0, 1], &[1, 0, 0, 0]])
}

fn small_tree() -> AdjMatrix {
    graph(&[&[0, 1, 1, 0], &[0, 0, 0, 1], &[0, 0, 0, 0], &[0, 0, 0, 0]])
}

fn run<S: Search>(a: &AdjMatrix, start: usize) -> SearchStep<S> {
    let mut step = SearchStep::<S>::new(start, a.0.len());
    let mut steps = 0;
    while a.search_next(&mut step) {
        steps += 1;
        assert!(steps <= 2 * a.0.len());
    }
    step
}

fn children<S: Search>(step: &SearchStep<S>) -> Vec<usize> {
    step.tree.iter().map(|pair| pair.1).collect()
}

#[test]
fn a_new_traversal_waits_at_its_start() {
    let step = SearchStep::<Bfs>::new(2, 5);
    assert_eq!(step.size, 5);
    assert_eq!(step.active, 2);
    assert_eq!(step.visited, vec![(2, 2)]);
    assert_eq!(step.queue, [2]);
    assert!(step.tree.is_empty());
}

#[test]
fn breadth_first_draws_from_the_front() {
    let mut step = SearchStep::<Bfs>::new(0, 3);
    step.push_queue(1);
    step.push_queue(2);
    assert_eq!(step.pop_queue(), Some(0));
    assert_eq!(step.pop_queue(), Some(1));
    assert_eq!(step.pop_queue(), Some(2));
    assert_eq!(step.pop_queue(), None);
}

#[test]
fn depth_first_draws_from_the_back() {
    let mut step = SearchStep::<Dfs>::new(0, 3);
    step.push_queue(1);
    step.push_queue(2);
    assert_eq!(step.pop_queue(), Some(2));
    assert_eq!(step.pop_queue(), Some(1));
    assert_eq!(step.pop_queue(), Some(0));
    assert_eq!(step.pop_queue(), None);
}

#[test]
fn one_step_draws_one_vertex_and_discovers_its_neighbours() {
    let a = small_tree();
    let mut step = SearchStep::<Bfs>::new(0, 4);
    assert!(a.search_next(&mut step));
    assert_eq!(step.active, 0);
    assert_eq!(step.tree, vec![(0, 0)]);
    assert_eq!(step.visited, vec![(0, 0), (0, 1), (0, 2)]);
    assert_eq!(step.queue, [1, 2]);
    assert!(a.search_next(&mut step));
    assert_eq!(step.active, 1);
    assert_eq!(step.tree, vec![(0, 0), (0, 1)]);
    assert_eq!(step.visited, vec![(0, 0), (0, 1), (0, 2), (1, 3)]);
    assert_eq!(step.queue, [2, 3]);
}

#[test]
fn breadth_first_walks_a_cycle_in_order() {
    let step = run::<Bfs>(&four_cycle(), 0);
    assert_eq!(children(&step), vec![0, 1, 2, 3]);
    assert_eq!(step.tree, vec![(0, 0), (0, 1), (1, 2), (2, 3)]);
    assert_eq!(step.visited, vec![(0, 0), (0, 1), (1, 2), (2, 3)]);
    assert!(step.queue.is_empty());
}

#[test]
fn breadth_first_and_depth_first_differ_in_their_order() {
    let a = small_tree();
    assert_eq!(children(&run::<Bfs>(&a, 0)), vec![0, 1, 2, 3]);
    assert_eq!(children(&run::<Dfs>(&a, 0)), vec![0, 2, 1, 3]);
    assert_eq!(run::<Dfs>(&a, 0).tree, vec![(0, 0), (0, 2), (0, 1), (1, 3)]);
}

#[test]
fn a_finished_traversal_stays_finished() {
    let a = four_cycle();
    let mut step = run::<Bfs>(&a, 0);
    let tree = step.tree.clone();
    assert!(!a.search_next(&mut step));
    assert!(!a.search_next(&mut step));
    assert_eq!(step.tree, tree);
    assert_eq!(step.active, 3);
}

#[test]
fn a_graph_without_edges_is_covered_by_seeding() {
    let a = graph(&[&[0, 0, 0], &[0, 0, 0], &[0, 0, 0]]);
    let bfs = run::<Bfs>(&a, 1);
    assert_eq!(bfs.tree, vec![(1, 1), (0, 0), (2, 2)]);
    assert_eq!(bfs.visited, vec![(1, 1)]);
    let dfs = run::<Dfs>(&a, 1);
    assert_eq!(dfs.tree, vec![(1, 1), (0, 0), (2, 2)]);
}

#[test]
fn every_vertex_of_a_disconnected_graph_is_drawn_once() {
    let a = graph(&[
        &[0, 1, 0, 0, 0],
        &[0, 0, 0, 0, 0],
        &[0, 0, 0, 1, 0],
        &[0, 0, 0, 0, 0],
        &[0, 0, 0, 0, 0],
    ]);
    let bfs = run::<Bfs>(&a, 0);
    assert_eq!(bfs.tree, vec![(0, 0), (0, 1), (2, 2), (2, 3), (4, 4)]);
    let dfs = run::<Dfs>(&a, 0);
    let mut drawn = children(&dfs);
    drawn.sort();
    assert_eq!(drawn, vec![0, 1, 2, 3, 4]);
}

#[test]
fn the_lowest_vertex_not_drawn_is_seeded() {
    let a = graph(&[&[0, 0, 0, 0], &[0, 0, 0, 0], &[0, 0, 0, 1], &[0, 0, 0, 0]]);
    let step = run::<Bfs>(&a, 2);
    assert_eq!(step.tree, vec![(2, 2), (2, 3), (0, 0), (1, 1)]);
}

#[test]
fn a_seeded_vertex_that_is_found_again_is_drawn_twice() {
    let a = graph(&[&[0, 0, 0], &[0, 0, 1], &[0, 1, 0]]);
    let step = run::<Bfs>(&a, 0);
    assert_eq!(step.tree, vec![(0, 0), (1, 1), (1, 2), (2, 1)]);
    assert_eq!(step.visited, vec![(0, 0), (1, 2), (2, 1)]);
}

#[test]
fn a_traversal_of_one_vertex() {
    let a = graph(&[&[0]]);
    let mut step = SearchStep::<Dfs>::new(0, 1);
    assert!(a.search_next(&mut step));
    assert!(!a.search_next(&mut step));
    assert_eq!(step.tree, vec![(0, 0)]);
}

#[test]
fn a_self_loop_at_the_start_is_no_discovery() {
    let a = graph(&[&[1, 1], &[0, 0]]);
    let step = run::<Bfs>(&a, 0);
    assert_eq!(step.tree, vec![(0, 0), (0, 1)]);
    assert_eq!(step.visited, vec![(0, 0), (0, 1)]);
}

#[test]
fn entries_other_than_one_are_no_edges_for_a_traversal() {
    let a = graph(&[&[0, 2], &[0, 0]]);
    let step = run::<Bfs>(&a, 0);
    assert_eq!(step.tree, vec![(0, 0), (1, 1)]);
}

#[test]
fn the_forest_matrix_holds_the_tree_edges() {
    let step = run::<Bfs>(&four_cycle(), 0);
    assert_eq!(
        AdjMatrix::from(&step).0,
        vec![vec![0, 1, 0, 0], vec![0, 0, 1, 0], vec![0, 0, 0, 1], vec![0, 0, 0, 0]]
    );
}

#[test]
fn the_forest_matrix_leaves_out_the_roots() {
    let a = graph(&[&[0, 0, 0], &[0, 0, 0], &[1, 0, 0]]);
    let step = run::<Dfs>(&a, 2);
    assert_eq!(step.tree, vec![(2, 2), (2, 0), (1, 1)]);
    assert_eq!(AdjMatrix::from(&step).0, vec![vec![0, 0, 0], vec![0, 0, 0], vec![1, 0, 0]]);
}

#[test]
fn the_forest_matrix_of_a_new_traversal_has_no_edge() {
    assert_eq!(AdjMatrix::from(&SearchStep::<Bfs>::new(0, 4)).0, vec![vec![0; 4]; 4]);
    assert!(AdjMatrix::from(&SearchStep::<Dfs>::new(0, 0)).0.is_empty());
}

#[test]
fn the_forest_matrix_of_a_run_that_has_not_finished_spans_the_graph() {
    let a = graph(&[
        &[0, 0, 0, 0, 0, 0],
        &[0, 0, 0, 0, 0, 0],
        &[0, 0, 0, 0, 0, 0],
        &[0, 0, 0, 0, 0, 0],
        &[0, 0, 0, 0, 0, 0],
        &[0, 0, 1, 0, 0, 0],
    ]);
    let mut step = SearchStep::<Bfs>::new(5, 6);
    assert!(a.search_next(&mut step));
    assert_eq!(step.tree, vec![(5, 5)]);
    assert_eq!(AdjMatrix::from(&step).0, vec![vec![0; 6]; 6]);
    assert!(a.search_next(&mut step));
    assert_eq!(step.tree, vec![(5, 5), (5, 2)]);
    let mut expected = vec![vec![0; 6]; 6];
    expected[5][2] = 1;
    assert_eq!(AdjMatrix::from(&step).0, expected);
}

#[test]
fn the_forest_matrix_of_a_forest_with_a_vertex_drawn_twice_spans_the_graph() {
    let a = graph(&[&[0, 0, 0], &[0, 0, 1], &[0, 1, 0]]);
    let step = run::<Bfs>(&a, 0);
    assert_eq!(step.tree, vec![(0, 0), (1, 1), (1, 2), (2, 1)]);
    assert_eq!(AdjMatrix::from(&step).0, vec![vec![0, 0, 0], vec![0, 0, 1], vec![0, 1, 0]]);
}

#[test]
fn every_column_of_the_forest_matrix_of_an_exact_forest_holds_at_most_one_edge() {
    for a in [four_cycle(), small_tree()] {
        let forest = AdjMatrix::from(&run::<Dfs>(&a, 0)).0;
        assert_eq!(forest.len(), 4);
        for c in 0..4 {
            assert_eq!(forest[c][c], 0);
            assert!((0..4).filter(|p| forest[*p][c] == 1).count() <= 1);
        }
    }
}

#[test]
fn the_methods_of_a_traversal_read_its_fields() {
    let a = small_tree();
    let mut step = SearchStep::<Bfs>::new(0, 4);
    assert!(a.search_next(&mut step));
    assert_eq!(step.size(), 4);
    assert_eq!(step.active(), 0);
    assert_eq!(step.visited(), &vec![(0, 0), (0, 1), (0, 2)]);
    assert_eq!(step.queue(), &[1, 2]);
    assert_eq!(step.tree(), &vec![(0, 0)]);
}
