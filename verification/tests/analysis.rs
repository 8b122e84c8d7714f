use graph_engine::matrix::AdjMatrix;

fn graph(rows: &[&[u32]]) -> AdjMatrix {
    AdjMatrix(rows.iter().map(|row| row.to_vec()).collect())
}

fn three_cycle() -> AdjMatrix {
    graph(&[&[0, 1, 0], &[0, 0, 1], &[1, 0, 0]])
}

#[test]
fn degrees_count_the_ones_of_row_and_column() {
    let a = graph(&[&[1, 1, 0], &[0, 0, 1], &[1, 0, 0]]);
    assert_eq!(a.degree_out(0), 2);
    assert_eq!(a.degree_in(0), 2);
    assert_eq!(a.degree(0), 4);
    assert_eq!(a.degree_out(1), 1);
    assert_eq!(a.degree_in(1), 1);
    assert_eq!(a.degree(1), 2);
    assert_eq!(a.degree_out(2), 1);
    assert_eq!(a.degree_in(2), 1);
}

#[test]
fn a_self_loop_counts_as_outgoing_and_as_incoming() {
    let a = graph(&[&[1]]);
    assert_eq!(a.degree_out(0), 1);
    assert_eq!(a.degree_in(0), 1);
    assert_eq!(a.degree(0), 2);
}

#[test]
fn entries_other_than_one_are_no_edges_for_degrees() {
    let a = graph(&[&[0, 2], &[3, 0]]);
    assert_eq!(a.degree(0), 0);
    assert!(a.is_isolated(0));
}

#[test]
fn isolated_and_pendant_vertices() {
    let a = graph(&[&[0, 1, 0], &[0, 0, 0], &[0, 0, 0]]);
    assert!(a.is_pendant(0));
    assert!(a.is_pendant(1));
    assert!(a.is_isolated(2));
    assert!(!a.is_isolated(0));
    assert!(!a.is_pendant(2));
}

#[test]
fn the_empty_graph_is_regular() {
    assert!(graph(&[]).is_graph_regular());
}

#[test]
fn a_cycle_is_regular_and_a_path_is_not() {
    assert!(three_cycle().is_graph_regular());
    assert!(!graph(&[&[0, 1, 0], &[0, 0, 1], &[0, 0, 0]]).is_graph_regular());
}

#[test]
fn walks_of_two_edges_along_a_three_cycle() {
    assert_eq!(three_cycle().all_paths_of_2(), vec![[0, 1, 2], [1, 2, 0], [2, 0, 1]]);
}

#[test]
fn walks_of_three_edges_along_a_three_cycle_return_to_their_start() {
    assert_eq!(
        three_cycle().all_paths_of_3(),
        vec![[0, 1, 2, 0], [1, 2, 0, 1], [2, 0, 1, 2]]
    );
}

#[test]
fn walks_are_ordered_by_start_end_and_middle() {
    let a = graph(&[&[0, 1, 1], &[1, 0, 1], &[1, 1, 0]]);
    assert_eq!(
        a.all_paths_of_2(),
        vec![
            [0, 1, 0],
            [0, 2, 0],
            [0, 2, 1],
            [0, 1, 2],
            [1, 2, 0],
            [1, 0, 1],
            [1, 2, 1],
            [1, 0, 2],
            [2, 1, 0],
            [2, 0, 1],
            [2, 0, 2],
            [2, 1, 2],
        ]
    );
}

#[test]
fn walks_of_three_edges_scan_the_second_vertex_before_the_third() {
    let a = graph(&[&[1, 1], &[1, 0]]);
    assert_eq!(
        a.all_paths_of_3(),
        vec![
            [0, 0, 0, 0],
            [0, 0, 1, 0],
            [0, 1, 0, 0],
            [0, 0, 0, 1],
            [0, 1, 0, 1],
            [1, 0, 0, 0],
            [1, 0, 1, 0],
            [1, 0, 0, 1],
        ]
    );
}

#[test]
fn a_graph_without_edges_has_no_walks() {
    let a = graph(&[&[0, 0], &[0, 0]]);
    assert!(a.all_paths_of_2().is_empty());
    assert!(a.all_paths_of_3().is_empty());
}

#[test]
fn as_many_walks_as_the_matrix_power_counts() {
    let a = graph(&[&[0, 1, 1], &[1, 0, 1], &[1, 1, 0]]);
    let squared = &a * &a;
    let total: u32 = squared.0.iter().flatten().sum();
    assert_eq!(a.all_paths_of_2().len(), total as usize);
    let cubed = &squared * &a;
    let total: u32 = cubed.0.iter().flatten().sum();
    assert_eq!(a.all_paths_of_3().len(), total as usize);
}
