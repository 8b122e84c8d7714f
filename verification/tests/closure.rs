use graph_engine::matrix::AdjMatrix;

fn graph(rows: &[&[u32]]) -> AdjMatrix {
    AdjMatrix(rows.iter().map(|row| row.to_vec()).collect())
}

fn four_cycle() -> AdjMatrix {
    graph(&[&[0, 1, 0, 0], &[0, 0, 1, 0], &[0, 0, 0, 1], &[1, 0, 0, 0]])
}

fn path_of_four() -> AdjMatrix {
    graph(&[&[0, 1, 0, 0], &[0, 0, 1, 0], &[0, 0, 0, 1], &[0, 0, 0, 0]])
}

fn two_and_two_singles() -> AdjMatrix {
    graph(&[&[0, 1, 0, 0], &[1, 0, 0, 0], &[0, 0, 0, 1], &[0, 0, 0, 0]])
}

#[test]
fn every_vertex_of_a_cycle_reaches_every_vertex() {
    assert_eq!(four_cycle().reachability().0, vec![vec![1; 4]; 4]);
}

#[test]
fn a_path_reaches_forward_only() {
    assert_eq!(
        path_of_four().reachability().0,
        vec![vec![1, 1, 1, 1], vec![0, 1, 1, 1], vec![0, 0, 1, 1], vec![0, 0, 0, 1]]
    );
}

#[test]
fn reachability_is_reflexive() {
    for a in [four_cycle(), path_of_four(), two_and_two_singles(), graph(&[&[0]])] {
        let reach = a.reachability();
        for i in 0..a.0.len() {
            assert_eq!(reach.0[i][i], 1);
        }
    }
}

#[test]
fn reachability_of_small_graphs() {
    assert!(graph(&[]).reachability().0.is_empty());
    assert_eq!(graph(&[&[0]]).reachability().0, vec![vec![1]]);
    assert_eq!(graph(&[&[0, 1], &[0, 0]]).reachability().0, vec![vec![1, 1], vec![0, 1]]);
}

#[test]
fn entries_above_one_are_edges_for_reachability() {
    let a = graph(&[&[0, 5, 0], &[0, 0, 9], &[0, 0, 0]]);
    assert_eq!(a.reachability().0, vec![vec![1, 1, 1], vec![0, 1, 1], vec![0, 0, 1]]);
}

#[test]
fn connectivity_keeps_mutual_reachability() {
    assert_eq!(four_cycle().connectivity().0, vec![vec![1; 4]; 4]);
    assert_eq!(path_of_four().connectivity().0, AdjMatrix::identity(4).0);
    assert_eq!(
        two_and_two_singles().connectivity().0,
        vec![vec![1, 1, 0, 0], vec![1, 1, 0, 0], vec![0, 0, 1, 0], vec![0, 0, 0, 1]]
    );
}

#[test]
fn connectivity_is_symmetric() {
    for a in [four_cycle(), path_of_four(), two_and_two_singles()] {
        let conn = a.connectivity();
        for i in 0..4 {
            for j in 0..4 {
                assert_eq!(conn.0[i][j], conn.0[j][i]);
            }
        }
    }
}

#[test]
fn a_cycle_is_one_component() {
    assert_eq!(four_cycle().conn_components(), vec![vec![0, 1, 2, 3]]);
}

#[test]
fn components_are_listed_by_their_first_vertex() {
    assert_eq!(path_of_four().conn_components(), vec![vec![0], vec![1], vec![2], vec![3]]);
    assert_eq!(two_and_two_singles().conn_components(), vec![vec![0, 1], vec![2], vec![3]]);
    let a = graph(&[&[0, 0, 1], &[0, 0, 0], &[1, 0, 0]]);
    assert_eq!(a.conn_components(), vec![vec![0, 2], vec![1]]);
}

#[test]
fn components_hold_every_vertex_exactly_once() {
    for a in [four_cycle(), path_of_four(), two_and_two_singles()] {
        let mut seen = vec![0; a.0.len()];
        for part in a.conn_components() {
            assert!(!part.is_empty());
            for v in part {
                seen[v] += 1;
            }
        }
        assert_eq!(seen, vec![1; a.0.len()]);
    }
}

#[test]
fn the_empty_graph_has_no_component() {
    assert!(graph(&[]).conn_components().is_empty());
    assert!(graph(&[]).condensed().0.is_empty());
}

#[test]
fn condensation_of_a_cycle_is_one_vertex_without_loop() {
    assert_eq!(four_cycle().condensed().0, vec![vec![0]]);
}

#[test]
fn condensation_keeps_the_edges_between_components() {
    assert_eq!(path_of_four().condensed().0, path_of_four().0);
    assert_eq!(
        two_and_two_singles().condensed().0,
        vec![vec![0, 0, 0], vec![0, 0, 1], vec![0, 0, 0]]
    );
}

#[test]
fn condensation_drops_self_loops_and_inner_edges() {
    let a = graph(&[&[1, 1, 0], &[1, 1, 1], &[0, 0, 1]]);
    assert_eq!(a.conn_components(), vec![vec![0, 1], vec![2]]);
    assert_eq!(a.condensed().0, vec![vec![0, 1], vec![0, 0]]);
}

#[test]
fn condensation_has_one_vertex_per_component_and_no_loop() {
    for a in [four_cycle(), path_of_four(), two_and_two_singles()] {
        let cond = a.condensed();
        assert_eq!(cond.0.len(), a.conn_components().len());
        for x in 0..cond.0.len() {
            assert_eq!(cond.0[x].len(), cond.0.len());
            assert_eq!(cond.0[x][x], 0);
        }
    }
}

#[test]
fn reachability_is_transitive() {
    let a = graph(&[
        &[0, 1, 0, 0, 0],
        &[0, 0, 1, 0, 0],
        &[1, 0, 0, 1, 0],
        &[0, 0, 0, 0, 1],
        &[0, 0, 0, 0, 0],
    ]);
    let reach = a.reachability().0;
    for i in 0..5 {
        for j in 0..5 {
            for k in 0..5 {
                if reach[i][j] == 1 && reach[j][k] == 1 {
                    assert_eq!(reach[i][k], 1);
                }
            }
        }
    }
    assert_eq!(reach[0], vec![1, 1, 1, 1, 1]);
    assert_eq!(reach[3], vec![0, 0, 0, 1, 1]);
    assert_eq!(reach[4], vec![0, 0, 0, 0, 1]);
}

#[test]
fn components_are_the_classes_of_mutual_reachability() {
    let a = graph(&[
        &[0, 1, 0, 0, 0],
        &[0, 0, 1, 0, 0],
        &[1, 0, 0, 1, 0],
        &[0, 0, 0, 0, 1],
        &[0, 0, 0, 1, 0],
    ]);
    let reach = a.reachability().0;
    let parts = a.conn_components();
    assert_eq!(parts, vec![vec![0, 1, 2], vec![3, 4]]);
    for u in 0..5 {
        for v in 0..5 {
            let together = parts.iter().any(|part| part.contains(&u) && part.contains(&v));
            assert_eq!(together, reach[u][v] == 1 && reach[v][u] == 1);
        }
    }
    assert_eq!(a.condensed().0, vec![vec![0, 1], vec![0, 0]]);
}

#[test]
fn a_walk_over_all_vertices_is_found() {
    let n = 6;
    let mut rows = vec![vec![0; n]; n];
    for i in 0..n - 1 {
        rows[i][i + 1] = 1;
    }
    let reach = AdjMatrix(rows).reachability().0;
    for i in 0..n {
        for j in 0..n {
            assert_eq!(reach[i][j], if i <= j { 1 } else { 0 });
        }
    }
}
