use graph_engine::matrix::{convert_to_undir, AdjMatrix};

fn matrix(rows: &[&[u32]]) -> AdjMatrix {
    AdjMatrix(rows.iter().map(|row| row.to_vec()).collect())
}

#[test]
fn identity_has_ones_on_the_diagonal_only() {
    assert_eq!(AdjMatrix::identity(3).0, vec![vec![1, 0, 0], vec![0, 1, 0], vec![0, 0, 1]]);
    assert_eq!(AdjMatrix::identity(1).0, vec![vec![1]]);
    assert!(AdjMatrix::identity(0).0.is_empty());
}

#[test]
fn identity_is_neutral_on_both_sides() {
    let a = matrix(&[&[2, 0, 7], &[1, 3, 0], &[0, 5, 4]]);
    let id = AdjMatrix::identity(3);
    assert_eq!((&id * &a).0, a.0);
    assert_eq!((&a * &id).0, a.0);
}

#[test]
fn product_is_the_sum_of_products() {
    let a = matrix(&[&[1, 2], &[3, 4]]);
    let b = matrix(&[&[5, 6], &[7, 8]]);
    assert_eq!((&a * &b).0, vec![vec![19, 22], vec![43, 50]]);
    assert_eq!((&b * &a).0, vec![vec![23, 34], vec![31, 46]]);
}

#[test]
fn product_of_empty_matrices_is_empty() {
    let a = matrix(&[]);
    assert!((&a * &a).0.is_empty());
}

#[test]
fn square_of_a_graph_counts_walks_of_two_edges() {
    let a = matrix(&[&[0, 1, 1], &[0, 0, 1], &[1, 0, 0]]);
    assert_eq!((&a * &a).0, vec![vec![1, 0, 1], vec![1, 0, 0], vec![0, 1, 1]]);
}

#[test]
fn sum_adds_entry_by_entry() {
    let a = matrix(&[&[1, 2], &[3, 4]]);
    let b = matrix(&[&[10, 0], &[5, 40]]);
    assert_eq!((&a + &b).0, vec![vec![11, 2], vec![8, 44]]);
}

#[test]
fn or_treats_every_non_zero_entry_as_true() {
    let a = matrix(&[&[0, 2], &[0, 1]]);
    let b = matrix(&[&[0, 0], &[7, 1]]);
    assert_eq!((&a | &b).0, vec![vec![0, 1], vec![1, 1]]);
}

#[test]
fn and_treats_every_non_zero_entry_as_true() {
    let a = matrix(&[&[0, 2], &[0, 1]]);
    let b = matrix(&[&[0, 9], &[7, 1]]);
    assert_eq!((&a & &b).0, vec![vec![0, 1], vec![0, 1]]);
}

#[test]
fn transpose_swaps_rows_and_columns() {
    let a = matrix(&[&[1, 2, 3], &[4, 5, 6], &[7, 8, 9]]);
    assert_eq!(a.transpose().0, vec![vec![1, 4, 7], vec![2, 5, 8], vec![3, 6, 9]]);
    assert_eq!(a.transpose().transpose().0, a.0);
}

#[test]
fn undir_mirrors_the_upper_triangle() {
    let a = matrix(&[&[1, 1, 0], &[0, 0, 1], &[1, 0, 1]]);
    let expected = vec![vec![1, 1, 0], vec![1, 0, 1], vec![0, 1, 1]];
    assert_eq!(a.undir().0, expected);
    assert_eq!(convert_to_undir(&a).0, expected);
}

#[test]
fn undir_of_a_symmetric_matrix_is_the_matrix() {
    let a = matrix(&[&[0, 1], &[1, 0]]);
    assert_eq!(a.undir().0, a.0);
}

#[test]
fn clone_copies_every_entry() {
    let a = matrix(&[&[1, 2], &[3, 4]]);
    assert_eq!(a.clone().0, a.0);
}

#[test]
fn entry_reads_row_then_column() {
    let a = matrix(&[&[1, 2], &[3, 4]]);
    assert_eq!(a.entry(0, 1), 2);
    assert_eq!(a.entry(1, 0), 3);
}

#[test]
fn from_cells_cuts_the_cells_into_rows() {
    let a = AdjMatrix::from_cells(&vec![1, 0, 2, 0, 1, 3, 4, 5, 6], 3);
    assert_eq!(a.0, vec![vec![1, 0, 2], vec![0, 1, 3], vec![4, 5, 6]]);
    assert!(AdjMatrix::from_cells(&vec![], 0).0.is_empty());
}

#[test]
fn compound_operators_replace_the_left_operand() {
    let b = matrix(&[&[0, 1], &[1, 1]]);
    let mut a = matrix(&[&[1, 2], &[3, 4]]);
    a *= &b;
    assert_eq!(a.0, vec![vec![2, 3], vec![4, 7]]);
    a += &b;
    assert_eq!(a.0, vec![vec![2, 4], vec![5, 8]]);
    let mut c = matrix(&[&[0, 0], &[5, 0]]);
    c |= &b;
    assert_eq!(c.0, vec![vec![0, 1], vec![1, 1]]);
    let mut d = matrix(&[&[3, 0], &[5, 0]]);
    d &= &b;
    assert_eq!(d.0, vec![vec![0, 0], vec![1, 0]]);
}

#[test]
fn is_square_compares_every_row_with_the_number_of_rows() {
    assert!(matrix(&[]).is_square());
    assert!(matrix(&[&[1]]).is_square());
    assert!(matrix(&[&[1, 2], &[3, 4]]).is_square());
    assert!(!matrix(&[&[1, 2], &[3]]).is_square());
    assert!(!matrix(&[&[1, 2, 3], &[4, 5, 6]]).is_square());
    assert!(!matrix(&[&[]]).is_square());
}

#[test]
fn can_multiply_asks_for_one_shape_and_entries_that_fit() {
    let a = matrix(&[&[1, 2], &[3, 4]]);
    assert!(a.can_multiply(&a));
    assert!(!a.can_multiply(&matrix(&[&[1]])));
    assert!(!a.can_multiply(&matrix(&[&[1, 2], &[3]])));
    let big = matrix(&[&[65536, 0], &[0, 1]]);
    assert!(!big.can_multiply(&big));
    let edge = matrix(&[&[65535, 1], &[0, 0]]);
    let other = matrix(&[&[65537, 0], &[0, 0]]);
    assert!(edge.can_multiply(&other));
    assert_eq!((&edge * &other).0, vec![vec![4294967295, 0], vec![0, 0]]);
    let sums = matrix(&[&[u32::MAX, 1], &[0, 0]]);
    let ones = matrix(&[&[1, 0], &[1, 0]]);
    assert!(!sums.can_multiply(&ones));
}

#[test]
fn can_add_asks_for_one_shape_and_entries_that_fit() {
    let a = matrix(&[&[1, 2], &[3, 4]]);
    assert!(a.can_add(&a));
    assert!(!a.can_add(&matrix(&[&[1]])));
    let top = matrix(&[&[u32::MAX, 0], &[0, 0]]);
    assert!(top.can_add(&matrix(&[&[0, 5], &[5, 5]])));
    assert!(!top.can_add(&matrix(&[&[1, 0], &[0, 0]])));
}
