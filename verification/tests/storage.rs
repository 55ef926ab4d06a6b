use lib::matrix::{Cube, Matrix};
use lib::packed::{SymmetricCube, SymmetricMatrix};

#[test]
fn column_major_matrix_reads_back_its_layout() {
    // Column-major representation of [[4, 7], [2, 6]].
    let matrix = Matrix::from_col_major(&[4.0, 2.0, 7.0, 6.0], 2, 2);
    assert_eq!(matrix.nrow(), 2);
    assert_eq!(matrix.ncol(), 2);
    assert_eq!(matrix.get(0, 0), 4.0);
    assert_eq!(matrix.get(1, 0), 2.0);
    assert_eq!(matrix.get(0, 1), 7.0);
    assert_eq!(matrix.get(1, 1), 6.0);
    assert_eq!(matrix.row(1), vec![2.0, 6.0]);
    assert_eq!(matrix.as_slice(), &[4.0, 2.0, 7.0, 6.0]);
}

#[test]
fn matrix_set_changes_one_entry_only() {
    let mut matrix = Matrix::zeros(3, 2, 0i64);
    matrix.set(2, 1, 9);
    assert_eq!(matrix.get(2, 1), 9);
    assert_eq!(matrix.as_slice(), &[0, 0, 0, 0, 0, 9]);
    matrix.set_row(0, &[5, 6]);
    assert_eq!(matrix.row(0), vec![5, 6]);
    assert_eq!(matrix.row(2), vec![0, 9]);
    assert_eq!(matrix.as_slice(), &[5, 0, 0, 6, 0, 9]);
}

#[test]
fn empty_matrix_has_no_entries() {
    let matrix: Matrix<u8> = Matrix::zeros(4, 0, 1);
    assert_eq!(matrix.nrow(), 4);
    assert_eq!(matrix.ncol(), 0);
    assert!(matrix.as_slice().is_empty());
}

#[test]
fn cube_entries_are_independent() {
    let mut cube = Cube::zeros(3, 0u32);
    let mut counter = 0;
    for k in 0..3 {
        for j in 0..3 {
            for i in 0..3 {
                cube.set(i, j, k, counter);
                counter += 1;
            }
        }
    }
    assert_eq!(cube.size_of(), 3);
    assert_eq!(cube.get(0, 0, 0), 0);
    assert_eq!(cube.get(1, 0, 0), 1);
    assert_eq!(cube.get(0, 1, 0), 3);
    assert_eq!(cube.get(0, 0, 1), 9);
    assert_eq!(cube.get(2, 2, 2), 26);
}

#[test]
fn symmetric_matrix_packs_pairs_in_loop_order() {
    let mut matrix = SymmetricMatrix::zeros(3, 0usize);
    assert_eq!(matrix.len(), 6);
    for i in 0..matrix.len() {
        matrix.set_packed(i, i);
    }
    let mut expected = 0;
    for j in 0..3 {
        for k in j..3 {
            assert_eq!(matrix.get(j, k), expected);
            assert_eq!(matrix.get(k, j), expected);
            expected += 1;
        }
    }
}

#[test]
fn symmetric_matrix_set_reaches_both_orders() {
    let mut matrix = SymmetricMatrix::zeros(4, 0i32);
    matrix.set(3, 1, 7);
    assert_eq!(matrix.get(1, 3), 7);
    assert_eq!(matrix.get(3, 1), 7);
    assert_eq!(matrix.get(1, 1), 0);
    matrix.fill(2);
    assert_eq!(matrix.get(1, 3), 2);
    assert_eq!(matrix.packed(0), 2);
}

#[test]
fn symmetric_cube_packs_triples_in_loop_order() {
    let mut cube = SymmetricCube::zeros(3, 0usize);
    assert_eq!(cube.len(), 10);
    for i in 0..cube.len() {
        cube.set_packed(i, i);
    }
    let mut expected = 0;
    for j in 0..3 {
        for k in j..3 {
            for l in k..3 {
                assert_eq!(cube.get(j, k, l), expected);
                assert_eq!(cube.get(l, j, k), expected);
                assert_eq!(cube.get(k, l, j), expected);
                expected += 1;
            }
        }
    }
}

#[test]
fn symmetric_cube_set_reaches_every_order() {
    let mut cube = SymmetricCube::zeros(4, 0i32);
    cube.set(3, 0, 2, 5);
    assert_eq!(cube.get(0, 2, 3), 5);
    assert_eq!(cube.get(2, 3, 0), 5);
    assert_eq!(cube.get(0, 2, 2), 0);
    assert_eq!(cube.dimension(), 4);
}
