//! Tests of the sparse-matrix primitives: identity construction, triplet
//! iteration, the general constructor, row gather and block-diagonal
//! replication, including the cross-check of the two replication strategies.

use tensor_view::sparse::eye;
use tensor_view::sparse::identity_kron;
use tensor_view::sparse::identity_kron2;
use tensor_view::sparse::select_rows;
use tensor_view::sparse::to_triplets_iter;
use tensor_view::sparse::try_new_from_triplets;
use tensor_view::sparse::MatrixError;
use tensor_view::sparse::SparseMatrix;
use tensor_view::sparse::ONE_WORD;

fn w(x: f64) -> u64 {
    x.to_bits()
}

fn mat_from(nrows: u64, ncols: u64, ts: &[(u64, u64, f64)]) -> SparseMatrix {
    let mut v: Vec<(u64, u64, u64)> = Vec::new();
    for &(r, c, x) in ts {
        v.push((r, c, w(x)));
    }
    match try_new_from_triplets(nrows, ncols, &v) {
        Ok(m) => m,
        Err(e) => panic!("fixture should build: {:?}", e),
    }
}

/// Triplets sorted row-major, for comparing as a set against the literal
/// expected lists.
fn row_major(m: &SparseMatrix) -> Vec<(u64, u64, u64)> {
    let mut v = to_triplets_iter(m);
    v.sort();
    v
}

#[test]
fn test_identity_kron_p1() {
    let mat = mat_from(2, 2, &[(0, 0, 1.0), (0, 1, 2.0), (1, 0, 3.0)]);

    let result = identity_kron(1, mat);

    assert_eq!(result.nrows, 2);
    assert_eq!(result.ncols, 2);
    assert_eq!(to_triplets_iter(&result).len(), 3);
    assert_eq!(
        row_major(&result),
        vec![(0, 0, w(1.0)), (0, 1, w(2.0)), (1, 0, w(3.0))]
    );
}

#[test]
fn test_identity_kron_p3() {
    let mat = mat_from(3, 3, &[(0, 0, 1.0), (0, 1, 2.0), (1, 0, 3.0)]);

    let result = identity_kron(3, mat);

    assert_eq!(result.nrows, 9);
    assert_eq!(result.ncols, 9);
    assert_eq!(to_triplets_iter(&result).len(), 9);
    assert_eq!(
        row_major(&result),
        vec![
            (0, 0, w(1.0)),
            (0, 1, w(2.0)),
            (1, 0, w(3.0)),
            (3, 3, w(1.0)),
            (3, 4, w(2.0)),
            (4, 3, w(3.0)),
            (6, 6, w(1.0)),
            (6, 7, w(2.0)),
            (7, 6, w(3.0)),
        ]
    );
}

#[test]
fn test_identity_kron_strategies_agree() {
    let fixtures: &[(u64, u64, &[(u64, u64, f64)])] = &[
        (2, 2, &[(0, 0, 1.0), (0, 1, 2.0), (1, 0, 3.0)]),
        (3, 3, &[(0, 0, 1.0), (0, 1, 2.0), (1, 0, 3.0)]),
        (2, 3, &[(1, 2, -4.5)]),
        (2, 2, &[]),
    ];
    for reps in 1u64..5 {
        for &(nr, nc, ts) in fixtures {
            let a = identity_kron(reps, mat_from(nr, nc, ts));
            let b = identity_kron2(reps, mat_from(nr, nc, ts));
            assert_eq!(a.nrows, b.nrows);
            assert_eq!(a.ncols, b.ncols);
            assert_eq!(to_triplets_iter(&a), to_triplets_iter(&b));
        }
    }
}

#[test]
fn test_identity_kron_shifts_each_replicate() {
    let mat = mat_from(2, 3, &[(0, 0, 1.0), (1, 2, 2.0)]);
    let result = identity_kron(3, mat);
    assert_eq!(result.nrows, 6);
    assert_eq!(result.ncols, 9);
    assert_eq!(
        row_major(&result),
        vec![
            (0, 0, w(1.0)),
            (1, 2, w(2.0)),
            (2, 3, w(1.0)),
            (3, 5, w(2.0)),
            (4, 6, w(1.0)),
            (5, 8, w(2.0)),
        ]
    );
}

#[test]
fn test_identity_kron_of_eye_is_larger_eye() {
    let a = identity_kron(2, eye(3));
    let b = eye(6);
    assert_eq!(a.nrows, b.nrows);
    assert_eq!(a.ncols, b.ncols);
    assert_eq!(to_triplets_iter(&a), to_triplets_iter(&b));
}

#[test]
fn test_eye() {
    let m = eye(3);
    assert_eq!(m.nrows, 3);
    assert_eq!(m.ncols, 3);
    assert_eq!(
        to_triplets_iter(&m),
        vec![(0, 0, ONE_WORD), (1, 1, ONE_WORD), (2, 2, ONE_WORD)]
    );
    assert_eq!(ONE_WORD, 1.0f64.to_bits());
    let empty = eye(0);
    assert_eq!(empty.nrows, 0);
    assert_eq!(to_triplets_iter(&empty).len(), 0);
}

#[test]
fn test_to_triplets_iter_is_column_major() {
    let mat = mat_from(2, 2, &[(0, 0, 1.0), (0, 1, 2.0), (1, 0, 3.0)]);
    assert_eq!(
        to_triplets_iter(&mat),
        vec![(0, 0, w(1.0)), (1, 0, w(3.0)), (0, 1, w(2.0))]
    );
}

#[test]
fn test_try_new_sorts_arbitrary_order() {
    let v = vec![(1u64, 1u64, w(4.0)), (0, 0, w(1.0)), (1, 0, w(3.0))];
    let m = match try_new_from_triplets(2, 2, &v) {
        Ok(m) => m,
        Err(e) => panic!("should build: {:?}", e),
    };
    assert_eq!(
        to_triplets_iter(&m),
        vec![(0, 0, w(1.0)), (1, 0, w(3.0)), (1, 1, w(4.0))]
    );
}

#[test]
fn test_try_new_rejects_out_of_range() {
    let v = vec![(2u64, 0u64, w(1.0))];
    assert!(matches!(
        try_new_from_triplets(2, 2, &v),
        Err(MatrixError::OutOfRange)
    ));
    let v2 = vec![(0u64, 7u64, w(1.0))];
    assert!(matches!(
        try_new_from_triplets(2, 2, &v2),
        Err(MatrixError::OutOfRange)
    ));
}

#[test]
fn test_try_new_rejects_duplicate_position() {
    let v = vec![(0u64, 0u64, w(1.0)), (1, 1, w(2.0)), (0, 0, w(3.0))];
    assert!(matches!(
        try_new_from_triplets(2, 2, &v),
        Err(MatrixError::Duplicate)
    ));
}

#[test]
fn test_select_rows_gathers_with_repeats() {
    let mat = mat_from(3, 3, &[(0, 0, 1.0), (0, 1, 2.0), (1, 0, 3.0)]);
    let rows = vec![2u64, 0, 0];
    let r = match select_rows(&mat, &rows) {
        Ok(m) => m,
        Err(e) => panic!("rows are in range: {:?}", e),
    };
    assert_eq!(r.nrows, 3);
    assert_eq!(r.ncols, 3);
    assert_eq!(
        row_major(&r),
        vec![(1, 0, w(1.0)), (1, 1, w(2.0)), (2, 0, w(1.0)), (2, 1, w(2.0))]
    );
}

#[test]
fn test_select_rows_out_of_range() {
    let mat = mat_from(3, 3, &[(0, 0, 1.0)]);
    let rows = vec![0u64, 5];
    assert!(matches!(
        select_rows(&mat, &rows),
        Err(MatrixError::OutOfRange)
    ));
}
