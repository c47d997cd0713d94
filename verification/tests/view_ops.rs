//! Tests of the view: flattening to the coordinate-list tensor, uniform
//! transformation, row selection with per-block expansion, the per-instance
//! row count, and the unfinished accumulation path.

use std::collections::HashMap;
use tensor_view::sparse::identity_kron;
use tensor_view::sparse::to_triplets_iter;
use tensor_view::sparse::try_new_from_triplets;
use tensor_view::sparse::SparseMatrix;
use tensor_view::tensor_representation::TensorRepresentation;
use tensor_view::view::Tensor;
use tensor_view::view::View;
use tensor_view::view::ViewContext;
use tensor_view::view::ViewError;

fn w(x: f64) -> u64 {
    x.to_bits()
}

fn mat_from(nrows: u64, ncols: u64, ts: &[(u64, u64, f64)]) -> SparseMatrix {
    let mut v: Vec<(u64, u64, u64)> = Vec::new();
    for &(r, c, x) in ts {
        v.push((r, c, w(x)));
    }
    match try_new_from_triplets(nrows, ncols, &v) {
        Ok(m) => m,
        Err(e) => panic!("fixture should build: {:?}", e),
    }
}

fn map_of(pairs: &[(i64, i64)]) -> HashMap<i64, i64> {
    let mut m = HashMap::new();
    for &(k, v) in pairs {
        m.insert(k, v);
    }
    m
}

fn context() -> ViewContext {
    ViewContext {
        id_to_col: map_of(&[(1, 5), (2, 8)]),
        param_to_size: map_of(&[(7, 1), (8, 2)]),
        param_to_col: map_of(&[(7, 2), (8, 3)]),
        param_size_plus_one: 6,
        var_length: 11,
    }
}

#[test]
fn test_flatten_single_parameter_free_entry() {
    // one (variable, parameter) entry with p = 1 at row offset zero:
    // rows unchanged, columns shifted by the variable's first column,
    // every nonzero in the parameter's first slot
    let ctx = context();
    let mat = mat_from(2, 2, &[(0, 0, 1.0), (0, 1, 2.0), (1, 0, 3.0)]);
    let view = View {
        variables: vec![1],
        tensor: Tensor { entries: vec![(1, vec![(7, mat)])] },
        is_parameter_free: true,
        context: &ctx,
    };
    let r = view.get_tensor_representation(0);
    // stored (column-major) order: (0,0,1.0), (1,0,3.0), (0,1,2.0)
    assert_eq!(r.data, vec![w(1.0), w(3.0), w(2.0)]);
    assert_eq!(r.row, vec![0, 1, 0]);
    assert_eq!(r.col, vec![5, 5, 6]);
    assert_eq!(r.parameter_offset, vec![2, 2, 2]);
}

#[test]
fn test_flatten_stacked_parameter_blocks() {
    // p = 2: a 4-row matrix holds two stacked 2-row blocks; block t yields
    // parameter slot t + first slot, and rows are folded into the block
    let ctx = context();
    let mat = mat_from(4, 1, &[(0, 0, 1.0), (2, 0, 4.0), (3, 0, 5.0)]);
    let view = View {
        variables: vec![2],
        tensor: Tensor { entries: vec![(2, vec![(8, mat)])] },
        is_parameter_free: false,
        context: &ctx,
    };
    let r = view.get_tensor_representation(10);
    assert_eq!(r.data, vec![w(1.0), w(4.0), w(5.0)]);
    assert_eq!(r.row, vec![10, 10, 11]);
    assert_eq!(r.col, vec![8, 8, 8]);
    assert_eq!(r.parameter_offset, vec![3, 4, 4]);
}

#[test]
fn test_flatten_combines_pairs_in_ascending_key_order() {
    let ctx = context();
    let m1 = mat_from(2, 1, &[(0, 0, 1.0)]);
    let m2 = mat_from(2, 1, &[(1, 0, 2.0)]);
    let m3 = mat_from(2, 1, &[(0, 0, 3.0)]);
    let view = View {
        variables: vec![1, 2],
        tensor: Tensor { entries: vec![(1, vec![(7, m1), (8, m2)]), (2, vec![(7, m3)])] },
        is_parameter_free: false,
        context: &ctx,
    };
    let r = view.get_tensor_representation(0);
    // (1,7) then (1,8) then (2,7); the (1,8) entry sits in stacked block 1,
    // so its slot is the parameter's first slot plus one
    assert_eq!(r.data, vec![w(1.0), w(2.0), w(3.0)]);
    assert_eq!(r.row, vec![0, 0, 0]);
    assert_eq!(r.col, vec![5, 5, 8]);
    assert_eq!(r.parameter_offset, vec![2, 4, 2]);
}

#[test]
fn test_flatten_empty_view_is_empty() {
    let ctx = context();
    let view = View::new(&ctx);
    let r = view.get_tensor_representation(0);
    assert_eq!(r.data.len(), 0);
    assert_eq!(r.row.len(), 0);
    assert_eq!(r.col.len(), 0);
    assert_eq!(r.parameter_offset.len(), 0);
}

#[test]
fn test_apply_all_preserves_keys_and_transforms_values() {
    let ctx = context();
    let m1 = mat_from(2, 2, &[(0, 0, 1.0)]);
    let m2 = mat_from(2, 1, &[(1, 0, 2.0)]);
    let mut view = View {
        variables: vec![1, 2],
        tensor: Tensor { entries: vec![(1, vec![(7, m1)]), (2, vec![(8, m2)])] },
        is_parameter_free: false,
        context: &ctx,
    };
    view.apply_all(|mat, _p| identity_kron(2, mat));
    assert_eq!(view.tensor.entries.len(), 2);
    assert_eq!(view.tensor.entries[0].0, 1);
    assert_eq!(view.tensor.entries[0].1.len(), 1);
    assert_eq!(view.tensor.entries[0].1[0].0, 7);
    assert_eq!(view.tensor.entries[1].0, 2);
    assert_eq!(view.tensor.entries[1].1.len(), 1);
    assert_eq!(view.tensor.entries[1].1[0].0, 8);
    let t1 = &view.tensor.entries[0].1[0].1;
    assert_eq!(t1.nrows, 4);
    assert_eq!(t1.ncols, 4);
    assert_eq!(
        to_triplets_iter(t1),
        vec![(0, 0, w(1.0)), (2, 2, w(1.0))]
    );
    let t2 = &view.tensor.entries[1].1[0].1;
    assert_eq!(t2.nrows, 4);
    assert_eq!(t2.ncols, 2);
}

#[test]
fn test_view_select_rows_single_block() {
    let ctx = context();
    let mat = mat_from(3, 2, &[(0, 0, 1.0), (1, 0, 2.0), (2, 1, 3.0)]);
    let mut view = View {
        variables: vec![1],
        tensor: Tensor { entries: vec![(1, vec![(7, mat)])] },
        is_parameter_free: true,
        context: &ctx,
    };
    view.select_rows(&vec![2, 0]);
    let m = &view.tensor.entries[0].1[0].1;
    assert_eq!(m.nrows, 2);
    assert_eq!(m.ncols, 2);
    assert_eq!(to_triplets_iter(m), vec![(1, 0, w(1.0)), (0, 1, w(3.0))]);
}

#[test]
fn test_view_select_rows_expands_per_block() {
    // p = 2, m = 2: selecting row 1 must take the relative row 1 of both
    // stacked blocks, keeping the block structure
    let ctx = context();
    let mat = mat_from(4, 1, &[(0, 0, 1.0), (1, 0, 2.0), (2, 0, 3.0), (3, 0, 4.0)]);
    let mut view = View {
        variables: vec![2],
        tensor: Tensor { entries: vec![(2, vec![(8, mat)])] },
        is_parameter_free: false,
        context: &ctx,
    };
    view.select_rows(&vec![1]);
    let m = &view.tensor.entries[0].1[0].1;
    assert_eq!(m.nrows, 2);
    assert_eq!(m.ncols, 1);
    assert_eq!(to_triplets_iter(m), vec![(0, 0, w(2.0)), (1, 0, w(4.0))]);
}

#[test]
fn test_rows_reports_per_instance_row_count() {
    let ctx = context();
    let mat = mat_from(6, 1, &[(0, 0, 1.0)]);
    let view = View {
        variables: vec![1],
        tensor: Tensor { entries: vec![(1, vec![(8, mat)])] },
        is_parameter_free: false,
        context: &ctx,
    };
    assert_eq!(view.rows(), 3);
}

#[test]
fn test_new_view_is_empty_and_parameter_free() {
    let ctx = context();
    let view = View::new(&ctx);
    assert_eq!(view.variables.len(), 0);
    assert_eq!(view.tensor.entries.len(), 0);
    assert!(view.is_parameter_free);
}

#[test]
fn test_accumulate_over_variables_is_not_implemented() {
    let ctx = context();
    let view = View::new(&ctx);
    let r = view.accumulate_over_variables(|mat, _p| mat, true);
    assert!(matches!(r, Err(ViewError::NotImplemented)));
    let view2 = View::new(&ctx);
    let r2 = view2.accumulate_over_variables(|mat, _p| mat, false);
    assert!(matches!(r2, Err(ViewError::NotImplemented)));
}

#[test]
fn test_apply_to_parameters_is_not_implemented() {
    let ctx = context();
    let view = View::new(&ctx);
    let r = view.apply_to_parameters(|mat, _p| mat, &Vec::new());
    assert!(matches!(r, Err(ViewError::NotImplemented)));
}

#[test]
fn test_combine_concatenates_in_order() {
    let a = TensorRepresentation {
        data: vec![w(1.0), w(2.0)],
        row: vec![0, 1],
        col: vec![0, 0],
        parameter_offset: vec![0, 0],
    };
    let b = TensorRepresentation {
        data: vec![w(3.0)],
        row: vec![5],
        col: vec![7],
        parameter_offset: vec![9],
    };
    let r = TensorRepresentation::combine(vec![a, b]);
    assert_eq!(r.data, vec![w(1.0), w(2.0), w(3.0)]);
    assert_eq!(r.row, vec![0, 1, 5]);
    assert_eq!(r.col, vec![0, 0, 7]);
    assert_eq!(r.parameter_offset, vec![0, 0, 9]);
}

#[test]
fn test_combine_of_nothing_is_empty() {
    let r = TensorRepresentation::combine(Vec::new());
    assert_eq!(r.data.len(), 0);
    let e = TensorRepresentation::new();
    assert_eq!(e.row.len(), 0);
}
