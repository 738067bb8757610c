use burn_tensor_ops::elementwise::{
    add, compare_elem, equal_elem, greater_equal_elem, lower_equal_elem, mul, sub, Comparison,
    add_scalar, arange, arange_step, clamp, clamp_max, clamp_min, full, greater_elem, lower_elem,
    mask_fill, mask_where, mul_scalar, neg, powi_scalar,
};
use burn_tensor_ops::layout::{
    cat, chunk, narrow, repeat, select, slice, slice_assign, swap_dims, transpose,
};
use burn_tensor_ops::reduce::{
    argmax, argmin, gather, max, max_dim, max_dim_with_indices, mean, min, min_dim,
    min_dim_with_indices, sum, sum_dim,
};
use burn_tensor_ops::shape::checked_num_elements;
use burn_tensor_ops::tensor::{
    detach, flatten, from_data, is_require_grad, ones, reshape, set_require_grad, zeros, Tensor,
    TensorError,
};

fn t(data: Vec<i64>, shape: Vec<usize>) -> Tensor<i64> {
    from_data(data, shape).unwrap()
}

#[test]
fn sum_and_mean_of_two_by_two() {
    let x = t(vec![1, 2, 3, 4], vec![2, 2]);
    let s = sum(&x);
    assert_eq!(s.shape, vec![1]);
    assert_eq!(s.data, vec![10]);
    let m = mean(&x);
    assert_eq!(m.numer, 10);
    assert_eq!(m.denom, 4);
    assert_eq!(m.numer as f64 / m.denom as f64, 2.5);
}

#[test]
fn chunk_last_piece_takes_remainder() {
    let x = t(vec![1, 2, 3, 4], vec![4]);
    let pieces = chunk(&x, 3, 0).unwrap();
    assert_eq!(pieces.len(), 3);
    assert_eq!(pieces[0].shape, vec![1]);
    assert_eq!(pieces[0].data, vec![1]);
    assert_eq!(pieces[1].shape, vec![1]);
    assert_eq!(pieces[1].data, vec![2]);
    assert_eq!(pieces[2].shape, vec![2]);
    assert_eq!(pieces[2].data, vec![3, 4]);
}

#[test]
fn chunk_even_split() {
    let x = t(vec![1, 2, 3, 4, 5, 6], vec![6]);
    let pieces = chunk(&x, 3, 0).unwrap();
    assert_eq!(pieces[0].data, vec![1, 2]);
    assert_eq!(pieces[1].data, vec![3, 4]);
    assert_eq!(pieces[2].data, vec![5, 6]);
}

#[test]
fn chunk_errors() {
    let x = t(vec![1, 2, 3, 4], vec![4]);
    assert_eq!(chunk(&x, 0, 0).err(), Some(TensorError::InvalidArgument));
    assert_eq!(chunk(&x, 2, 1).err(), Some(TensorError::RankViolation));
}

#[test]
fn arange_step_by_three() {
    let r = arange_step(0..10, 3).unwrap();
    assert_eq!(r.shape, vec![4]);
    assert_eq!(r.data, vec![0, 3, 6, 9]);
}

#[test]
fn arange_step_edges() {
    assert_eq!(arange_step(0..10, 0).err(), Some(TensorError::InvalidArgument));
    let empty = arange_step(5..5, 2).unwrap();
    assert_eq!(empty.shape, vec![0]);
    assert!(empty.data.is_empty());
    assert_eq!(arange_step(2..9, 3).unwrap().data, vec![2, 5, 8]);
    assert_eq!(arange(3..6).data, vec![3, 4, 5]);
}

#[test]
fn narrow_middle_of_vector() {
    let x = t(vec![1, 2, 3, 4], vec![4]);
    let r = narrow(&x, 0, 1, 2).unwrap();
    assert_eq!(r.shape, vec![2]);
    assert_eq!(r.data, vec![2, 3]);
}

#[test]
fn narrow_inner_dimension_and_errors() {
    let x = t(vec![1, 2, 3, 4, 5, 6], vec![2, 3]);
    let r = narrow(&x, 1, 1, 2).unwrap();
    assert_eq!(r.shape, vec![2, 2]);
    assert_eq!(r.data, vec![2, 3, 5, 6]);
    assert_eq!(narrow(&x, 2, 0, 1).err(), Some(TensorError::RankViolation));
    assert_eq!(narrow(&x, 1, 2, 2).err(), Some(TensorError::IndexOutOfRange));
}

#[test]
fn reshape_to_own_shape_and_flat() {
    let x = t(vec![1, 2, 3, 4, 5, 6], vec![2, 3]);
    let same = reshape(x, vec![2, 3]).unwrap();
    assert_eq!(same.shape, vec![2, 3]);
    assert_eq!(same.data, vec![1, 2, 3, 4, 5, 6]);
    let flat = reshape(same, vec![6]).unwrap();
    assert_eq!(flat.num_elements(), 6);
    assert_eq!(flat.data, vec![1, 2, 3, 4, 5, 6]);
    assert_eq!(reshape(flat, vec![4]).err(), Some(TensorError::InvalidArgument));
}

#[test]
fn from_data_checks_count() {
    assert_eq!(from_data(vec![1i64, 2, 3], vec![2, 2]).err(), Some(TensorError::ShapeMismatch));
    assert_eq!(checked_num_elements(&vec![2, 3, 4]), Some(24));
    assert_eq!(checked_num_elements(&vec![usize::MAX, 2]), None);
    assert_eq!(checked_num_elements(&vec![usize::MAX, 2, 0]), Some(0));
}

#[test]
fn clamp_within_bounds() {
    let x = t(vec![-5, 0, 3, 9], vec![4]);
    assert_eq!(clamp(x.duplicate(), 0, 4).data, vec![0, 0, 3, 4]);
    assert_eq!(clamp_min(x.duplicate(), 1).data, vec![1, 1, 3, 9]);
    assert_eq!(clamp_max(x.duplicate(), 1).data, vec![-5, 0, 1, 1]);
}

#[test]
fn clamp_min_above_max_saturates_to_min() {
    let x = t(vec![-5, 0, 3, 9], vec![2, 2]);
    let r = clamp(x, 5, 2);
    assert_eq!(r.shape, vec![2, 2]);
    assert_eq!(r.data, vec![5, 5, 5, 5]);
}

#[test]
fn transpose_twice_round_trip() {
    let x = t(vec![1, 2, 3, 4, 5, 6], vec![2, 3]);
    let once = transpose(&x).unwrap();
    assert_eq!(once.shape, vec![3, 2]);
    assert_eq!(once.data, vec![1, 4, 2, 5, 3, 6]);
    let twice = transpose(&once).unwrap();
    assert_eq!(twice.shape, vec![2, 3]);
    assert_eq!(twice.data, x.data);
}

#[test]
fn transpose_batched_and_rank_error() {
    let x = t(vec![1, 2, 3, 4, 5, 6, 7, 8], vec![2, 2, 2]);
    assert_eq!(transpose(&x).unwrap().data, vec![1, 3, 2, 4, 5, 7, 6, 8]);
    let v = t(vec![1, 2], vec![2]);
    assert_eq!(transpose(&v).err(), Some(TensorError::RankViolation));
}

#[test]
fn repeat_singleton_dimension() {
    let x = t(vec![1, 2], vec![1, 2]);
    let r = repeat(&x, 0, 3).unwrap();
    assert_eq!(r.shape, vec![3, 2]);
    assert_eq!(r.data, vec![1, 2, 1, 2, 1, 2]);
    for j in 0..3 {
        let slice = narrow(&r, 0, j, 1).unwrap();
        assert_eq!(slice.shape, x.shape);
        assert_eq!(slice.data, x.data);
    }
    let col = t(vec![1, 2], vec![2, 1]);
    assert_eq!(repeat(&col, 1, 2).unwrap().data, vec![1, 1, 2, 2]);
}

#[test]
fn repeat_errors() {
    let x = t(vec![1, 2], vec![1, 2]);
    assert_eq!(repeat(&x, 1, 3).err(), Some(TensorError::InvalidArgument));
    assert_eq!(repeat(&x, 2, 3).err(), Some(TensorError::RankViolation));
}

#[test]
fn chunk_then_cat_restores_tensor() {
    let x = t((1..=15).collect(), vec![3, 5]);
    for k in 1..=5 {
        let pieces = chunk(&x, k, 1).unwrap();
        let back = cat(&pieces, 1).unwrap();
        assert_eq!(back.shape, x.shape);
        assert_eq!(back.data, x.data);
    }
    let rows = chunk(&x, 2, 0).unwrap();
    assert_eq!(rows[0].shape, vec![1, 5]);
    assert_eq!(rows[1].shape, vec![2, 5]);
    assert_eq!(cat(&rows, 0).unwrap().data, x.data);
}

#[test]
fn cat_errors_and_order() {
    let a = t(vec![1, 2], vec![1, 2]);
    let b = t(vec![3, 4, 5], vec![1, 3]);
    let joined = cat(&vec![a.duplicate(), b.duplicate()], 1).unwrap();
    assert_eq!(joined.shape, vec![1, 5]);
    assert_eq!(joined.data, vec![1, 2, 3, 4, 5]);
    assert_eq!(cat(&vec![a.duplicate(), b.duplicate()], 0).err(), Some(TensorError::ShapeMismatch));
    assert_eq!(cat(&vec![a.duplicate()], 2).err(), Some(TensorError::RankViolation));
    let none: Vec<Tensor<i64>> = Vec::new();
    assert_eq!(cat(&none, 0).err(), Some(TensorError::InvalidArgument));
}

#[test]
fn max_dim_with_indices_matches_separate_calls() {
    let x = t(vec![1, 5, 2, 7, 3, 7], vec![2, 3]);
    let (values, indices) = max_dim_with_indices(&x, 1).unwrap();
    let alone = max_dim(&x, 1).unwrap();
    let idx = argmax(&x, 1).unwrap();
    assert_eq!(values.data, alone.data);
    assert_eq!(values.shape, alone.shape);
    assert_eq!(indices.data, idx.data);
    assert_eq!(values.shape, vec![2, 1]);
    assert_eq!(values.data, vec![5, 7]);
    assert_eq!(indices.data, vec![1, 0]);
}

#[test]
fn min_dim_with_indices_matches_separate_calls() {
    let x = t(vec![4, 1, 1, 0, 3, 0], vec![2, 3]);
    let (values, indices) = min_dim_with_indices(&x, 1).unwrap();
    assert_eq!(values.data, min_dim(&x, 1).unwrap().data);
    assert_eq!(indices.data, argmin(&x, 1).unwrap().data);
    assert_eq!(values.data, vec![1, 0]);
    assert_eq!(indices.data, vec![1, 0]);
    let cols = min_dim(&x, 0).unwrap();
    assert_eq!(cols.shape, vec![1, 3]);
    assert_eq!(cols.data, vec![0, 1, 0]);
}

#[test]
fn whole_tensor_max_and_min() {
    let x = t(vec![3, -2, 8, 8], vec![2, 2]);
    let m = max(x.duplicate()).unwrap();
    assert_eq!(m.shape, vec![1]);
    assert_eq!(m.data, vec![8]);
    assert_eq!(min(x).unwrap().data, vec![-2]);
    let empty = t(vec![], vec![0]);
    assert_eq!(max(empty).err(), Some(TensorError::InvalidArgument));
}

#[test]
fn gather_picks_along_dimension() {
    let x = t(vec![10, 20, 30, 40], vec![2, 2]);
    let idx = t(vec![1, 0, 1, 1, 0, 0], vec![3, 2]);
    let g = gather(0, &x, &idx).unwrap();
    assert_eq!(g.shape, vec![3, 2]);
    assert_eq!(g.data, vec![30, 20, 30, 40, 10, 20]);
    let bad = t(vec![2, 0], vec![1, 2]);
    assert_eq!(gather(0, &x, &bad).err(), Some(TensorError::IndexOutOfRange));
    let wrong = t(vec![0, 0, 0], vec![1, 3]);
    assert_eq!(gather(0, &x, &wrong).err(), Some(TensorError::ShapeMismatch));
    assert_eq!(gather(2, &x, &idx).err(), Some(TensorError::RankViolation));
}

#[test]
fn scalar_arithmetic_and_negation() {
    let x = t(vec![1, -2, 3], vec![3]);
    assert_eq!(add_scalar(x.duplicate(), 10).data, vec![11, 8, 13]);
    assert_eq!(mul_scalar(x.duplicate(), -3).data, vec![-3, 6, -9]);
    assert_eq!(neg(x).data, vec![-1, 2, -3]);
}

#[test]
fn creation_fills() {
    let z = zeros(vec![2, 2]);
    assert_eq!(z.data, vec![0, 0, 0, 0]);
    assert_eq!(ones(vec![3]).data, vec![1, 1, 1]);
    let f = full(vec![2, 1], 7);
    assert_eq!(f.shape, vec![2, 1]);
    assert_eq!(f.data, vec![7, 7]);
    assert_eq!(full(vec![0, 4], 7).data.len(), 0);
}

#[test]
fn comparisons_and_mask_fill() {
    let x = t(vec![1, 5, 3], vec![3]);
    assert_eq!(lower_elem(&x, 3).data, vec![true, false, false]);
    assert_eq!(greater_elem(&x, 3).data, vec![false, true, false]);
    let mask = greater_elem(&x, 2);
    assert_eq!(mask_fill(x.duplicate(), &mask, 0).unwrap().data, vec![1, 0, 0]);
    let other = from_data(vec![true, false], vec![2]).unwrap();
    assert_eq!(mask_fill(x, &other, 0).err(), Some(TensorError::ShapeMismatch));
}

#[test]
fn integer_powers() {
    let x = t(vec![2, -3, 0, 1], vec![2, 2]);
    let p = powi_scalar(x.duplicate(), 3).unwrap();
    assert_eq!(p.shape, vec![2, 2]);
    assert_eq!(p.data, vec![8, -27, 0, 1]);
    assert_eq!(powi_scalar(x.duplicate(), 0).unwrap().data, vec![1, 1, 1, 1]);
    let big = t(vec![2, 3], vec![2]);
    assert!(powi_scalar(big, 63).is_none());
    let edge = t(vec![-2], vec![1]);
    assert_eq!(powi_scalar(edge, 63).unwrap().data, vec![i64::MIN]);
}

#[test]
fn autodiff_hooks_are_identity() {
    let x = t(vec![1, 2], vec![2]);
    assert!(!is_require_grad(&x));
    let y = set_require_grad(detach(x), true);
    assert_eq!(y.data, vec![1, 2]);
    assert!(!is_require_grad(&y));
}

#[test]
fn accessors_and_flatten() {
    let x = t(vec![1, 2, 3, 4, 5, 6], vec![3, 2]);
    assert_eq!(x.shape(), vec![3, 2]);
    assert_eq!(x.rank(), 2);
    assert_eq!(x.to_data(), vec![1, 2, 3, 4, 5, 6]);
    let f = flatten(x);
    assert_eq!(f.shape, vec![6]);
}

#[test]
fn swap_dims_outer_and_inner() {
    let x = t((0..24).collect(), vec![2, 3, 4]);
    let s = swap_dims(&x, 0, 2).unwrap();
    assert_eq!(s.shape, vec![4, 3, 2]);
    // element (a, b, c) of x is at (c, b, a) of s
    for a in 0..2 {
        for b in 0..3 {
            for c in 0..4 {
                assert_eq!(s.data[(c * 3 + b) * 2 + a], x.data[(a * 3 + b) * 4 + c]);
            }
        }
    }
    let back = swap_dims(&s, 2, 0).unwrap();
    assert_eq!(back.shape, x.shape);
    assert_eq!(back.data, x.data);
    assert_eq!(swap_dims(&x, 1, 1).unwrap().data, x.data);
    assert_eq!(swap_dims(&x, 0, 3).err(), Some(TensorError::RankViolation));
}

#[test]
fn elementwise_comparisons() {
    let x = t(vec![1, 3, 5], vec![3]);
    assert_eq!(equal_elem(&x, 3).data, vec![false, true, false]);
    assert_eq!(greater_equal_elem(&x, 3).data, vec![false, true, true]);
    assert_eq!(lower_equal_elem(&x, 3).data, vec![true, true, false]);
    assert_eq!(compare_elem(&x, 3, Comparison::Lower).data, vec![true, false, false]);
}

#[test]
fn elementwise_tensor_arithmetic() {
    let a = t(vec![1, 2, 3, 4], vec![2, 2]);
    let b = t(vec![10, 20, 30, 40], vec![2, 2]);
    assert_eq!(add(&a, &b).unwrap().data, vec![11, 22, 33, 44]);
    assert_eq!(sub(&a, &b).unwrap().data, vec![-9, -18, -27, -36]);
    assert_eq!(mul(&a, &b).unwrap().data, vec![10, 40, 90, 160]);
    let c = t(vec![1, 2, 3, 4], vec![4]);
    assert_eq!(add(&a, &c).err(), Some(TensorError::ShapeMismatch));
}

#[test]
fn sum_along_dimensions() {
    let x = t(vec![1, 2, 3, 4, 5, 6], vec![2, 3]);
    let rows = sum_dim(&x, 1).unwrap();
    assert_eq!(rows.shape, vec![2, 1]);
    assert_eq!(rows.data, vec![6, 15]);
    let cols = sum_dim(&x, 0).unwrap();
    assert_eq!(cols.shape, vec![1, 3]);
    assert_eq!(cols.data, vec![5, 7, 9]);
    assert_eq!(sum_dim(&x, 2).err(), Some(TensorError::RankViolation));
    let empty = t(vec![], vec![2, 0]);
    let z = sum_dim(&empty, 1).unwrap();
    assert_eq!(z.shape, vec![2, 1]);
    assert_eq!(z.data, vec![0, 0]);
}

#[test]
fn select_slices_in_index_order() {
    let x = t(vec![1, 2, 3, 4, 5, 6], vec![3, 2]);
    let idx = t(vec![2, 0, 2], vec![3]);
    let r = select(&x, 0, &idx).unwrap();
    assert_eq!(r.shape, vec![3, 2]);
    assert_eq!(r.data, vec![5, 6, 1, 2, 5, 6]);
    let one = t(vec![1], vec![1]);
    assert_eq!(select(&x, 1, &one).unwrap().data, vec![2, 4, 6]);
    let bad = t(vec![3], vec![1]);
    assert_eq!(select(&x, 0, &bad).err(), Some(TensorError::IndexOutOfRange));
    let flat = t(vec![0, 1], vec![1, 2]);
    assert_eq!(select(&x, 0, &flat).err(), Some(TensorError::ShapeMismatch));
    assert_eq!(select(&x, 2, &idx).err(), Some(TensorError::RankViolation));
}

#[test]
fn mask_where_takes_value_where_true() {
    let x = t(vec![1, 2, 3], vec![3]);
    let v = t(vec![10, 20, 30], vec![3]);
    let mask = from_data(vec![true, false, true], vec![3]).unwrap();
    assert_eq!(mask_where(x.duplicate(), &mask, &v).unwrap().data, vec![10, 2, 30]);
    let short = t(vec![10, 20], vec![2]);
    assert_eq!(mask_where(x, &mask, &short).err(), Some(TensorError::ShapeMismatch));
}

#[test]
fn slice_leading_dimensions() {
    let x = t((0..12).collect(), vec![3, 4]);
    let r = slice(&x, &vec![1..3, 1..3]).unwrap();
    assert_eq!(r.shape, vec![2, 2]);
    assert_eq!(r.data, vec![5, 6, 9, 10]);
    let rows = slice(&x, &vec![2..3]).unwrap();
    assert_eq!(rows.shape, vec![1, 4]);
    assert_eq!(rows.data, vec![8, 9, 10, 11]);
    assert_eq!(slice(&x, &vec![0..1, 0..1, 0..1]).err(), Some(TensorError::RankViolation));
    assert_eq!(slice(&x, &vec![0..4]).err(), Some(TensorError::IndexOutOfRange));
}

#[test]
fn slice_assign_replaces_region_only() {
    let x = t((0..12).collect(), vec![3, 4]);
    let v = t(vec![-1, -2, -3, -4], vec![2, 2]);
    let ranges = vec![1..3, 1..3];
    let r = slice_assign(&x, &ranges, &v).unwrap();
    assert_eq!(r.shape, vec![3, 4]);
    assert_eq!(r.data, vec![0, 1, 2, 3, 4, -1, -2, 7, 8, -3, -4, 11]);
    assert_eq!(slice(&r, &ranges).unwrap().data, v.data);
    let wrong = t(vec![1, 2], vec![1, 2]);
    assert_eq!(slice_assign(&x, &ranges, &wrong).err(), Some(TensorError::ShapeMismatch));
    assert_eq!(slice_assign(&x, &vec![2..4], &v).err(), Some(TensorError::IndexOutOfRange));
    let row = t(vec![7, 7, 7, 7], vec![1, 4]);
    let r2 = slice_assign(&x, &vec![0..1], &row).unwrap();
    assert_eq!(r2.data, vec![7, 7, 7, 7, 4, 5, 6, 7, 8, 9, 10, 11]);
}
