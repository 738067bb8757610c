use vstd::prelude::*;
use crate::layout::agree_except;
use crate::shape::col3;
use crate::shape::flat3;
use crate::shape::inner_size;
use crate::shape::lemma_flat3_bounds;
use crate::shape::lemma_flat3_of_coords;
use crate::shape::lemma_size_single;
use crate::shape::lemma_size_split;
use crate::shape::lemma_size_update;
use crate::shape::outer_size;
use crate::shape::row3;
use crate::shape::shape_size;
use crate::shape::split_at_dim;
use crate::tensor::flatten;
use crate::tensor::Tensor;
use crate::tensor::TensorError;
use crate::tensor::TensorModel;

verus! {

/// Position along the reduced dimension of the first largest (`want_max`) or
/// first smallest element among the first `m` of column `(o, i)`.
pub open spec fn best_index(
    data: Seq<i64>,
    o: int,
    i: int,
    n: int,
    inner: int,
    m: int,
    want_max: bool,
) -> int
    decreases m,
{
    if m <= 1 {
        0
    } else {
        let b = best_index(data, o, i, n, inner, m - 1, want_max);
        let x = data[flat3(o, m - 1, i, n, inner)];
        let y = data[flat3(o, b, i, n, inner)];
        if (want_max && x > y) || (!want_max && x < y) {
            m - 1
        } else {
            b
        }
    }
}

/// The index of the first largest (`want_max`) or first smallest element
/// along `dim`, in a tensor whose size there is one.
pub open spec fn arg_best_spec(t: TensorModel<i64>, dim: int, want_max: bool) -> TensorModel<i64> {
    let n = t.shape[dim] as int;
    let outer = outer_size(t.shape, dim) as int;
    let inner = inner_size(t.shape, dim) as int;
    TensorModel {
        shape: t.shape.update(dim, 1),
        data: Seq::new(
            (outer * 1 * inner) as nat,
            |p: int| best_index(t.data, row3(p, 1, inner), col3(p, inner), n, inner, n, want_max) as i64,
        ),
    }
}

pub open spec fn argmax_spec(t: TensorModel<i64>, dim: int) -> TensorModel<i64> {
    arg_best_spec(t, dim, true)
}

pub open spec fn argmin_spec(t: TensorModel<i64>, dim: int) -> TensorModel<i64> {
    arg_best_spec(t, dim, false)
}

/// The elements of `t` picked along `dim` by `indices`, which has the shape of
/// `t` but at `dim`.
pub open spec fn gather_spec<T>(t: TensorModel<T>, dim: int, indices: TensorModel<i64>) -> TensorModel<T> {
    let n = t.shape[dim] as int;
    let m = indices.shape[dim] as int;
    let inner = inner_size(t.shape, dim) as int;
    TensorModel {
        shape: indices.shape,
        data: Seq::new(
            indices.data.len(),
            |p: int| t.data[flat3(row3(p, m, inner), indices.data[p] as int, col3(p, inner), n, inner)],
        ),
    }
}

/// The largest elements along `dim`: the elements that `argmax` picks.
pub open spec fn max_dim_spec(t: TensorModel<i64>, dim: int) -> TensorModel<i64> {
    gather_spec(t, dim, argmax_spec(t, dim))
}

/// The smallest elements along `dim`: the elements that `argmin` picks.
pub open spec fn min_dim_spec(t: TensorModel<i64>, dim: int) -> TensorModel<i64> {
    gather_spec(t, dim, argmin_spec(t, dim))
}

/// `t`'s elements as a one-dimensional tensor.
pub open spec fn flat_spec<T>(t: TensorModel<T>) -> TensorModel<T> {
    TensorModel { shape: seq![t.data.len() as usize], data: t.data }
}

/// Sum of a sequence of integers.
pub open spec fn seq_sum(s: Seq<i64>) -> int
    decreases s.len(),
{
    if s.len() == 0 {
        0
    } else {
        seq_sum(s.drop_last()) + s.last()
    }
}

/// Every partial sum of `s`, from the left, fits in an `i64`.
pub open spec fn sums_fit(s: Seq<i64>) -> bool {
    forall|k: int| 0 <= k <= s.len() ==> i64::MIN <= #[trigger] seq_sum(s.take(k)) <= i64::MAX
}

pub proof fn lemma_best_index_bounds(
    data: Seq<i64>,
    o: int,
    i: int,
    n: int,
    inner: int,
    m: int,
    want_max: bool,
)
    requires
        m >= 1,
    ensures
        0 <= best_index(data, o, i, n, inner, m, want_max) < m,
    decreases m,
{
    if m > 1 {
        lemma_best_index_bounds(data, o, i, n, inner, m - 1, want_max);
    }
}

/// The index is that of a largest (smallest) element, and no earlier element
/// is as large (small).
pub proof fn lemma_best_index_first(
    data: Seq<i64>,
    o: int,
    i: int,
    n: int,
    inner: int,
    m: int,
    want_max: bool,
)
    requires
        m >= 1,
    ensures
        ({
            let b = best_index(data, o, i, n, inner, m, want_max);
            let v = data[flat3(o, b, i, n, inner)];
            &&& forall|j: int|
                0 <= j < m ==> (if want_max {
                    #[trigger] data[flat3(o, j, i, n, inner)] <= v
                } else {
                    data[flat3(o, j, i, n, inner)] >= v
                })
            &&& forall|j: int|
                0 <= j < b ==> (if want_max {
                    #[trigger] data[flat3(o, j, i, n, inner)] < v
                } else {
                    data[flat3(o, j, i, n, inner)] > v
                })
        }),
    decreases m,
{
    if m > 1 {
        lemma_best_index_first(data, o, i, n, inner, m - 1, want_max);
        lemma_best_index_bounds(data, o, i, n, inner, m - 1, want_max);
    }
}

/// Index of the first largest (`want_max`) or smallest element along `dim`.
fn arg_best(t: &Tensor<i64>, dim: usize, want_max: bool) -> (r: Result<Tensor<i64>, TensorError>)
    requires
        t.wf(),
        dim < t.shape@.len() ==> t.shape@[dim as int] <= i64::MAX,
    ensures
        r is Ok <==> dim < t.shape@.len() && t.shape@[dim as int] > 0,
        match r {
            Ok(u) => u@ == arg_best_spec(t@, dim as int, want_max) && u.wf(),
            Err(e) => e == (if dim >= t.shape@.len() {
                TensorError::RankViolation
            } else {
                TensorError::InvalidArgument
            }),
        },
{
    if dim >= t.shape.len() {
        return Err(TensorError::RankViolation);
    }
    let n = t.shape[dim];
    if n == 0 {
        return Err(TensorError::InvalidArgument);
    }
    let ghost spec_r = arg_best_spec(t@, dim as int, want_max);
    let mut shape = crate::tensor::copy_vec(&t.shape);
    shape.set(dim, 1);
    proof {
        lemma_size_split(t.shape@, dim as int);
        lemma_size_update(t.shape@, dim as int, 1);
        let outer = outer_size(t.shape@, dim as int) as int;
        let inner = inner_size(t.shape@, dim as int) as int;
        assert(outer * n * inner == 0 ==> outer * 1 * inner == 0) by (nonlinear_arith)
            requires
                n > 0,
                outer >= 0,
                inner >= 0,
        ;
    }
    let total = t.data.len();
    if total == 0 {
        proof {
            assert(spec_r.data.len() == 0);
            assert(spec_r.data =~= Seq::<i64>::empty());
        }
        return Ok(Tensor { shape, data: Vec::new() });
    }
    let (outer, inner) = split_at_dim(&t.shape, dim, total);
    proof {
        assert(outer * 1 * inner <= outer * n * inner) by (nonlinear_arith)
            requires
                n > 0,
                outer >= 0,
                inner >= 0,
        ;
    }
    let out_len = outer * inner;
    let mut data: Vec<i64> = Vec::new();
    let mut p: usize = 0;
    while p < out_len
        invariant
            t.wf(),
            dim < t.shape@.len(),
            n == t.shape@[dim as int],
            0 < n <= i64::MAX,
            inner > 0,
            total == t.data@.len(),
            total == outer * n * inner,
            out_len == outer * 1 * inner,
            outer == outer_size(t.shape@, dim as int),
            inner == inner_size(t.shape@, dim as int),
            spec_r == arg_best_spec(t@, dim as int, want_max),
            0 <= p <= out_len,
            data@ == spec_r.data.take(p as int),
        decreases out_len - p,
    {
        proof {
            lemma_flat3_of_coords(p as int, outer as int, 1, inner as int);
        }
        let o = p / inner;
        let i = p % inner;
        let mut best: usize = 0;
        let mut k: usize = 1;
        while k < n
            invariant
                t.wf(),
                total == t.data@.len(),
                total == outer * n * inner,
                0 < n <= i64::MAX,
                o < outer,
                i < inner,
                1 <= k <= n,
                best < k,
                best == best_index(t.data@, o as int, i as int, n as int, inner as int, k as int, want_max),
            decreases n - k,
        {
            proof {
                lemma_flat3_bounds(o as int, k as int, i as int, outer as int, n as int, inner as int);
                lemma_flat3_bounds(o as int, best as int, i as int, outer as int, n as int, inner as int);
            }
            let x = t.data[(o * n + k) * inner + i];
            let y = t.data[(o * n + best) * inner + i];
            if (want_max && x > y) || (!want_max && x < y) {
                best = k;
            }
            k = k + 1;
        }
        data.push(best as i64);
        p = p + 1;
        assert(data@ =~= spec_r.data.take(p as int));
    }
    assert(spec_r.data.take(out_len as int) =~= spec_r.data);
    Ok(Tensor { shape, data })
}

/// Index along `dim` of the first largest element; the result has size one
/// along `dim`.
pub fn argmax(t: &Tensor<i64>, dim: usize) -> (r: Result<Tensor<i64>, TensorError>)
    requires
        t.wf(),
        dim < t.shape@.len() ==> t.shape@[dim as int] <= i64::MAX,
    ensures
        r is Ok <==> dim < t.shape@.len() && t.shape@[dim as int] > 0,
        match r {
            Ok(u) => u@ == argmax_spec(t@, dim as int) && u.wf(),
            Err(e) => e == (if dim >= t.shape@.len() {
                TensorError::RankViolation
            } else {
                TensorError::InvalidArgument
            }),
        },
{
    arg_best(t, dim, true)
}

/// Index along `dim` of the first smallest element; the result has size one
/// along `dim`.
pub fn argmin(t: &Tensor<i64>, dim: usize) -> (r: Result<Tensor<i64>, TensorError>)
    requires
        t.wf(),
        dim < t.shape@.len() ==> t.shape@[dim as int] <= i64::MAX,
    ensures
        r is Ok <==> dim < t.shape@.len() && t.shape@[dim as int] > 0,
        match r {
            Ok(u) => u@ == argmin_spec(t@, dim as int) && u.wf(),
            Err(e) => e == (if dim >= t.shape@.len() {
                TensorError::RankViolation
            } else {
                TensorError::InvalidArgument
            }),
        },
{
    arg_best(t, dim, false)
}

/// Whether every index lies in `[0, n)`.
pub(crate) fn indices_in_range(indices: &Vec<i64>, n: usize) -> (r: bool)
    ensures
        r == forall|p: int| 0 <= p < indices@.len() ==> 0 <= #[trigger] indices@[p] < n,
{
    let mut p: usize = 0;
    while p < indices.len()
        invariant
            0 <= p <= indices.len(),
            forall|x: int| 0 <= x < p ==> 0 <= #[trigger] indices@[x] < n,
        decreases indices.len() - p,
    {
        let v = indices[p];
        if v < 0 || v as u64 >= n as u64 {
            return false;
        }
        p = p + 1;
    }
    true
}

/// The elements of `t` that `indices` picks along `dim`: where `indices` holds
/// `j` at a position, the result holds the element of `t` at that position
/// with its `dim` coordinate replaced by `j`.
pub fn gather<T: Copy>(dim: usize, t: &Tensor<T>, indices: &Tensor<i64>) -> (r: Result<
    Tensor<T>,
    TensorError,
>)
    requires
        t.wf(),
        indices.wf(),
    ensures
        r is Ok <==> dim < t.shape@.len() && agree_except(indices.shape@, t.shape@, dim as int) && (
        forall|p: int|
            0 <= p < indices.data@.len() ==> 0 <= #[trigger] indices.data@[p] < t.shape@[dim as int]),
        match r {
            Ok(u) => u@ == gather_spec(t@, dim as int, indices@) && u.wf(),
            Err(e) => e == (if dim >= t.shape@.len() {
                TensorError::RankViolation
            } else if !agree_except(indices.shape@, t.shape@, dim as int) {
                TensorError::ShapeMismatch
            } else {
                TensorError::IndexOutOfRange
            }),
        },
{
    if dim >= t.shape.len() {
        return Err(TensorError::RankViolation);
    }
    if !crate::layout::agrees_except(&indices.shape, &t.shape, dim) {
        return Err(TensorError::ShapeMismatch);
    }
    let n = t.shape[dim];
    if !indices_in_range(&indices.data, n) {
        return Err(TensorError::IndexOutOfRange);
    }
    let ghost spec_r = gather_spec(t@, dim as int, indices@);
    let shape = crate::tensor::copy_vec(&indices.shape);
    let out_len = indices.data.len();
    if out_len == 0 {
        proof {
            assert(spec_r.data =~= Seq::<T>::empty());
        }
        return Ok(Tensor { shape, data: Vec::new() });
    }
    let (outer, inner) = split_at_dim(&indices.shape, dim, out_len);
    let m = indices.shape[dim];
    proof {
        assert(indices.shape@.take(dim as int) =~= t.shape@.take(dim as int));
        assert(indices.shape@.skip(dim + 1) =~= t.shape@.skip(dim + 1));
        lemma_size_split(t.shape@, dim as int);
        lemma_size_split(indices.shape@, dim as int);
    }
    let tlen = t.data.len();
    let mut data: Vec<T> = Vec::new();
    let mut p: usize = 0;
    while p < out_len
        invariant
            t.wf(),
            indices.wf(),
            tlen == t.data@.len(),
            dim < t.shape@.len(),
            n == t.shape@[dim as int],
            m == indices.shape@[dim as int],
            inner > 0,
            t.data@.len() == outer * n * inner,
            out_len == outer * m * inner,
            out_len == indices.data@.len(),
            outer == outer_size(t.shape@, dim as int),
            inner == inner_size(t.shape@, dim as int),
            forall|x: int| 0 <= x < indices.data@.len() ==> 0 <= #[trigger] indices.data@[x] < n,
            spec_r == gather_spec(t@, dim as int, indices@),
            0 <= p <= out_len,
            data@ == spec_r.data.take(p as int),
        decreases out_len - p,
    {
        proof {
            lemma_flat3_of_coords(p as int, outer as int, m as int, inner as int);
        }
        let q = p / inner;
        let o = q / m;
        let i = p % inner;
        let k = indices.data[p] as usize;
        proof {
            lemma_flat3_bounds(o as int, k as int, i as int, outer as int, n as int, inner as int);
        }
        let src = (o * n + k) * inner + i;
        data.push(t.data[src]);
        p = p + 1;
        assert(data@ =~= spec_r.data.take(p as int));
    }
    assert(spec_r.data.take(out_len as int) =~= spec_r.data);
    Ok(Tensor { shape, data })
}

/// The picked indices are in range and the index tensor has the shape of `t`
/// but at `dim`.
proof fn lemma_arg_best_gatherable(t: TensorModel<i64>, dim: int, want_max: bool)
    requires
        t.wf(),
        0 <= dim < t.shape.len(),
        0 < t.shape[dim] <= i64::MAX,
    ensures
        agree_except(arg_best_spec(t, dim, want_max).shape, t.shape, dim),
        forall|p: int|
            0 <= p < arg_best_spec(t, dim, want_max).data.len() ==> 0 <= #[trigger] arg_best_spec(
                t,
                dim,
                want_max,
            ).data[p] < t.shape[dim],
{
    let a = arg_best_spec(t, dim, want_max);
    let n = t.shape[dim] as int;
    let inner = inner_size(t.shape, dim) as int;
    assert forall|p: int| 0 <= p < a.data.len() implies 0 <= #[trigger] a.data[p] < t.shape[dim] by {
        lemma_best_index_bounds(t.data, row3(p, 1, inner), col3(p, inner), n, inner, n, want_max);
    }
}

/// The largest elements along `dim`; the result has size one along `dim`.
pub fn max_dim(t: &Tensor<i64>, dim: usize) -> (r: Result<Tensor<i64>, TensorError>)
    requires
        t.wf(),
        dim < t.shape@.len() ==> t.shape@[dim as int] <= i64::MAX,
    ensures
        r is Ok <==> dim < t.shape@.len() && t.shape@[dim as int] > 0,
        match r {
            Ok(u) => u@ == max_dim_spec(t@, dim as int) && u.wf(),
            Err(e) => e == (if dim >= t.shape@.len() {
                TensorError::RankViolation
            } else {
                TensorError::InvalidArgument
            }),
        },
{
    match max_dim_with_indices(t, dim) {
        Ok((values, _)) => Ok(values),
        Err(e) => Err(e),
    }
}

/// The largest elements along `dim` and their indices, from one `argmax`.
pub fn max_dim_with_indices(t: &Tensor<i64>, dim: usize) -> (r: Result<
    (Tensor<i64>, Tensor<i64>),
    TensorError,
>)
    requires
        t.wf(),
        dim < t.shape@.len() ==> t.shape@[dim as int] <= i64::MAX,
    ensures
        r is Ok <==> dim < t.shape@.len() && t.shape@[dim as int] > 0,
        match r {
            Ok((values, indices)) => {
                &&& indices@ == argmax_spec(t@, dim as int)
                &&& values@ == gather_spec(t@, dim as int, indices@)
                &&& values.wf() && indices.wf()
            },
            Err(e) => e == (if dim >= t.shape@.len() {
                TensorError::RankViolation
            } else {
                TensorError::InvalidArgument
            }),
        },
{
    let index = match argmax(t, dim) {
        Ok(i) => i,
        Err(e) => {
            return Err(e);
        },
    };
    proof {
        lemma_arg_best_gatherable(t@, dim as int, true);
    }
    match gather(dim, t, &index) {
        Ok(values) => Ok((values, index)),
        Err(e) => Err(e),
    }
}

/// The smallest elements along `dim`; the result has size one along `dim`.
pub fn min_dim(t: &Tensor<i64>, dim: usize) -> (r: Result<Tensor<i64>, TensorError>)
    requires
        t.wf(),
        dim < t.shape@.len() ==> t.shape@[dim as int] <= i64::MAX,
    ensures
        r is Ok <==> dim < t.shape@.len() && t.shape@[dim as int] > 0,
        match r {
            Ok(u) => u@ == min_dim_spec(t@, dim as int) && u.wf(),
            Err(e) => e == (if dim >= t.shape@.len() {
                TensorError::RankViolation
            } else {
                TensorError::InvalidArgument
            }),
        },
{
    match min_dim_with_indices(t, dim) {
        Ok((values, _)) => Ok(values),
        Err(e) => Err(e),
    }
}

/// The smallest elements along `dim` and their indices, from one `argmin`.
pub fn min_dim_with_indices(t: &Tensor<i64>, dim: usize) -> (r: Result<
    (Tensor<i64>, Tensor<i64>),
    TensorError,
>)
    requires
        t.wf(),
        dim < t.shape@.len() ==> t.shape@[dim as int] <= i64::MAX,
    ensures
        r is Ok <==> dim < t.shape@.len() && t.shape@[dim as int] > 0,
        match r {
            Ok((values, indices)) => {
                &&& indices@ == argmin_spec(t@, dim as int)
                &&& values@ == gather_spec(t@, dim as int, indices@)
                &&& values.wf() && indices.wf()
            },
            Err(e) => e == (if dim >= t.shape@.len() {
                TensorError::RankViolation
            } else {
                TensorError::InvalidArgument
            }),
        },
{
    let index = match argmin(t, dim) {
        Ok(i) => i,
        Err(e) => {
            return Err(e);
        },
    };
    proof {
        lemma_arg_best_gatherable(t@, dim as int, false);
    }
    match gather(dim, t, &index) {
        Ok(values) => Ok((values, index)),
        Err(e) => Err(e),
    }
}

/// The largest element of the whole tensor, as a tensor of shape `[1]`; the
/// tensor must not be empty.
pub fn max(t: Tensor<i64>) -> (r: Result<Tensor<i64>, TensorError>)
    requires
        t.wf(),
        t.data@.len() <= i64::MAX,
    ensures
        r is Ok <==> t.data@.len() > 0,
        match r {
            Ok(u) => u@ == max_dim_spec(flat_spec(t@), 0) && u.wf(),
            Err(e) => e == TensorError::InvalidArgument,
        },
{
    let flat = flatten(t);
    assert(flat.shape@[0] == flat.data@.len());
    assert(flat@ == flat_spec(t@));
    max_dim(&flat, 0)
}

/// The smallest element of the whole tensor, as a tensor of shape `[1]`; the
/// tensor must not be empty.
pub fn min(t: Tensor<i64>) -> (r: Result<Tensor<i64>, TensorError>)
    requires
        t.wf(),
        t.data@.len() <= i64::MAX,
    ensures
        r is Ok <==> t.data@.len() > 0,
        match r {
            Ok(u) => u@ == min_dim_spec(flat_spec(t@), 0) && u.wf(),
            Err(e) => e == TensorError::InvalidArgument,
        },
{
    let flat = flatten(t);
    assert(flat.shape@[0] == flat.data@.len());
    assert(flat@ == flat_spec(t@));
    min_dim(&flat, 0)
}

/// The sum of all elements, as a tensor of shape `[1]`.
pub fn sum(t: &Tensor<i64>) -> (r: Tensor<i64>)
    requires
        t.wf(),
        sums_fit(t.data@),
    ensures
        r.wf(),
        r.shape@ == seq![1usize],
        r.data@ == seq![seq_sum(t.data@) as i64],
{
    let mut acc: i64 = 0;
    let mut i: usize = 0;
    while i < t.data.len()
        invariant
            0 <= i <= t.data@.len(),
            sums_fit(t.data@),
            acc == seq_sum(t.data@.take(i as int)),
        decreases t.data@.len() - i,
    {
        assert(t.data@.take(i + 1).drop_last() =~= t.data@.take(i as int));
        assert(i64::MIN <= seq_sum(t.data@.take(i + 1)) <= i64::MAX);
        acc = acc + t.data[i];
        i = i + 1;
    }
    assert(t.data@.take(t.data@.len() as int) =~= t.data@);
    let mut shape: Vec<usize> = Vec::new();
    shape.push(1);
    let mut data: Vec<i64> = Vec::new();
    data.push(acc);
    proof {
        lemma_size_single(1);
        assert(shape@ =~= seq![1usize]);
        assert(data@ =~= seq![seq_sum(t.data@) as i64]);
    }
    Tensor { shape, data }
}

/// An exact quotient `numer / denom`.
#[derive(Debug, Clone, Copy, PartialEq, Eq, Structural)]
pub struct Fraction {
    pub numer: i64,
    pub denom: usize,
}

/// The mean of all elements: their sum divided by their number, kept exact.
pub fn mean(t: &Tensor<i64>) -> (r: Fraction)
    requires
        t.wf(),
        sums_fit(t.data@),
    ensures
        r.numer == seq_sum(t.data@),
        r.denom == shape_size(t.shape@),
{
    let s = sum(t);
    assert(t.data@.take(t.data@.len() as int) =~= t.data@);
    assert(i64::MIN <= seq_sum(t.data@.take(t.data@.len() as int)) <= i64::MAX);
    assert(s.data@[0] == seq_sum(t.data@) as i64);
    Fraction { numer: s.data[0], denom: t.data.len() }
}

/// Sum of the first `m` elements of column `(o, i)` along the reduced dimension.
pub open spec fn column_sum(data: Seq<i64>, o: int, i: int, n: int, inner: int, m: int) -> int
    decreases m,
{
    if m <= 0 {
        0
    } else {
        column_sum(data, o, i, n, inner, m - 1) + data[flat3(o, m - 1, i, n, inner)]
    }
}

/// Every partial sum along `dim` fits in an `i64`.
pub open spec fn column_sums_fit(t: TensorModel<i64>, dim: int) -> bool {
    let n = t.shape[dim] as int;
    let outer = outer_size(t.shape, dim) as int;
    let inner = inner_size(t.shape, dim) as int;
    forall|o: int, i: int, m: int|
        0 <= o < outer && 0 <= i < inner && 0 <= m <= n ==> i64::MIN <= #[trigger] column_sum(
            t.data,
            o,
            i,
            n,
            inner,
            m,
        ) <= i64::MAX
}

/// The sums along `dim`, in a tensor whose size there is one.
pub open spec fn sum_dim_spec(t: TensorModel<i64>, dim: int) -> TensorModel<i64> {
    let n = t.shape[dim] as int;
    let outer = outer_size(t.shape, dim) as int;
    let inner = inner_size(t.shape, dim) as int;
    TensorModel {
        shape: t.shape.update(dim, 1),
        data: Seq::new(
            (outer * 1 * inner) as nat,
            |p: int| column_sum(t.data, row3(p, 1, inner), col3(p, inner), n, inner, n) as i64,
        ),
    }
}

/// The sums along `dim`; the result has size one there.
pub fn sum_dim(t: &Tensor<i64>, dim: usize) -> (r: Result<Tensor<i64>, TensorError>)
    requires
        t.wf(),
        dim < t.shape@.len() ==> column_sums_fit(t@, dim as int),
        dim < t.shape@.len() ==> shape_size(t.shape@.update(dim as int, 1)) <= usize::MAX,
    ensures
        r is Ok <==> dim < t.shape@.len(),
        match r {
            Ok(u) => u@ == sum_dim_spec(t@, dim as int) && u.wf(),
            Err(e) => e == TensorError::RankViolation,
        },
{
    if dim >= t.shape.len() {
        return Err(TensorError::RankViolation);
    }
    let n = t.shape[dim];
    let ghost spec_r = sum_dim_spec(t@, dim as int);
    let mut shape = crate::tensor::copy_vec(&t.shape);
    shape.set(dim, 1);
    proof {
        lemma_size_split(t.shape@, dim as int);
        lemma_size_update(t.shape@, dim as int, 1);
    }
    let total = t.data.len();
    if total == 0 {
        let out = zero_sums(&t.shape, dim);
        assert(out@ =~= spec_r.data);
        return Ok(Tensor { shape, data: out });
    }
    let (outer, inner) = split_at_dim(&t.shape, dim, total);
    proof {
        assert(outer * 1 * inner <= outer * n * inner) by (nonlinear_arith)
            requires
                n > 0,
                outer >= 0,
                inner >= 0,
        ;
    }
    let out_len = outer * inner;
    let mut data: Vec<i64> = Vec::new();
    let mut p: usize = 0;
    while p < out_len
        invariant
            t.wf(),
            dim < t.shape@.len(),
            n == t.shape@[dim as int],
            column_sums_fit(t@, dim as int),
            inner > 0,
            total == t.data@.len(),
            total == outer * n * inner,
            out_len == outer * 1 * inner,
            outer == outer_size(t.shape@, dim as int),
            inner == inner_size(t.shape@, dim as int),
            spec_r == sum_dim_spec(t@, dim as int),
            0 <= p <= out_len,
            data@ == spec_r.data.take(p as int),
        decreases out_len - p,
    {
        proof {
            lemma_flat3_of_coords(p as int, outer as int, 1, inner as int);
        }
        let o = p / inner;
        let i = p % inner;
        let mut acc: i64 = 0;
        let mut k: usize = 0;
        while k < n
            invariant
                t.wf(),
                total == t.data@.len(),
                total == outer * n * inner,
                column_sums_fit(t@, dim as int),
                dim < t.shape@.len(),
                n == t.shape@[dim as int],
                outer == outer_size(t.shape@, dim as int),
                inner == inner_size(t.shape@, dim as int),
                o < outer,
                i < inner,
                0 <= k <= n,
                acc == column_sum(t.data@, o as int, i as int, n as int, inner as int, k as int),
            decreases n - k,
        {
            proof {
                lemma_flat3_bounds(o as int, k as int, i as int, outer as int, n as int, inner as int);
                assert(i64::MIN <= column_sum(t.data@, o as int, i as int, n as int, inner as int, k + 1) <= i64::MAX);
            }
            acc = acc + t.data[(o * n + k) * inner + i];
            k = k + 1;
        }
        data.push(acc);
        p = p + 1;
        assert(data@ =~= spec_r.data.take(p as int));
    }
    assert(spec_r.data.take(out_len as int) =~= spec_r.data);
    Ok(Tensor { shape, data })
}

/// The sums along `dim` of a tensor with no elements: every column is empty.
fn zero_sums(shape: &Vec<usize>, dim: usize) -> (r: Vec<i64>)
    requires
        dim < shape@.len(),
        shape_size(shape@) == 0,
        shape_size(shape@.update(dim as int, 1)) <= usize::MAX,
    ensures
        r@ == Seq::new(
            (outer_size(shape@, dim as int) * 1 * inner_size(shape@, dim as int)) as nat,
            |p: int| 0i64,
        ),
        shape@[dim as int] > 0 ==> r@.len() == 0,
{
    let ghost outer = outer_size(shape@, dim as int) as int;
    let ghost inner = inner_size(shape@, dim as int) as int;
    let n = shape[dim];
    proof {
        lemma_size_split(shape@, dim as int);
    }
    if n > 0 {
        proof {
            assert(outer * n * inner == 0 ==> outer * 1 * inner == 0) by (nonlinear_arith)
                requires
                    n > 0,
                    outer >= 0,
                    inner >= 0,
            ;
            assert(Seq::new((outer * 1 * inner) as nat, |p: int| 0i64) =~= Seq::<i64>::empty());
        }
        return Vec::new();
    }
    let mut rest = crate::tensor::copy_vec(shape);
    rest.set(dim, 1);
    proof {
        lemma_size_update(shape@, dim as int, 1);
    }
    let count = match crate::shape::checked_num_elements(&rest) {
        Some(c) => c,
        None => 0,
    };
    let mut out: Vec<i64> = Vec::new();
    let mut j: usize = 0;
    while j < count
        invariant
            0 <= j <= count,
            out@ == Seq::new(j as nat, |p: int| 0i64),
        decreases count - j,
    {
        out.push(0);
        j = j + 1;
        assert(out@ =~= Seq::new(j as nat, |p: int| 0i64));
    }
    out
}

} // verus!
