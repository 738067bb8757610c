use vstd::prelude::*;
use std::ops::Range;
use crate::elementwise::clamp_spec;
use crate::layout::agree_except;
use crate::layout::cat2_spec;
use crate::layout::cat_compatible;
use crate::layout::total_dim;
use crate::layout::total_len;
use crate::layout::cat_spec;
use crate::layout::chunk_len;
use crate::layout::chunk_piece;
use crate::layout::chunk_spec;
use crate::layout::between_size;
use crate::layout::lemma_size5;
use crate::layout::lemma_swap_source;
use crate::layout::swap_dims_spec;
use crate::layout::swap_ordered;
use crate::layout::narrow_spec;
use crate::layout::ranges_valid;
use crate::layout::ranges_valid_from;
use crate::layout::region_shape;
use crate::layout::slice_assign_from;
use crate::layout::slice_spec;
use crate::layout::repeat_spec;
use crate::layout::transpose_spec;
use crate::reduce::argmax_spec;
use crate::reduce::lemma_best_index_bounds;
use crate::reduce::lemma_best_index_first;
use crate::reduce::argmin_spec;
use crate::reduce::gather_spec;
use crate::reduce::max_dim_spec;
use crate::reduce::min_dim_spec;
use crate::shape::col3;
use crate::shape::flat3;
use crate::shape::inner_size;
use crate::shape::lemma_flat3_bounds;
use crate::shape::lemma_flat3_coords;
use crate::shape::lemma_flat3_of_coords;
use crate::shape::lemma_size_split;
use crate::shape::lemma_size_update;
use crate::shape::mid3;
use crate::shape::outer_size;
use crate::shape::row3;
use crate::shape::shape_size;
use crate::tensor::reshape_spec;
use crate::tensor::TensorModel;

verus! {

/// Reshaping a tensor to its own shape gives the tensor back, and every
/// accepted reshape keeps the number of elements.
pub proof fn reshape_keeps_elements<T>(t: TensorModel<T>, shape: Seq<usize>)
    requires
        t.wf(),
    ensures
        reshape_spec(t, t.shape) == t,
        shape_size(shape) == shape_size(t.shape) ==> {
            &&& reshape_spec(t, shape).wf()
            &&& reshape_spec(t, shape).data.len() == t.data.len()
        },
{
}

/// With `min <= max` every clamped element lies in `[min, max]`; with
/// `min > max` every clamped element is `min`.
pub proof fn clamp_in_bounds(data: Seq<i64>, min: i64, max: i64)
    ensures
        clamp_spec(data, min, max).len() == data.len(),
        forall|i: int|
            0 <= i < data.len() ==> {
                let v = #[trigger] clamp_spec(data, min, max)[i];
                &&& min <= max ==> min <= v <= max
                &&& min > max ==> v == min
            },
{
}

proof fn lemma_swap_ordered_twice<T>(t: TensorModel<T>, d1: int, d2: int)
    requires
        t.wf(),
        0 <= d1 < d2 < t.shape.len(),
    ensures
        swap_ordered(swap_ordered(t, d1, d2), d1, d2) == t,
{
    let s = t.shape;
    let u = swap_ordered(t, d1, d2);
    let v = swap_ordered(u, d1, d2);
    lemma_size5(s, d1, d2);
    let a_size = outer_size(s, d1) as int;
    let n1 = s[d1] as int;
    let b_size = between_size(s, d1, d2) as int;
    let n2 = s[d2] as int;
    let c_size = inner_size(s, d2) as int;
    assert(v.shape =~= s);
    assert forall|p: int| 0 <= p < v.data.len() implies v.data[p] == t.data[p] by {
        lemma_swap_source(p, a_size, n2, b_size, n1, c_size);
        let q = row3(p, n2, c_size);
        let x = mid3(p, n2, c_size);
        let c = col3(p, c_size);
        let a = row3(q, n1, b_size);
        let y = mid3(q, n1, b_size);
        let b = col3(q, b_size);
        lemma_flat3_coords(flat3(a, x, b, n2, b_size), y, c, n1, c_size);
        lemma_flat3_coords(a, x, b, n2, b_size);
    }
    assert(v.data =~= t.data);
}

/// Exchanging the same two dimensions twice gives the tensor back.
pub proof fn swap_dims_round_trip<T>(t: TensorModel<T>, d1: int, d2: int)
    requires
        t.wf(),
        0 <= d1 < t.shape.len(),
        0 <= d2 < t.shape.len(),
    ensures
        swap_dims_spec(swap_dims_spec(t, d1, d2), d1, d2) == t,
{
    if d1 < d2 {
        lemma_swap_ordered_twice(t, d1, d2);
    } else if d2 < d1 {
        lemma_swap_ordered_twice(t, d2, d1);
    }
}

/// Transposing twice gives the tensor back.
pub proof fn transpose_round_trip<T>(t: TensorModel<T>)
    requires
        t.wf(),
        t.shape.len() >= 2,
    ensures
        transpose_spec(transpose_spec(t)) == t,
{
    let d = t.shape.len() as int;
    if d - 2 < d - 1 {
        lemma_size5(t.shape, d - 2, d - 1);
    }
    assert(transpose_spec(t).shape.len() == d);
    swap_dims_round_trip(t, d - 2, d - 1);
}

/// Repeating a singleton dimension `times` times gives size `times` there, and
/// every slice along it is the repeated tensor.
pub proof fn repeat_slices<T>(t: TensorModel<T>, dim: int, times: usize)
    requires
        t.wf(),
        0 <= dim < t.shape.len(),
        t.shape[dim] == 1,
    ensures
        repeat_spec(t, dim, times as int).shape[dim] == times,
        forall|j: int| 0 <= j < times ==> #[trigger] narrow_spec(repeat_spec(t, dim, times as int), dim, j, 1) == t,
{
    let w = repeat_spec(t, dim, times as int);
    let outer = outer_size(t.shape, dim) as int;
    let inner = inner_size(t.shape, dim) as int;
    lemma_size_split(t.shape, dim);
    lemma_size_update(t.shape, dim, times);
    assert forall|j: int| 0 <= j < times implies #[trigger] narrow_spec(w, dim, j, 1) == t by {
        let x = narrow_spec(w, dim, j, 1);
        assert(x.shape =~= t.shape);
        assert forall|p: int| 0 <= p < x.data.len() implies x.data[p] == t.data[p] by {
            lemma_flat3_of_coords(p, outer, 1, inner);
            let o = row3(p, 1, inner);
            let i = col3(p, inner);
            lemma_flat3_bounds(o, j, i, outer, times as int, inner);
            lemma_flat3_coords(o, j, i, times as int, inner);
        }
        assert(x.data =~= t.data);
    }
}

/// Narrowing to the whole of a dimension gives the tensor back.
pub proof fn narrow_whole<T>(t: TensorModel<T>, dim: int)
    requires
        t.wf(),
        0 <= dim < t.shape.len(),
    ensures
        narrow_spec(t, dim, 0, t.shape[dim] as int) == t,
{
    let n = t.shape[dim] as int;
    let x = narrow_spec(t, dim, 0, n);
    let outer = outer_size(t.shape, dim) as int;
    let inner = inner_size(t.shape, dim) as int;
    lemma_size_split(t.shape, dim);
    assert(x.shape =~= t.shape);
    assert forall|p: int| 0 <= p < x.data.len() implies x.data[p] == t.data[p] by {
        lemma_flat3_of_coords(p, outer, n, inner);
    }
    assert(x.data =~= t.data);
}

/// Two adjacent narrowings of a tensor, joined along their dimension, are the
/// narrowing that spans both.
pub proof fn cat_adjacent_narrows<T>(t: TensorModel<T>, dim: int, s: int, x: int, y: int)
    requires
        t.wf(),
        0 <= dim < t.shape.len(),
        0 <= s,
        0 <= x,
        0 <= y,
        s + x + y <= t.shape[dim],
    ensures
        cat2_spec(narrow_spec(t, dim, s, x), narrow_spec(t, dim, s + x, y), dim) == narrow_spec(
            t,
            dim,
            s,
            x + y,
        ),
{
    let n = t.shape[dim] as int;
    let a = narrow_spec(t, dim, s, x);
    let b = narrow_spec(t, dim, s + x, y);
    let lhs = cat2_spec(a, b, dim);
    let rhs = narrow_spec(t, dim, s, x + y);
    let outer = outer_size(t.shape, dim) as int;
    let inner = inner_size(t.shape, dim) as int;
    lemma_size_update(t.shape, dim, x as usize);
    lemma_size_update(t.shape, dim, y as usize);
    assert(lhs.shape =~= rhs.shape);
    assert(lhs.data.len() == rhs.data.len());
    assert forall|p: int| 0 <= p < lhs.data.len() implies lhs.data[p] == rhs.data[p] by {
        lemma_flat3_of_coords(p, outer, x + y, inner);
        let o = row3(p, x + y, inner);
        let k = mid3(p, x + y, inner);
        let i = col3(p, inner);
        if k < x {
            lemma_flat3_bounds(o, k, i, outer, x, inner);
            lemma_flat3_coords(o, k, i, x, inner);
        } else {
            lemma_flat3_bounds(o, k - x, i, outer, y, inner);
            lemma_flat3_coords(o, k - x, i, y, inner);
        }
    }
    assert(lhs.data =~= rhs.data);
}

proof fn lemma_chunk_prefix<T>(t: TensorModel<T>, chunks: int, dim: int, j: int)
    requires
        t.wf(),
        0 <= dim < t.shape.len(),
        0 < chunks,
        1 <= j <= chunks,
    ensures
        cat_spec(chunk_spec(t, chunks, dim).take(j), dim) == narrow_spec(
            t,
            dim,
            0,
            (j - 1) * (t.shape[dim] as int / chunks) + chunk_len(t.shape[dim] as int, chunks, j - 1),
        ),
    decreases j,
{
    let n = t.shape[dim] as int;
    let c = n / chunks;
    let pieces = chunk_spec(t, chunks, dim);
    crate::layout::lemma_chunk_bounds(n, chunks, j - 1);
    if j == 1 {
        assert(pieces.take(1).len() == 1);
        assert(pieces.take(1)[0] == chunk_piece(t, chunks, dim, 0));
        assert(0 * c == 0);
    } else {
        lemma_chunk_prefix(t, chunks, dim, j - 1);
        crate::layout::lemma_chunk_bounds(n, chunks, j - 2);
        assert(pieces.take(j).drop_last() =~= pieces.take(j - 1));
        assert(pieces.take(j).last() == chunk_piece(t, chunks, dim, j - 1));
        assert((j - 2) * c + c == (j - 1) * c) by (nonlinear_arith);
        cat_adjacent_narrows(t, dim, 0, (j - 1) * c, chunk_len(n, chunks, j - 1));
    }
}

proof fn lemma_chunk_totals<T>(t: TensorModel<T>, chunks: int, dim: int, j: int)
    requires
        t.wf(),
        0 <= dim < t.shape.len(),
        0 < chunks,
        0 <= j < chunks,
    ensures
        total_dim(chunk_spec(t, chunks, dim).take(j), dim) == j * (t.shape[dim] as int / chunks),
        total_len(chunk_spec(t, chunks, dim).take(j)) == outer_size(t.shape, dim) * (j * (
        t.shape[dim] as int / chunks)) * inner_size(t.shape, dim),
    decreases j,
{
    let n = t.shape[dim] as int;
    let c = n / chunks;
    let outer = outer_size(t.shape, dim) as int;
    let inner = inner_size(t.shape, dim) as int;
    let pieces = chunk_spec(t, chunks, dim);
    if j == 0 {
        assert(pieces.take(0) =~= Seq::<TensorModel<T>>::empty());
        assert(outer * (0 * c) * inner == 0) by (nonlinear_arith);
    } else {
        lemma_chunk_totals(t, chunks, dim, j - 1);
        crate::layout::lemma_chunk_bounds(n, chunks, j - 1);
        assert(pieces.take(j).drop_last() =~= pieces.take(j - 1));
        assert(pieces.take(j).last() == chunk_piece(t, chunks, dim, j - 1));
        lemma_size_update(t.shape, dim, c as usize);
        assert((j - 1) * c + c == j * c) by (nonlinear_arith);
        assert(outer * ((j - 1) * c) * inner + outer * c * inner == outer * (j * c) * inner)
            by (nonlinear_arith)
            requires
                (j - 1) * c + c == j * c,
        ;
    }
}

/// The pieces of a cut have the shape of the first everywhere but along the
/// cut dimension, and hold as many elements and as much of that dimension as
/// the tensor: joining them is always accepted.
pub proof fn chunk_pieces_join<T>(t: TensorModel<T>, chunks: int, dim: int)
    requires
        t.wf(),
        0 <= dim < t.shape.len(),
        0 < chunks,
    ensures
        cat_compatible(chunk_spec(t, chunks, dim), dim),
        total_len(chunk_spec(t, chunks, dim)) == t.data.len(),
        total_dim(chunk_spec(t, chunks, dim), dim) == t.shape[dim],
        forall|j: int| 0 <= j < chunks ==> (#[trigger] chunk_spec(t, chunks, dim)[j]).wf(),
{
    let n = t.shape[dim] as int;
    let c = n / chunks;
    let outer = outer_size(t.shape, dim) as int;
    let inner = inner_size(t.shape, dim) as int;
    let pieces = chunk_spec(t, chunks, dim);
    assert forall|j: int| 0 <= j < chunks implies (#[trigger] pieces[j]).wf() && agree_except(
        pieces[j].shape,
        pieces[0].shape,
        dim,
    ) by {
        crate::layout::lemma_chunk_bounds(n, chunks, j);
        let len = chunk_len(n, chunks, j);
        lemma_size_update(t.shape, dim, len as usize);
    }
    lemma_chunk_totals(t, chunks, dim, chunks - 1);
    crate::layout::lemma_chunk_bounds(n, chunks, chunks - 1);
    let last_len = chunk_len(n, chunks, chunks - 1);
    lemma_size_update(t.shape, dim, last_len as usize);
    assert(pieces.take(chunks).drop_last() =~= pieces.take(chunks - 1));
    assert(pieces.take(chunks) =~= pieces);
    lemma_size_split(t.shape, dim);
    assert(outer * ((chunks - 1) * c) * inner + outer * last_len * inner == outer * n * inner)
        by (nonlinear_arith)
        requires
            (chunks - 1) * c + last_len == n,
    ;
}

/// Cutting a tensor into pieces along a dimension and joining the pieces
/// again gives the tensor back.
pub proof fn chunk_then_cat<T>(t: TensorModel<T>, chunks: int, dim: int)
    requires
        t.wf(),
        0 <= dim < t.shape.len(),
        0 < chunks,
    ensures
        cat_spec(chunk_spec(t, chunks, dim), dim) == t,
{
    let n = t.shape[dim] as int;
    lemma_chunk_prefix(t, chunks, dim, chunks);
    crate::layout::lemma_chunk_bounds(n, chunks, chunks - 1);
    assert(chunk_spec(t, chunks, dim).take(chunks) =~= chunk_spec(t, chunks, dim));
    narrow_whole(t, dim);
}

/// The values and indices returned together are the largest elements and the
/// `argmax` computed on their own; likewise for the smallest.
pub proof fn with_indices_agree(t: TensorModel<i64>, dim: int)
    ensures
        gather_spec(t, dim, argmax_spec(t, dim)) == max_dim_spec(t, dim),
        gather_spec(t, dim, argmin_spec(t, dim)) == min_dim_spec(t, dim),
{
}

/// Each value `max_dim` keeps is the largest of its column along `dim`, and
/// the index kept beside it is the first position of that value; likewise,
/// with the inequalities turned round, for `min_dim`.
pub proof fn max_dim_is_first_largest(t: TensorModel<i64>, dim: int, p: int)
    requires
        t.wf(),
        0 <= dim < t.shape.len(),
        0 < t.shape[dim] <= i64::MAX,
        0 <= p < argmax_spec(t, dim).data.len(),
    ensures
        ({
            let n = t.shape[dim] as int;
            let inner = inner_size(t.shape, dim) as int;
            let o = row3(p, 1, inner);
            let i = col3(p, inner);
            let k = argmax_spec(t, dim).data[p] as int;
            let v = max_dim_spec(t, dim).data[p];
            let k_min = argmin_spec(t, dim).data[p] as int;
            let w = min_dim_spec(t, dim).data[p];
            &&& 0 <= k < n
            &&& v == t.data[flat3(o, k, i, n, inner)]
            &&& forall|j: int| 0 <= j < n ==> #[trigger] t.data[flat3(o, j, i, n, inner)] <= v
            &&& forall|j: int| 0 <= j < k ==> #[trigger] t.data[flat3(o, j, i, n, inner)] < v
            &&& 0 <= k_min < n
            &&& w == t.data[flat3(o, k_min, i, n, inner)]
            &&& forall|j: int| 0 <= j < n ==> #[trigger] t.data[flat3(o, j, i, n, inner)] >= w
            &&& forall|j: int| 0 <= j < k_min ==> #[trigger] t.data[flat3(o, j, i, n, inner)] > w
        }),
{
    let n = t.shape[dim] as int;
    let inner = inner_size(t.shape, dim) as int;
    let o = row3(p, 1, inner);
    let i = col3(p, inner);
    lemma_best_index_bounds(t.data, o, i, n, inner, n, true);
    lemma_best_index_first(t.data, o, i, n, inner, n, true);
    lemma_best_index_bounds(t.data, o, i, n, inner, n, false);
    lemma_best_index_first(t.data, o, i, n, inner, n, false);
}

/// `t` narrowed along dimensions `d..ranges.len()` to their ranges, from the
/// first to the last.
pub open spec fn slice_from<T>(t: TensorModel<T>, ranges: Seq<Range<usize>>, d: int) -> TensorModel<T>
    decreases ranges.len() - d,
{
    if d >= ranges.len() || d < 0 {
        t
    } else {
        slice_from(
            narrow_spec(t, d, ranges[d].start as int, ranges[d].end - ranges[d].start),
            ranges,
            d + 1,
        )
    }
}

proof fn lemma_narrow_wf<T>(t: TensorModel<T>, dim: int, start: int, len: int)
    requires
        t.wf(),
        0 <= dim < t.shape.len(),
        0 <= start,
        0 <= len,
        start + len <= t.shape[dim],
    ensures
        narrow_spec(t, dim, start, len).wf(),
        narrow_spec(t, dim, start, len).shape == t.shape.update(dim, len as usize),
{
    lemma_size_update(t.shape, dim, len as usize);
}

proof fn lemma_cat2_wf<T>(a: TensorModel<T>, b: TensorModel<T>, dim: int)
    requires
        a.wf(),
        b.wf(),
        0 <= dim < a.shape.len(),
        agree_except(a.shape, b.shape, dim),
        a.shape[dim] + b.shape[dim] <= usize::MAX,
    ensures
        cat2_spec(a, b, dim).wf(),
        cat2_spec(a, b, dim).shape == a.shape.update(dim, (a.shape[dim] + b.shape[dim]) as usize),
{
    lemma_size_update(a.shape, dim, (a.shape[dim] + b.shape[dim]) as usize);
}

/// Replacing a region keeps the shape of the tensor.
proof fn lemma_assign_shape<T>(t: TensorModel<T>, ranges: Seq<Range<usize>>, v: TensorModel<T>, d: int)
    requires
        t.wf(),
        v.wf(),
        ranges.len() <= t.shape.len(),
        0 <= d <= ranges.len(),
        ranges_valid_from(t.shape, ranges, d),
        v.shape == region_shape(t.shape, ranges, d),
    ensures
        slice_assign_from(t, ranges, v, d).wf(),
        slice_assign_from(t, ranges, v, d).shape == t.shape,
    decreases ranges.len() - d,
{
    if d == ranges.len() {
        assert(v.shape =~= t.shape);
    } else {
        let n = t.shape[d] as int;
        let s = ranges[d].start as int;
        let e = ranges[d].end as int;
        assert(0 <= s <= e <= n);
        let before = narrow_spec(t, d, 0, s);
        let mid = narrow_spec(t, d, s, e - s);
        let after = narrow_spec(t, d, e, n - e);
        lemma_narrow_wf(t, d, 0, s);
        lemma_narrow_wf(t, d, s, e - s);
        lemma_narrow_wf(t, d, e, n - e);
        assert(region_shape(mid.shape, ranges, d + 1) =~= region_shape(t.shape, ranges, d));
        assert forall|x: int| d + 1 <= x < ranges.len() implies 0 <= (#[trigger] ranges[x]).start
            <= ranges[x].end <= mid.shape[x] by {
            assert(ranges[x].start <= ranges[x].end <= t.shape[x]);
        }
        lemma_assign_shape(mid, ranges, v, d + 1);
        let mid2 = slice_assign_from(mid, ranges, v, d + 1);
        lemma_cat2_wf(before, mid2, d);
        let left = cat2_spec(before, mid2, d);
        assert(left.shape =~= t.shape.update(d, e as usize));
        lemma_cat2_wf(left, after, d);
        assert(cat2_spec(left, after, d).shape =~= t.shape);
    }
}

/// Narrowing the joined tensor `a`, `m`, `b` to the span of `m` gives `m`.
proof fn lemma_narrow_middle<T>(a: TensorModel<T>, m: TensorModel<T>, b: TensorModel<T>, dim: int)
    requires
        a.wf(),
        m.wf(),
        b.wf(),
        0 <= dim < a.shape.len(),
        agree_except(a.shape, m.shape, dim),
        agree_except(a.shape, b.shape, dim),
        a.shape[dim] + m.shape[dim] + b.shape[dim] <= usize::MAX,
    ensures
        narrow_spec(cat2_spec(cat2_spec(a, m, dim), b, dim), dim, a.shape[dim] as int, m.shape[dim] as int)
            == m,
{
    let na = a.shape[dim] as int;
    let nm = m.shape[dim] as int;
    let nb = b.shape[dim] as int;
    let outer = outer_size(a.shape, dim) as int;
    let inner = inner_size(a.shape, dim) as int;
    crate::layout::lemma_agree_sizes(a.shape, m.shape, dim);
    lemma_cat2_wf(a, m, dim);
    let l = cat2_spec(a, m, dim);
    assert(agree_except(l.shape, b.shape, dim));
    lemma_cat2_wf(l, b, dim);
    let c = cat2_spec(l, b, dim);
    lemma_size_update(a.shape, dim, (na + nm) as usize);
    lemma_size_update(l.shape, dim, (na + nm + nb) as usize);
    lemma_size_split(m.shape, dim);
    let x = narrow_spec(c, dim, na, nm);
    assert(x.shape =~= m.shape);
    assert(x.data.len() == m.data.len());
    assert forall|p: int| 0 <= p < x.data.len() implies x.data[p] == m.data[p] by {
        lemma_flat3_of_coords(p, outer, nm, inner);
        let o = row3(p, nm, inner);
        let k = mid3(p, nm, inner);
        let i = col3(p, inner);
        lemma_flat3_bounds(o, k + na, i, outer, na + nm + nb, inner);
        lemma_flat3_coords(o, k + na, i, na + nm + nb, inner);
        lemma_flat3_bounds(o, k + na, i, outer, na + nm, inner);
        lemma_flat3_coords(o, k + na, i, na + nm, inner);
    }
    assert(x.data =~= m.data);
}

proof fn lemma_slice_assign_from<T>(t: TensorModel<T>, ranges: Seq<Range<usize>>, v: TensorModel<T>, d: int)
    requires
        t.wf(),
        v.wf(),
        ranges.len() <= t.shape.len(),
        0 <= d <= ranges.len(),
        ranges_valid_from(t.shape, ranges, d),
        v.shape == region_shape(t.shape, ranges, d),
    ensures
        slice_from(slice_assign_from(t, ranges, v, d), ranges, d) == v,
    decreases ranges.len() - d,
{
    if d < ranges.len() {
        let n = t.shape[d] as int;
        let s = ranges[d].start as int;
        let e = ranges[d].end as int;
        assert(0 <= s <= e <= n);
        let before = narrow_spec(t, d, 0, s);
        let mid = narrow_spec(t, d, s, e - s);
        let after = narrow_spec(t, d, e, n - e);
        lemma_narrow_wf(t, d, 0, s);
        lemma_narrow_wf(t, d, s, e - s);
        lemma_narrow_wf(t, d, e, n - e);
        assert(region_shape(mid.shape, ranges, d + 1) =~= region_shape(t.shape, ranges, d));
        assert forall|x: int| d + 1 <= x < ranges.len() implies 0 <= (#[trigger] ranges[x]).start
            <= ranges[x].end <= mid.shape[x] by {
            assert(ranges[x].start <= ranges[x].end <= t.shape[x]);
        }
        lemma_assign_shape(mid, ranges, v, d + 1);
        let mid2 = slice_assign_from(mid, ranges, v, d + 1);
        lemma_narrow_middle(before, mid2, after, d);
        lemma_slice_assign_from(mid, ranges, v, d + 1);
    }
}

proof fn lemma_slice_from<T>(t: TensorModel<T>, ranges: Seq<Range<usize>>, d: int)
    requires
        0 <= d <= ranges.len(),
    ensures
        slice_from(slice_spec(t, ranges.take(d)), ranges, d) == slice_spec(t, ranges),
    decreases ranges.len() - d,
{
    if d < ranges.len() {
        assert(ranges.take(d + 1).drop_last() =~= ranges.take(d));
        assert(ranges.take(d + 1)[d] == ranges[d]);
        lemma_slice_from(t, ranges, d + 1);
    } else {
        assert(ranges.take(d) =~= ranges);
    }
}

/// Slicing the region that was just replaced gives the replacement back.
pub proof fn slice_of_slice_assign<T>(t: TensorModel<T>, ranges: Seq<Range<usize>>, value: TensorModel<T>)
    requires
        t.wf(),
        value.wf(),
        ranges.len() <= t.shape.len(),
        ranges_valid(t.shape, ranges),
        value.shape == region_shape(t.shape, ranges, 0),
    ensures
        slice_spec(slice_assign_from(t, ranges, value, 0), ranges) == value,
{
    lemma_slice_assign_from(t, ranges, value, 0);
    assert(ranges.take(0) =~= Seq::<Range<usize>>::empty());
    lemma_slice_from(slice_assign_from(t, ranges, value, 0), ranges, 0);
}

} // verus!
