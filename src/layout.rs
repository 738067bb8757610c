use vstd::prelude::*;
use std::ops::Range;
use crate::shape::col3;
use crate::shape::flat3;
use crate::shape::inner_size;
use crate::shape::lemma_flat3_bounds;
use crate::shape::lemma_flat3_of_coords;
use crate::shape::lemma_size_single;
use crate::shape::lemma_size_concat;
use crate::shape::lemma_size_split;
use crate::shape::shape_size;
use crate::shape::lemma_size_update;
use crate::shape::mid3;
use crate::shape::outer_size;
use crate::shape::row3;
use crate::shape::split_at_dim;
use crate::tensor::Tensor;
use crate::tensor::TensorError;
use crate::tensor::TensorModel;

verus! {

/// The sub-tensor `[start, start + len)` along `dim`, everything elsewhere.
pub open spec fn narrow_spec<T>(t: TensorModel<T>, dim: int, start: int, len: int) -> TensorModel<T> {
    let n = t.shape[dim] as int;
    let outer = outer_size(t.shape, dim) as int;
    let inner = inner_size(t.shape, dim) as int;
    TensorModel {
        shape: t.shape.update(dim, len as usize),
        data: Seq::new(
            (outer * len * inner) as nat,
            |p: int|
                t.data[flat3(row3(p, len, inner), mid3(p, len, inner) + start, col3(p, inner), n, inner)],
        ),
    }
}

/// Size along the split dimension of piece `j` when `n` is cut into `chunks`
/// pieces: all but the last get `n / chunks`, the last takes what is left.
pub open spec fn chunk_len(n: int, chunks: int, j: int) -> int {
    if j + 1 < chunks {
        n / chunks
    } else {
        n - (chunks - 1) * (n / chunks)
    }
}

/// Piece `j` of `t` cut into `chunks` pieces along `dim`.
pub open spec fn chunk_piece<T>(t: TensorModel<T>, chunks: int, dim: int, j: int) -> TensorModel<T> {
    narrow_spec(t, dim, j * ((t.shape[dim] as int) / chunks), chunk_len(t.shape[dim] as int, chunks, j))
}

/// The pieces of `t` cut into `chunks` pieces along `dim`, in order.
pub open spec fn chunk_spec<T>(t: TensorModel<T>, chunks: int, dim: int) -> Seq<TensorModel<T>> {
    Seq::new(chunks as nat, |j: int| chunk_piece(t, chunks, dim, j))
}

/// `a` followed by `b` along `dim`.
pub open spec fn cat2_spec<T>(a: TensorModel<T>, b: TensorModel<T>, dim: int) -> TensorModel<T> {
    let na = a.shape[dim] as int;
    let nb = b.shape[dim] as int;
    let m = na + nb;
    let outer = outer_size(a.shape, dim) as int;
    let inner = inner_size(a.shape, dim) as int;
    TensorModel {
        shape: a.shape.update(dim, m as usize),
        data: Seq::new(
            (outer * m * inner) as nat,
            |p: int|
                if mid3(p, m, inner) < na {
                    a.data[flat3(row3(p, m, inner), mid3(p, m, inner), col3(p, inner), na, inner)]
                } else {
                    b.data[flat3(row3(p, m, inner), mid3(p, m, inner) - na, col3(p, inner), nb, inner)]
                },
        ),
    }
}

/// The tensors of `ts` one after the other along `dim`.
pub open spec fn cat_spec<T>(ts: Seq<TensorModel<T>>, dim: int) -> TensorModel<T>
    decreases ts.len(),
{
    if ts.len() <= 1 {
        ts[0]
    } else {
        cat2_spec(cat_spec(ts.drop_last(), dim), ts.last(), dim)
    }
}

/// Shapes `a` and `b` have the same rank and agree everywhere but at `dim`.
pub open spec fn agree_except(a: Seq<usize>, b: Seq<usize>, dim: int) -> bool {
    &&& a.len() == b.len()
    &&& forall|x: int| 0 <= x < a.len() && x != dim ==> a[x] == b[x]
}

/// Every tensor of `ts` has the shape of the first but at `dim`.
pub open spec fn cat_compatible<T>(ts: Seq<TensorModel<T>>, dim: int) -> bool {
    forall|j: int| 0 <= j < ts.len() ==> agree_except(#[trigger] ts[j].shape, ts[0].shape, dim)
}

/// Sum of the element counts of `ts`.
pub open spec fn total_len<T>(ts: Seq<TensorModel<T>>) -> nat
    decreases ts.len(),
{
    if ts.len() == 0 {
        0
    } else {
        total_len(ts.drop_last()) + ts.last().data.len()
    }
}

/// Sum of the sizes along `dim` of `ts`.
pub open spec fn total_dim<T>(ts: Seq<TensorModel<T>>, dim: int) -> nat
    decreases ts.len(),
{
    if ts.len() == 0 {
        0
    } else {
        total_dim(ts.drop_last(), dim) + (ts.last().shape[dim] as nat)
    }
}

/// `t` copied `times` times along `dim`, where `t` has size one there.
pub open spec fn repeat_spec<T>(t: TensorModel<T>, dim: int, times: int) -> TensorModel<T> {
    let outer = outer_size(t.shape, dim) as int;
    let inner = inner_size(t.shape, dim) as int;
    TensorModel {
        shape: t.shape.update(dim, times as usize),
        data: Seq::new(
            (outer * times * inner) as nat,
            |p: int| t.data[flat3(row3(p, times, inner), 0, col3(p, inner), 1, inner)],
        ),
    }
}

proof fn lemma_empty_product(outer: int, n: int, inner: int, m: int)
    requires
        0 <= outer,
        0 <= n,
        0 <= inner,
        0 <= m,
        outer * n * inner == 0,
        n == 0 ==> m == 0,
    ensures
        outer * m * inner == 0,
{
    assert(outer * n * inner == 0 && (n == 0 ==> m == 0) ==> outer * m * inner == 0)
        by (nonlinear_arith)
        requires
            0 <= outer,
            0 <= n,
            0 <= inner,
            0 <= m,
    ;
}

proof fn lemma_product_le(outer: int, m: int, n: int, inner: int)
    requires
        0 <= outer,
        0 <= inner,
        0 <= m <= n,
    ensures
        outer * m * inner <= outer * n * inner,
        inner > 0 ==> outer * m <= outer * m * inner,
{
    assert(inner > 0 ==> outer * m <= outer * m * inner) by (nonlinear_arith)
        requires
            0 <= outer,
            0 <= inner,
            0 <= m,
    ;
    assert(outer * m * inner <= outer * n * inner) by (nonlinear_arith)
        requires
            0 <= outer,
            0 <= inner,
            0 <= m <= n,
    ;
}

/// The contiguous sub-tensor `[start, start + length)` along `dim`.
pub fn narrow<T: Copy>(t: &Tensor<T>, dim: usize, start: usize, length: usize) -> (r: Result<
    Tensor<T>,
    TensorError,
>)
    requires
        t.wf(),
    ensures
        match r {
            Ok(u) => u@ == narrow_spec(t@, dim as int, start as int, length as int) && u.wf(),
            Err(e) => e == (if dim >= t.shape@.len() {
                TensorError::RankViolation
            } else {
                TensorError::IndexOutOfRange
            }),
        },
        r is Ok <==> dim < t.shape@.len() && start + length <= t.shape@[dim as int],
{
    if dim >= t.shape.len() {
        return Err(TensorError::RankViolation);
    }
    let n = t.shape[dim];
    if start > n || length > n - start {
        return Err(TensorError::IndexOutOfRange);
    }
    let ghost spec_r = narrow_spec(t@, dim as int, start as int, length as int);
    let mut shape = crate::tensor::copy_vec(&t.shape);
    shape.set(dim, length);
    proof {
        lemma_size_split(t.shape@, dim as int);
        lemma_size_update(t.shape@, dim as int, length);
    }
    let total = t.data.len();
    if total == 0 {
        proof {
            lemma_empty_product(
                outer_size(t.shape@, dim as int) as int,
                n as int,
                inner_size(t.shape@, dim as int) as int,
                length as int,
            );
            assert(spec_r.data =~= Seq::<T>::empty());
        }
        return Ok(Tensor { shape, data: Vec::new() });
    }
    let (outer, inner) = split_at_dim(&t.shape, dim, total);
    proof {
        lemma_product_le(outer as int, length as int, n as int, inner as int);
    }
    let out_len = outer * length * inner;
    let mut data: Vec<T> = Vec::new();
    let mut p: usize = 0;
    while p < out_len
        invariant
            t.wf(),
            dim < t.shape@.len(),
            n == t.shape@[dim as int],
            start + length <= n,
            outer == outer_size(t.shape@, dim as int),
            inner == inner_size(t.shape@, dim as int),
            inner > 0,
            t.data@.len() == outer * n * inner,
            total == outer * n * inner,
            out_len == outer * length * inner,
            spec_r == narrow_spec(t@, dim as int, start as int, length as int),
            0 <= p <= out_len,
            data@ == spec_r.data.take(p as int),
        decreases out_len - p,
    {
        proof {
            lemma_flat3_of_coords(p as int, outer as int, length as int, inner as int);
        }
        let q = p / inner;
        let o = q / length;
        let k = q % length;
        let i = p % inner;
        proof {
            lemma_flat3_bounds(o as int, (k + start) as int, i as int, outer as int, n as int, inner as int);
        }
        let src = (o * n + (k + start)) * inner + i;
        data.push(t.data[src]);
        p = p + 1;
        assert(data@ =~= spec_r.data.take(p as int));
    }
    assert(spec_r.data.take(out_len as int) =~= spec_r.data);
    Ok(Tensor { shape, data })
}

pub proof fn lemma_agree_sizes(a: Seq<usize>, b: Seq<usize>, dim: int)
    requires
        0 <= dim < a.len(),
        agree_except(a, b, dim),
    ensures
        outer_size(a, dim) == outer_size(b, dim),
        inner_size(a, dim) == inner_size(b, dim),
{
    assert(a.take(dim) =~= b.take(dim));
    assert(a.skip(dim + 1) =~= b.skip(dim + 1));
}

proof fn lemma_sum_product(outer: int, na: int, nb: int, inner: int)
    ensures
        outer * (na + nb) * inner == outer * na * inner + outer * nb * inner,
{
    assert(outer * (na + nb) * inner == outer * na * inner + outer * nb * inner)
        by (nonlinear_arith);
}

/// `a` followed by `b` along `dim`, for shapes that agree elsewhere.
fn cat2<T: Copy>(a: &Tensor<T>, b: &Tensor<T>, dim: usize) -> (r: Tensor<T>)
    requires
        a.wf(),
        b.wf(),
        dim < a.shape@.len(),
        agree_except(a.shape@, b.shape@, dim as int),
        a.data@.len() + b.data@.len() <= usize::MAX,
        a.shape@[dim as int] + b.shape@[dim as int] <= usize::MAX,
    ensures
        r@ == cat2_spec(a@, b@, dim as int),
        r.wf(),
        r.data@.len() == a.data@.len() + b.data@.len(),
{
    let ghost spec_r = cat2_spec(a@, b@, dim as int);
    let na = a.shape[dim];
    let nb = b.shape[dim];
    let m = na + nb;
    let mut shape = crate::tensor::copy_vec(&a.shape);
    shape.set(dim, m);
    proof {
        lemma_agree_sizes(a.shape@, b.shape@, dim as int);
        lemma_size_split(a.shape@, dim as int);
        lemma_size_split(b.shape@, dim as int);
        lemma_size_update(a.shape@, dim as int, m);
        lemma_sum_product(
            outer_size(a.shape@, dim as int) as int,
            na as int,
            nb as int,
            inner_size(a.shape@, dim as int) as int,
        );
    }
    let out_len = a.data.len() + b.data.len();
    if out_len == 0 {
        proof {
            assert(spec_r.data =~= Seq::<T>::empty());
        }
        return Tensor { shape, data: Vec::new() };
    }
    let (outer, inner) = if a.data.len() > 0 {
        split_at_dim(&a.shape, dim, a.data.len())
    } else {
        split_at_dim(&b.shape, dim, b.data.len())
    };
    let alen = a.data.len();
    let blen = b.data.len();
    let mut data: Vec<T> = Vec::new();
    let mut p: usize = 0;
    while p < out_len
        invariant
            a.wf(),
            b.wf(),
            na == a.shape@[dim as int],
            nb == b.shape@[dim as int],
            m == na + nb,
            inner > 0,
            alen == a.data@.len(),
            blen == b.data@.len(),
            alen == outer * na * inner,
            blen == outer * nb * inner,
            out_len == outer * m * inner,
            outer == outer_size(a.shape@, dim as int),
            inner == inner_size(a.shape@, dim as int),
            spec_r == cat2_spec(a@, b@, dim as int),
            0 <= p <= out_len,
            data@ == spec_r.data.take(p as int),
        decreases out_len - p,
    {
        proof {
            lemma_flat3_of_coords(p as int, outer as int, m as int, inner as int);
        }
        let q = p / inner;
        let o = q / m;
        let k = q % m;
        let i = p % inner;
        if k < na {
            proof {
                lemma_flat3_bounds(o as int, k as int, i as int, outer as int, na as int, inner as int);
            }
            let src = (o * na + k) * inner + i;
            data.push(a.data[src]);
        } else {
            proof {
                lemma_flat3_bounds(o as int, (k - na) as int, i as int, outer as int, nb as int, inner as int);
            }
            let src = (o * nb + (k - na)) * inner + i;
            data.push(b.data[src]);
        }
        p = p + 1;
        assert(data@ =~= spec_r.data.take(p as int));
    }
    assert(spec_r.data.take(out_len as int) =~= spec_r.data);
    Tensor { shape, data }
}

proof fn lemma_cat_prefix<T>(ts: Seq<TensorModel<T>>, dim: int, j: int)
    requires
        1 <= j <= ts.len(),
        cat_compatible(ts, dim),
        0 <= dim < ts[0].shape.len(),
        forall|x: int| 0 <= x < ts.len() ==> (#[trigger] ts[x]).wf(),
        total_dim(ts.take(j), dim) <= usize::MAX,
    ensures
        agree_except(cat_spec(ts.take(j), dim).shape, ts[0].shape, dim),
        cat_spec(ts.take(j), dim).wf(),
        cat_spec(ts.take(j), dim).shape[dim] == total_dim(ts.take(j), dim),
        cat_spec(ts.take(j), dim).data.len() == total_len(ts.take(j)),
    decreases j,
{
    let pre = ts.take(j);
    if j == 1 {
        assert(ts[0] == pre[0]);
        assert(total_dim(pre, dim) == total_dim(pre.drop_last(), dim) + (ts[0].shape[dim] as nat));
        assert(total_len(pre) == total_len(pre.drop_last()) + ts[0].data.len());
        assert(pre.drop_last() =~= Seq::<TensorModel<T>>::empty());
        assert(ts[0].shape.update(dim, ts[0].shape[dim]) =~= ts[0].shape);
        assert(agree_except(ts[0].shape, ts[0].shape, dim));
    } else {
        assert(pre.drop_last() =~= ts.take(j - 1));
        assert(total_dim(pre, dim) == total_dim(ts.take(j - 1), dim) + (ts[j - 1].shape[dim] as nat));
        lemma_cat_prefix(ts, dim, j - 1);
        let a = cat_spec(ts.take(j - 1), dim);
        let b = ts[j - 1];
        assert(pre.last() == b);
        assert(agree_except(b.shape, ts[0].shape, dim));
        lemma_agree_sizes(a.shape, b.shape, dim);
        lemma_size_split(a.shape, dim);
        lemma_size_split(b.shape, dim);
        let m = (a.shape[dim] + b.shape[dim]) as usize;
        lemma_size_update(a.shape, dim, m);
        lemma_sum_product(
            outer_size(a.shape, dim) as int,
            a.shape[dim] as int,
            b.shape[dim] as int,
            inner_size(a.shape, dim) as int,
        );
    }
}

/// The tensors one after the other along `dim`. All of them must have the
/// shape of the first everywhere but at `dim`.
pub fn cat<T: Copy>(tensors: &Vec<Tensor<T>>, dim: usize) -> (r: Result<Tensor<T>, TensorError>)
    requires
        forall|x: int| 0 <= x < tensors@.len() ==> (#[trigger] tensors@[x]).wf(),
        total_len(tensors@.map_values(|t: Tensor<T>| t@)) <= usize::MAX,
        total_dim(tensors@.map_values(|t: Tensor<T>| t@), dim as int) <= usize::MAX,
    ensures
        ({
            let ts = tensors@.map_values(|t: Tensor<T>| t@);
            &&& r is Ok <==> ts.len() > 0 && dim < ts[0].shape.len() && cat_compatible(ts, dim as int)
            &&& match r {
                Ok(u) => u@ == cat_spec(ts, dim as int) && u.wf(),
                Err(e) => e == (if ts.len() == 0 {
                    TensorError::InvalidArgument
                } else if dim >= ts[0].shape.len() {
                    TensorError::RankViolation
                } else {
                    TensorError::ShapeMismatch
                }),
            }
        }),
{
    let ghost ts = tensors@.map_values(|t: Tensor<T>| t@);
    if tensors.len() == 0 {
        return Err(TensorError::InvalidArgument);
    }
    if dim >= tensors[0].shape.len() {
        return Err(TensorError::RankViolation);
    }
    let mut j: usize = 0;
    while j < tensors.len()
        invariant
            0 <= j <= tensors.len(),
            ts == tensors@.map_values(|t: Tensor<T>| t@),
            dim < ts[0].shape.len(),
            forall|x: int| 0 <= x < j ==> agree_except(#[trigger] ts[x].shape, ts[0].shape, dim as int),
        decreases tensors.len() - j,
    {
        if !agrees_except(&tensors[j].shape, &tensors[0].shape, dim) {
            assert(ts[j as int] == tensors@[j as int]@);
            assert(!agree_except(ts[j as int].shape, ts[0].shape, dim as int));
            return Err(TensorError::ShapeMismatch);
        }
        j = j + 1;
    }
    assert(cat_compatible(ts, dim as int));
    proof {
        assert forall|x: int| 0 <= x < ts.len() implies (#[trigger] ts[x]).wf() by {
            assert(tensors@[x].wf());
        }
    }
    let mut acc = tensors[0].duplicate();
    let mut j: usize = 1;
    proof {
        lemma_total_prefix(ts, dim as int, 1);
        lemma_cat_prefix(ts, dim as int, 1);
        assert(ts.take(1).len() == 1);
    }
    while j < tensors.len()
        invariant
            1 <= j <= tensors.len(),
            ts == tensors@.map_values(|t: Tensor<T>| t@),
            ts.len() == tensors@.len(),
            dim < ts[0].shape.len(),
            cat_compatible(ts, dim as int),
            forall|x: int| 0 <= x < ts.len() ==> (#[trigger] ts[x]).wf(),
            forall|x: int| 0 <= x < tensors@.len() ==> (#[trigger] tensors@[x]).wf(),
            total_len(ts) <= usize::MAX,
            total_dim(ts, dim as int) <= usize::MAX,
            acc@ == cat_spec(ts.take(j as int), dim as int),
            acc.wf(),
        decreases tensors.len() - j,
    {
        proof {
            lemma_total_prefix(ts, dim as int, j as int);
            lemma_total_prefix(ts, dim as int, (j + 1) as int);
            lemma_cat_prefix(ts, dim as int, j as int);
            lemma_cat_prefix(ts, dim as int, (j + 1) as int);
            assert(ts.take(j + 1).drop_last() =~= ts.take(j as int));
            assert(ts.take(j + 1).last() == ts[j as int]);
            assert(agree_except(ts[j as int].shape, ts[0].shape, dim as int));
        }
        acc = cat2(&acc, &tensors[j], dim);
        j = j + 1;
    }
    assert(ts.take(ts.len() as int) =~= ts);
    Ok(acc)
}

proof fn lemma_total_prefix<T>(ts: Seq<TensorModel<T>>, dim: int, j: int)
    requires
        0 <= j <= ts.len(),
    ensures
        total_len(ts.take(j)) <= total_len(ts),
        total_dim(ts.take(j), dim) <= total_dim(ts, dim),
    decreases ts.len(),
{
    if j < ts.len() {
        assert(ts.drop_last().take(j) =~= ts.take(j));
        lemma_total_prefix(ts.drop_last(), dim, j);
    } else {
        assert(ts.take(j) =~= ts);
    }
}

/// Whether shapes `a` and `b` have the same rank and agree everywhere but at `dim`.
pub(crate) fn agrees_except(a: &Vec<usize>, b: &Vec<usize>, dim: usize) -> (r: bool)
    ensures
        r == agree_except(a@, b@, dim as int),
{
    if a.len() != b.len() {
        return false;
    }
    let mut i: usize = 0;
    while i < a.len()
        invariant
            a.len() == b.len(),
            0 <= i <= a.len(),
            forall|x: int| 0 <= x < i && x != dim ==> a@[x] == b@[x],
        decreases a.len() - i,
    {
        if i != dim && a[i] != b[i] {
            return false;
        }
        i = i + 1;
    }
    true
}

pub proof fn lemma_chunk_bounds(n: int, chunks: int, j: int)
    requires
        0 <= n,
        0 < chunks,
        0 <= j < chunks,
    ensures
        0 <= j * (n / chunks),
        (j + 1) * (n / chunks) <= n,
        (j + 1) * (n / chunks) == j * (n / chunks) + n / chunks,
        j + 1 == chunks ==> j * (n / chunks) + chunk_len(n, chunks, j) == n,
        j + 1 < chunks ==> chunk_len(n, chunks, j) == n / chunks,
{
    let c = n / chunks;
    vstd::arithmetic::div_mod::lemma_fundamental_div_mod(n, chunks);
    assert(0 <= c);
    assert(0 <= j * c && (j + 1) * c == j * c + c) by (nonlinear_arith)
        requires
            0 <= j,
            0 <= c,
    ;
    assert((j + 1) * c <= n) by (nonlinear_arith)
        requires
            0 <= c,
            j + 1 <= chunks,
            n == chunks * c + n % chunks,
            0 <= n % chunks,
    ;
}

/// `t` cut into `chunks` pieces along `dim`: every piece but the last has
/// size `n / chunks` there (`n` the size of `dim`), the last takes the rest.
pub fn chunk<T: Copy>(t: &Tensor<T>, chunks: usize, dim: usize) -> (r: Result<
    Vec<Tensor<T>>,
    TensorError,
>)
    requires
        t.wf(),
    ensures
        r is Ok <==> dim < t.shape@.len() && chunks > 0,
        match r {
            Ok(v) => {
                &&& v@.len() == chunks
                &&& forall|j: int| 0 <= j < chunks ==> (#[trigger] v@[j])@ == chunk_piece(t@, chunks as int, dim as int, j) && v@[j].wf()
            },
            Err(e) => e == (if dim >= t.shape@.len() {
                TensorError::RankViolation
            } else {
                TensorError::InvalidArgument
            }),
        },
{
    if dim >= t.shape.len() {
        return Err(TensorError::RankViolation);
    }
    if chunks == 0 {
        return Err(TensorError::InvalidArgument);
    }
    let n = t.shape[dim];
    let c = n / chunks;
    let mut pieces: Vec<Tensor<T>> = Vec::new();
    let mut start: usize = 0;
    let mut j: usize = 0;
    while j < chunks
        invariant
            t.wf(),
            dim < t.shape@.len(),
            n == t.shape@[dim as int],
            0 < chunks,
            c == n / chunks,
            0 <= j <= chunks,
            start == j * c,
            j < chunks ==> start <= n,
            pieces@.len() == j,
            forall|x: int| 0 <= x < j ==> (#[trigger] pieces@[x])@ == chunk_piece(t@, chunks as int, dim as int, x) && pieces@[x].wf(),
        decreases chunks - j,
    {
        proof {
            lemma_chunk_bounds(n as int, chunks as int, j as int);
        }
        let len = if j + 1 < chunks {
            c
        } else {
            n - start
        };
        match narrow(t, dim, start, len) {
            Ok(u) => {
                pieces.push(u);
            },
            Err(e) => {
                return Err(e);
            },
        }
        start = start + c;
        j = j + 1;
    }
    Ok(pieces)
}

/// `t` copied `times` times along `dim`, which must have size one.
pub fn repeat<T: Copy>(t: &Tensor<T>, dim: usize, times: usize) -> (r: Result<Tensor<T>, TensorError>)
    requires
        t.wf(),
        t.data@.len() * times <= usize::MAX,
    ensures
        r is Ok <==> dim < t.shape@.len() && t.shape@[dim as int] == 1,
        match r {
            Ok(u) => u@ == repeat_spec(t@, dim as int, times as int) && u.wf(),
            Err(e) => e == (if dim >= t.shape@.len() {
                TensorError::RankViolation
            } else {
                TensorError::InvalidArgument
            }),
        },
{
    if dim >= t.shape.len() {
        return Err(TensorError::RankViolation);
    }
    if t.shape[dim] != 1 {
        return Err(TensorError::InvalidArgument);
    }
    let ghost spec_r = repeat_spec(t@, dim as int, times as int);
    let mut shape = crate::tensor::copy_vec(&t.shape);
    shape.set(dim, times);
    proof {
        lemma_size_split(t.shape@, dim as int);
        lemma_size_update(t.shape@, dim as int, times);
        let outer = outer_size(t.shape@, dim as int) as int;
        let inner = inner_size(t.shape@, dim as int) as int;
        assert(outer * times * inner == (outer * 1 * inner) * times) by (nonlinear_arith);
        assert(outer * 1 * inner == 0 ==> outer * times * inner == 0) by (nonlinear_arith);
        assert(t.data@.len() == outer * 1 * inner);
    }
    let total = t.data.len();
    if total == 0 {
        proof {
            assert(spec_r.data.len() == 0);
            assert(spec_r.data =~= Seq::<T>::empty());
        }
        return Ok(Tensor { shape, data: Vec::new() });
    }
    let (outer, inner) = split_at_dim(&t.shape, dim, total);
    let out_len = total * times;
    let mut data: Vec<T> = Vec::new();
    let mut p: usize = 0;
    while p < out_len
        invariant
            t.wf(),
            dim < t.shape@.len(),
            inner > 0,
            t.data@.len() == outer * 1 * inner,
            total == outer * 1 * inner,
            out_len == outer * times * inner,
            outer == outer_size(t.shape@, dim as int),
            inner == inner_size(t.shape@, dim as int),
            spec_r == repeat_spec(t@, dim as int, times as int),
            0 <= p <= out_len,
            data@ == spec_r.data.take(p as int),
        decreases out_len - p,
    {
        proof {
            lemma_flat3_of_coords(p as int, outer as int, times as int, inner as int);
        }
        let q = p / inner;
        let o = q / times;
        let i = p % inner;
        proof {
            lemma_flat3_bounds(o as int, 0, i as int, outer as int, 1, inner as int);
        }
        let src = o * inner + i;
        data.push(t.data[src]);
        p = p + 1;
        assert(data@ =~= spec_r.data.take(p as int));
    }
    assert(spec_r.data.take(out_len as int) =~= spec_r.data);
    Ok(Tensor { shape, data })
}

/// Number of elements in the dimensions strictly between `d1` and `d2`.
pub open spec fn between_size(s: Seq<usize>, d1: int, d2: int) -> nat {
    shape_size(s.subrange(d1 + 1, d2))
}

/// `t` with dimensions `d1 < d2` exchanged. In the view
/// `[outer, n1, between, n2, inner]` the element at `(a, x, b, y, c)` moves to
/// `(a, y, b, x, c)`.
pub open spec fn swap_ordered<T>(t: TensorModel<T>, d1: int, d2: int) -> TensorModel<T> {
    let s = t.shape;
    let n1 = s[d1] as int;
    let n2 = s[d2] as int;
    let bs = between_size(s, d1, d2) as int;
    let cs = inner_size(s, d2) as int;
    TensorModel {
        shape: s.update(d1, n2 as usize).update(d2, n1 as usize),
        data: Seq::new(
            t.data.len(),
            |p: int|
                {
                    let q = row3(p, n1, cs);
                    let x = mid3(p, n1, cs);
                    let c = col3(p, cs);
                    let a = row3(q, n2, bs);
                    let y = mid3(q, n2, bs);
                    let b = col3(q, bs);
                    t.data[flat3(flat3(a, x, b, n1, bs), y, c, n2, cs)]
                },
        ),
    }
}

/// `t` with dimensions `d1` and `d2` exchanged.
pub open spec fn swap_dims_spec<T>(t: TensorModel<T>, d1: int, d2: int) -> TensorModel<T> {
    if d1 == d2 {
        t
    } else if d1 < d2 {
        swap_ordered(t, d1, d2)
    } else {
        swap_ordered(t, d2, d1)
    }
}

/// `t` with its last two dimensions exchanged.
pub open spec fn transpose_spec<T>(t: TensorModel<T>) -> TensorModel<T> {
    swap_dims_spec(t, t.shape.len() - 2, t.shape.len() - 1)
}

/// The sizes of the view `[outer, n1, between, n2, inner]` of a shape, and of
/// the shape with `d1` and `d2` exchanged.
pub proof fn lemma_size5(s: Seq<usize>, d1: int, d2: int)
    requires
        0 <= d1 < d2 < s.len(),
    ensures
        ({
            let a = outer_size(s, d1) as int;
            let n1 = s[d1] as int;
            let b = between_size(s, d1, d2) as int;
            let n2 = s[d2] as int;
            let c = inner_size(s, d2) as int;
            let u = s.update(d1, s[d2]).update(d2, s[d1]);
            &&& inner_size(s, d1) == b * n2 * c
            &&& outer_size(s, d2) == a * n1 * b
            &&& shape_size(s) == a * n1 * b * n2 * c
            &&& shape_size(s) == (a * n2 * b) * n1 * c
            &&& outer_size(u, d1) == a
            &&& between_size(u, d1, d2) == b
            &&& inner_size(u, d2) == c
            &&& shape_size(u) == shape_size(s)
        }),
{
    let a = outer_size(s, d1) as int;
    let n1 = s[d1] as int;
    let b = between_size(s, d1, d2) as int;
    let n2 = s[d2] as int;
    let c = inner_size(s, d2) as int;
    let mid = s.subrange(d1 + 1, d2);
    assert(s.skip(d1 + 1) =~= mid + seq![s[d2]] + s.skip(d2 + 1));
    lemma_size_concat(mid, seq![s[d2]]);
    lemma_size_concat(mid + seq![s[d2]], s.skip(d2 + 1));
    lemma_size_single(s[d2]);
    assert(s.take(d2) =~= s.take(d1) + seq![s[d1]] + mid);
    lemma_size_concat(s.take(d1), seq![s[d1]]);
    lemma_size_concat(s.take(d1) + seq![s[d1]], mid);
    lemma_size_single(s[d1]);
    lemma_size_split(s, d1);
    assert(a * n1 * (b * n2 * c) == a * n1 * b * n2 * c) by (nonlinear_arith);
    assert(a * n1 * b * n2 * c == (a * n2 * b) * n1 * c) by (nonlinear_arith);
    let u = s.update(d1, s[d2]).update(d2, s[d1]);
    assert(u.take(d1) =~= s.take(d1));
    assert(u.subrange(d1 + 1, d2) =~= mid);
    assert(u.skip(d2 + 1) =~= s.skip(d2 + 1));
    assert(u.skip(d1 + 1) =~= mid + seq![s[d1]] + s.skip(d2 + 1));
    lemma_size_concat(mid, seq![s[d1]]);
    lemma_size_concat(mid + seq![s[d1]], s.skip(d2 + 1));
    lemma_size_split(u, d1);
    assert(a * n2 * (b * n1 * c) == a * n1 * b * n2 * c) by (nonlinear_arith);
}

/// The view coordinates of a flat position of the exchanged tensor, and the
/// position of the element it comes from.
pub proof fn lemma_swap_source(p: int, a_size: int, n1: int, b_size: int, n2: int, c_size: int)
    requires
        0 <= p < (a_size * n2 * b_size) * n1 * c_size,
        0 <= a_size,
        0 <= n1,
        0 <= n2,
        0 <= b_size,
        0 <= c_size,
    ensures
        ({
            let q = row3(p, n1, c_size);
            let x = mid3(p, n1, c_size);
            let c = col3(p, c_size);
            let a = row3(q, n2, b_size);
            let y = mid3(q, n2, b_size);
            let b = col3(q, b_size);
            let inner_pos = flat3(a, x, b, n1, b_size);
            &&& 0 <= a < a_size && 0 <= x < n1 && 0 <= b < b_size && 0 <= y < n2 && 0 <= c < c_size
            &&& p == flat3(flat3(a, y, b, n2, b_size), x, c, n1, c_size)
            &&& 0 <= inner_pos < a_size * n1 * b_size
            &&& 0 <= flat3(inner_pos, y, c, n2, c_size) < (a_size * n1 * b_size) * n2 * c_size
            &&& 0 <= inner_pos * n2 <= inner_pos * n2 + y
            &&& inner_pos * n2 + y < (a_size * n1 * b_size) * n2
            &&& (a_size * n1 * b_size) * n2 <= (a_size * n1 * b_size) * n2 * c_size
            &&& 0 <= a * n1 <= a * n1 + x
            &&& a * n1 + x < a_size * n1
            &&& 0 <= (a * n1 + x) * b_size
            &&& a_size * n1 <= a_size * n1 * b_size
            &&& a_size * n1 * b_size <= (a_size * n1 * b_size) * n2
        }),
{
    let outer = a_size * n2 * b_size;
    lemma_flat3_of_coords(p, outer, n1, c_size);
    let q = row3(p, n1, c_size);
    lemma_flat3_of_coords(q, a_size, n2, b_size);
    let x = mid3(p, n1, c_size);
    let c = col3(p, c_size);
    let a = row3(q, n2, b_size);
    let y = mid3(q, n2, b_size);
    let b = col3(q, b_size);
    lemma_flat3_bounds(a, x, b, a_size, n1, b_size);
    let inner_pos = flat3(a, x, b, n1, b_size);
    lemma_flat3_bounds(inner_pos, y, c, a_size * n1 * b_size, n2, c_size);
    assert(0 <= (a * n1 + x) * b_size) by (nonlinear_arith)
        requires
            0 <= a * n1 + x,
            0 <= b_size,
    ;
    assert(a_size * n1 * b_size <= (a_size * n1 * b_size) * n2) by (nonlinear_arith)
        requires
            0 <= y < n2,
            0 <= a_size * n1 * b_size,
    ;
}

/// `t` with dimensions `dim1` and `dim2` exchanged; both must be below the rank.
pub fn swap_dims<T: Copy>(t: &Tensor<T>, dim1: usize, dim2: usize) -> (r: Result<Tensor<T>, TensorError>)
    requires
        t.wf(),
    ensures
        r is Ok <==> dim1 < t.shape@.len() && dim2 < t.shape@.len(),
        match r {
            Ok(u) => u@ == swap_dims_spec(t@, dim1 as int, dim2 as int) && u.wf(),
            Err(e) => e == TensorError::RankViolation,
        },
{
    if dim1 >= t.shape.len() || dim2 >= t.shape.len() {
        return Err(TensorError::RankViolation);
    }
    if dim1 == dim2 {
        return Ok(t.duplicate());
    }
    let (d1, d2) = if dim1 < dim2 {
        (dim1, dim2)
    } else {
        (dim2, dim1)
    };
    let ghost spec_r = swap_ordered(t@, d1 as int, d2 as int);
    assert(spec_r == swap_dims_spec(t@, dim1 as int, dim2 as int));
    let n1 = t.shape[d1];
    let n2 = t.shape[d2];
    let mut shape = crate::tensor::copy_vec(&t.shape);
    shape.set(d1, n2);
    shape.set(d2, n1);
    proof {
        lemma_size5(t.shape@, d1 as int, d2 as int);
    }
    let total = t.data.len();
    if total == 0 {
        proof {
            assert(spec_r.data =~= Seq::<T>::empty());
        }
        return Ok(Tensor { shape, data: Vec::new() });
    }
    let (a_size, inner1) = split_at_dim(&t.shape, d1, total);
    let (outer2, c_size) = split_at_dim(&t.shape, d2, total);
    proof {
        let b = between_size(t.shape@, d1 as int, d2 as int) as int;
        assert(n2 * c_size > 0 && n2 * c_size <= inner1) by (nonlinear_arith)
            requires
                n2 > 0,
                c_size > 0,
                inner1 > 0,
                inner1 == b * n2 * c_size,
                b >= 0,
        ;
        assert((b * n2 * c_size) / (n2 * c_size) == b) by (nonlinear_arith)
            requires
                n2 * c_size > 0,
        ;
    }
    let b_size = inner1 / (n2 * c_size);
    let mut data: Vec<T> = Vec::new();
    let mut p: usize = 0;
    while p < total
        invariant
            t.wf(),
            d1 < d2 < t.shape@.len(),
            n1 == t.shape@[d1 as int],
            n2 == t.shape@[d2 as int],
            a_size == outer_size(t.shape@, d1 as int),
            b_size == between_size(t.shape@, d1 as int, d2 as int),
            c_size == inner_size(t.shape@, d2 as int),
            total == t.data@.len(),
            total == a_size * n1 * b_size * n2 * c_size,
            total == (a_size * n2 * b_size) * n1 * c_size,
            spec_r == swap_ordered(t@, d1 as int, d2 as int),
            0 <= p <= total,
            data@ == spec_r.data.take(p as int),
        decreases total - p,
    {
        proof {
            lemma_swap_source(p as int, a_size as int, n1 as int, b_size as int, n2 as int, c_size as int);
        }
        let q = p / c_size / n1;
        let x = p / c_size % n1;
        let c = p % c_size;
        let a = q / b_size / n2;
        let y = q / b_size % n2;
        let b = q % b_size;
        let src = (((a * n1 + x) * b_size + b) * n2 + y) * c_size + c;
        data.push(t.data[src]);
        p = p + 1;
        assert(data@ =~= spec_r.data.take(p as int));
    }
    assert(spec_r.data.take(total as int) =~= spec_r.data);
    Ok(Tensor { shape, data })
}

/// `t` with its last two dimensions exchanged; the rank must be at least two.
pub fn transpose<T: Copy>(t: &Tensor<T>) -> (r: Result<Tensor<T>, TensorError>)
    requires
        t.wf(),
    ensures
        r is Ok <==> t.shape@.len() >= 2,
        match r {
            Ok(u) => u@ == transpose_spec(t@) && u.wf(),
            Err(e) => e == TensorError::RankViolation,
        },
{
    let d = t.shape.len();
    if d < 2 {
        return Err(TensorError::RankViolation);
    }
    swap_dims(t, d - 2, d - 1)
}

/// The slices of `t` along `dim` that `indices` names, in the order of `indices`.
pub open spec fn select_spec<T>(t: TensorModel<T>, dim: int, indices: Seq<i64>) -> TensorModel<T> {
    let n = t.shape[dim] as int;
    let m = indices.len() as int;
    let outer = outer_size(t.shape, dim) as int;
    let inner = inner_size(t.shape, dim) as int;
    TensorModel {
        shape: t.shape.update(dim, m as usize),
        data: Seq::new(
            (outer * m * inner) as nat,
            |p: int|
                t.data[flat3(
                    row3(p, m, inner),
                    indices[mid3(p, m, inner)] as int,
                    col3(p, inner),
                    n,
                    inner,
                )],
        ),
    }
}

/// The slices of `t` along `dim` named by the one-dimensional `indices`; the
/// result has size `indices.len()` along `dim`.
pub fn select<T: Copy>(t: &Tensor<T>, dim: usize, indices: &Tensor<i64>) -> (r: Result<
    Tensor<T>,
    TensorError,
>)
    requires
        t.wf(),
        indices.wf(),
        dim < t.shape@.len() ==> shape_size(t.shape@.update(dim as int, indices.data@.len() as usize))
            <= usize::MAX,
    ensures
        r is Ok <==> dim < t.shape@.len() && indices.shape@.len() == 1 && (forall|p: int|
            0 <= p < indices.data@.len() ==> 0 <= #[trigger] indices.data@[p] < t.shape@[dim as int]),
        match r {
            Ok(u) => u@ == select_spec(t@, dim as int, indices.data@) && u.wf(),
            Err(e) => e == (if dim >= t.shape@.len() {
                TensorError::RankViolation
            } else if indices.shape@.len() != 1 {
                TensorError::ShapeMismatch
            } else {
                TensorError::IndexOutOfRange
            }),
        },
{
    if dim >= t.shape.len() {
        return Err(TensorError::RankViolation);
    }
    if indices.shape.len() != 1 {
        return Err(TensorError::ShapeMismatch);
    }
    let n = t.shape[dim];
    if !crate::reduce::indices_in_range(&indices.data, n) {
        return Err(TensorError::IndexOutOfRange);
    }
    let m = indices.data.len();
    let ghost spec_r = select_spec(t@, dim as int, indices.data@);
    let mut shape = crate::tensor::copy_vec(&t.shape);
    shape.set(dim, m);
    proof {
        lemma_size_split(t.shape@, dim as int);
        lemma_size_update(t.shape@, dim as int, m);
        if n == 0 && m > 0 {
            assert(0 <= indices.data@[0] < n);
        }
    }
    let total = t.data.len();
    if total == 0 {
        proof {
            lemma_empty_product(
                outer_size(t.shape@, dim as int) as int,
                n as int,
                inner_size(t.shape@, dim as int) as int,
                m as int,
            );
            assert(spec_r.data =~= Seq::<T>::empty());
        }
        return Ok(Tensor { shape, data: Vec::new() });
    }
    let (outer, inner) = split_at_dim(&t.shape, dim, total);
    proof {
        lemma_product_le(outer as int, m as int, m as int, inner as int);
    }
    let out_len = outer * m * inner;
    let mut data: Vec<T> = Vec::new();
    let mut p: usize = 0;
    while p < out_len
        invariant
            t.wf(),
            dim < t.shape@.len(),
            n == t.shape@[dim as int],
            m == indices.data@.len(),
            forall|x: int| 0 <= x < indices.data@.len() ==> 0 <= #[trigger] indices.data@[x] < n,
            outer == outer_size(t.shape@, dim as int),
            inner == inner_size(t.shape@, dim as int),
            inner > 0,
            t.data@.len() == outer * n * inner,
            total == outer * n * inner,
            out_len == outer * m * inner,
            spec_r == select_spec(t@, dim as int, indices.data@),
            0 <= p <= out_len,
            data@ == spec_r.data.take(p as int),
        decreases out_len - p,
    {
        proof {
            lemma_flat3_of_coords(p as int, outer as int, m as int, inner as int);
        }
        let q = p / inner;
        let o = q / m;
        let k = q % m;
        let i = p % inner;
        let j = indices.data[k] as usize;
        proof {
            lemma_flat3_bounds(o as int, j as int, i as int, outer as int, n as int, inner as int);
        }
        let src = (o * n + j) * inner + i;
        data.push(t.data[src]);
        p = p + 1;
        assert(data@ =~= spec_r.data.take(p as int));
    }
    assert(spec_r.data.take(out_len as int) =~= spec_r.data);
    Ok(Tensor { shape, data })
}

/// `t` narrowed along each of its first `ranges.len()` dimensions to the
/// half-open range given for it; later dimensions are kept whole.
pub open spec fn slice_spec<T>(t: TensorModel<T>, ranges: Seq<Range<usize>>) -> TensorModel<T>
    decreases ranges.len(),
{
    if ranges.len() == 0 {
        t
    } else {
        let d = ranges.len() - 1;
        let r = ranges[d];
        narrow_spec(slice_spec(t, ranges.drop_last()), d, r.start as int, r.end - r.start)
    }
}

/// Every range is ordered and lies within its dimension.
pub open spec fn ranges_valid(shape: Seq<usize>, ranges: Seq<Range<usize>>) -> bool {
    forall|d: int| 0 <= d < ranges.len() ==> 0 <= (#[trigger] ranges[d]).start <= ranges[d].end <= shape[d]
}

/// The sub-tensor selected by one half-open range per leading dimension; the
/// dimensions after the last range are taken whole.
pub fn slice<T: Copy>(t: &Tensor<T>, ranges: &Vec<Range<usize>>) -> (r: Result<Tensor<T>, TensorError>)
    requires
        t.wf(),
    ensures
        r is Ok <==> ranges@.len() <= t.shape@.len() && ranges_valid(t.shape@, ranges@),
        match r {
            Ok(u) => u@ == slice_spec(t@, ranges@) && u.wf(),
            Err(e) => e == (if ranges@.len() > t.shape@.len() {
                TensorError::RankViolation
            } else {
                TensorError::IndexOutOfRange
            }),
        },
{
    if ranges.len() > t.shape.len() {
        return Err(TensorError::RankViolation);
    }
    let mut d: usize = 0;
    while d < ranges.len()
        invariant
            ranges@.len() <= t.shape@.len(),
            0 <= d <= ranges@.len(),
            forall|x: int| 0 <= x < d ==> 0 <= (#[trigger] ranges@[x]).start <= ranges@[x].end <= t.shape@[x],
        decreases ranges.len() - d,
    {
        let st = ranges[d].start;
        let en = ranges[d].end;
        assert(st == ranges@[d as int].start && en == ranges@[d as int].end);
        if st > en || en > t.shape[d] {
            return Err(TensorError::IndexOutOfRange);
        }
        d = d + 1;
    }
    let mut acc = t.duplicate();
    let mut d: usize = 0;
    proof {
        assert(ranges@.take(0) =~= Seq::<Range<usize>>::empty());
    }
    while d < ranges.len()
        invariant
            t.wf(),
            ranges@.len() <= t.shape@.len(),
            ranges_valid(t.shape@, ranges@),
            0 <= d <= ranges@.len(),
            acc.wf(),
            acc@ == slice_spec(t@, ranges@.take(d as int)),
            acc.shape@.len() == t.shape@.len(),
            forall|x: int| d <= x < t.shape@.len() ==> acc.shape@[x] == t.shape@[x],
        decreases ranges.len() - d,
    {
        let start = ranges[d].start;
        let end = ranges[d].end;
        assert(ranges@[d as int].start <= ranges@[d as int].end <= t.shape@[d as int]);
        assert(ranges@.take(d + 1).drop_last() =~= ranges@.take(d as int));
        assert(ranges@.take(d + 1)[d as int] == ranges@[d as int]);
        match narrow(&acc, d, start, end - start) {
            Ok(u) => {
                acc = u;
            },
            Err(e) => {
                return Err(e);
            },
        }
        d = d + 1;
    }
    assert(ranges@.take(ranges@.len() as int) =~= ranges@);
    Ok(acc)
}

/// `shape` with dimensions `d..ranges.len()` cut down to the lengths of their ranges.
pub open spec fn region_shape(shape: Seq<usize>, ranges: Seq<Range<usize>>, d: int) -> Seq<usize> {
    Seq::new(
        shape.len(),
        |x: int|
            if d <= x < ranges.len() {
                (ranges[x].end - ranges[x].start) as usize
            } else {
                shape[x]
            },
    )
}

/// `t` with the region that `ranges` selects in dimensions `d..ranges.len()`
/// replaced by `v`: along dimension `d` the part before the range and the part
/// after it are kept, and the part inside is handled likewise from `d + 1` on.
pub open spec fn slice_assign_from<T>(
    t: TensorModel<T>,
    ranges: Seq<Range<usize>>,
    v: TensorModel<T>,
    d: int,
) -> TensorModel<T>
    decreases ranges.len() - d,
{
    if d >= ranges.len() || d < 0 {
        v
    } else {
        let n = t.shape[d] as int;
        let s = ranges[d].start as int;
        let e = ranges[d].end as int;
        let before = narrow_spec(t, d, 0, s);
        let mid = narrow_spec(t, d, s, e - s);
        let after = narrow_spec(t, d, e, n - e);
        cat2_spec(cat2_spec(before, slice_assign_from(mid, ranges, v, d + 1), d), after, d)
    }
}

/// Ranges from `d` on are ordered and lie within their dimensions.
pub open spec fn ranges_valid_from(shape: Seq<usize>, ranges: Seq<Range<usize>>, d: int) -> bool {
    forall|x: int| d <= x < ranges.len() ==> 0 <= (#[trigger] ranges[x]).start <= ranges[x].end <= shape[x]
}

fn assign_from<T: Copy>(t: &Tensor<T>, ranges: &Vec<Range<usize>>, v: &Tensor<T>, d: usize) -> (r: Tensor<T>)
    requires
        t.wf(),
        v.wf(),
        ranges@.len() <= t.shape@.len(),
        d <= ranges@.len(),
        ranges_valid_from(t.shape@, ranges@, d as int),
        v.shape@ == region_shape(t.shape@, ranges@, d as int),
    ensures
        r@ == slice_assign_from(t@, ranges@, v@, d as int),
        r.wf(),
        r.shape@ == t.shape@,
    decreases ranges@.len() - d,
{
    if d == ranges.len() {
        assert(v.shape@ =~= t.shape@);
        return v.duplicate();
    }
    let n = t.shape[d];
    let s = ranges[d].start;
    let e = ranges[d].end;
    assert(s <= e <= n);
    let before = match narrow(t, d, 0, s) {
        Ok(u) => u,
        Err(_) => {
            proof {
                assert(false);
            }
            return v.duplicate();
        },
    };
    let mid = match narrow(t, d, s, e - s) {
        Ok(u) => u,
        Err(_) => {
            proof {
                assert(false);
            }
            return v.duplicate();
        },
    };
    let after = match narrow(t, d, e, n - e) {
        Ok(u) => u,
        Err(_) => {
            proof {
                assert(false);
            }
            return v.duplicate();
        },
    };
    proof {
        assert(region_shape(mid.shape@, ranges@, d + 1) =~= region_shape(t.shape@, ranges@, d as int));
        assert forall|x: int| d + 1 <= x < ranges@.len() implies 0 <= (#[trigger] ranges@[x]).start
            <= ranges@[x].end <= mid.shape@[x] by {
            assert(ranges@[x].start <= ranges@[x].end <= t.shape@[x]);
        }
    }
    let mid2 = assign_from(&mid, ranges, v, d + 1);
    let tlen = t.data.len();
    proof {
        lemma_product_le(outer_size(t.shape@, d as int) as int, e as int, n as int, inner_size(t.shape@, d as int) as int);
        let outer = outer_size(t.shape@, d as int) as int;
        let inner = inner_size(t.shape@, d as int) as int;
        lemma_size_split(t.shape@, d as int);
        lemma_size_update(t.shape@, d as int, s);
        lemma_size_update(t.shape@, d as int, (e - s) as usize);
        lemma_size_update(t.shape@, d as int, (n - e) as usize);
        lemma_sum_product(outer, s as int, (e - s) as int, inner);
        lemma_sum_product(outer, e as int, (n - e) as int, inner);
        assert(agree_except(before.shape@, mid2.shape@, d as int));
    }
    let left = cat2(&before, &mid2, d);
    proof {
        assert(left.shape@ =~= t.shape@.update(d as int, e));
        assert(agree_except(left.shape@, after.shape@, d as int));
    }
    let whole = cat2(&left, &after, d);
    assert(whole.shape@ =~= t.shape@);
    whole
}

/// `t` with the region that `ranges` selects (as `slice` does) replaced by
/// `value`, whose shape must be that of the region.
pub fn slice_assign<T: Copy>(t: &Tensor<T>, ranges: &Vec<Range<usize>>, value: &Tensor<T>) -> (r: Result<
    Tensor<T>,
    TensorError,
>)
    requires
        t.wf(),
        value.wf(),
    ensures
        r is Ok <==> ranges@.len() <= t.shape@.len() && ranges_valid(t.shape@, ranges@) && value.shape@
            == region_shape(t.shape@, ranges@, 0),
        match r {
            Ok(u) => u@ == slice_assign_from(t@, ranges@, value@, 0) && u.wf() && u.shape@ == t.shape@,
            Err(e) => e == (if ranges@.len() > t.shape@.len() {
                TensorError::RankViolation
            } else if !ranges_valid(t.shape@, ranges@) {
                TensorError::IndexOutOfRange
            } else {
                TensorError::ShapeMismatch
            }),
        },
{
    if ranges.len() > t.shape.len() {
        return Err(TensorError::RankViolation);
    }
    let mut d: usize = 0;
    while d < ranges.len()
        invariant
            ranges@.len() <= t.shape@.len(),
            0 <= d <= ranges@.len(),
            forall|x: int| 0 <= x < d ==> 0 <= (#[trigger] ranges@[x]).start <= ranges@[x].end <= t.shape@[x],
        decreases ranges.len() - d,
    {
        let st = ranges[d].start;
        let en = ranges[d].end;
        assert(st == ranges@[d as int].start && en == ranges@[d as int].end);
        if st > en || en > t.shape[d] {
            return Err(TensorError::IndexOutOfRange);
        }
        d = d + 1;
    }
    if value.shape.len() != t.shape.len() {
        return Err(TensorError::ShapeMismatch);
    }
    let mut x: usize = 0;
    while x < t.shape.len()
        invariant
            ranges@.len() <= t.shape@.len(),
            ranges_valid(t.shape@, ranges@),
            value.shape@.len() == t.shape@.len(),
            0 <= x <= t.shape@.len(),
            forall|y: int| 0 <= y < x ==> value.shape@[y] == #[trigger] region_shape(t.shape@, ranges@, 0)[y],
        decreases t.shape.len() - x,
    {
        let want = if x < ranges.len() {
            assert(ranges@[x as int].start <= ranges@[x as int].end);
            ranges[x].end - ranges[x].start
        } else {
            t.shape[x]
        };
        if value.shape[x] != want {
            return Err(TensorError::ShapeMismatch);
        }
        x = x + 1;
    }
    assert(value.shape@ =~= region_shape(t.shape@, ranges@, 0));
    Ok(assign_from(t, ranges, value, 0))
}

} // verus!
