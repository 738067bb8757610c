use vstd::prelude::*;
use vstd::arithmetic::div_mod::lemma_fundamental_div_mod;
use vstd::arithmetic::div_mod::lemma_fundamental_div_mod_converse;

verus! {

/// Number of elements held by a tensor with the given dimension sizes.
pub open spec fn shape_size(s: Seq<usize>) -> nat
    decreases s.len(),
{
    if s.len() == 0 {
        1
    } else {
        shape_size(s.drop_last()) * (s.last() as nat)
    }
}

/// Number of elements in one "row" before dimension `dim` (product of the leading sizes).
pub open spec fn outer_size(s: Seq<usize>, dim: int) -> nat {
    shape_size(s.take(dim))
}

/// Number of elements after dimension `dim` (product of the trailing sizes).
pub open spec fn inner_size(s: Seq<usize>, dim: int) -> nat {
    shape_size(s.skip(dim + 1))
}

/// Flat row-major position of coordinate `(o, k, i)` in a tensor viewed as
/// `[outer, n, inner]`.
pub open spec fn flat3(o: int, k: int, i: int, n: int, inner: int) -> int {
    (o * n + k) * inner + i
}

/// Leading coordinate of flat position `p` in the view `[outer, n, inner]`.
pub open spec fn row3(p: int, n: int, inner: int) -> int {
    (p / inner) / n
}

/// Middle coordinate of flat position `p` in the view `[outer, n, inner]`.
pub open spec fn mid3(p: int, n: int, inner: int) -> int {
    (p / inner) % n
}

/// Trailing coordinate of flat position `p` in the view `[outer, n, inner]`.
pub open spec fn col3(p: int, inner: int) -> int {
    p % inner
}

pub proof fn lemma_size_concat(a: Seq<usize>, b: Seq<usize>)
    ensures
        shape_size(a + b) == shape_size(a) * shape_size(b),
    decreases b.len(),
{
    if b.len() == 0 {
        assert(a + b =~= a);
        assert(shape_size(b) == 1);
        assert(shape_size(a) * 1 == shape_size(a));
    } else {
        assert((a + b).drop_last() =~= a + b.drop_last());
        assert((a + b).last() == b.last());
        lemma_size_concat(a, b.drop_last());
        let x = shape_size(a);
        let y = shape_size(b.drop_last());
        let z = b.last() as nat;
        assert((x * y) * z == x * (y * z)) by (nonlinear_arith);
        assert(shape_size(a + b) == shape_size((a + b).drop_last()) * ((a + b).last() as nat));
        assert(shape_size(b) == y * z);
        assert(shape_size(a + b.drop_last()) == x * y);
        assert(shape_size(a + b) == (x * y) * z);
    }
}

pub proof fn lemma_size_single(x: usize)
    ensures
        shape_size(seq![x]) == x,
{
    assert(seq![x].drop_last() =~= Seq::<usize>::empty());
    assert(seq![x].last() == x);
    assert(shape_size(Seq::<usize>::empty()) == 1);
    assert(shape_size(seq![x]) == shape_size(seq![x].drop_last()) * (seq![x].last() as nat));
}

/// The elements of a tensor split into the part before, at and after `dim`.
pub proof fn lemma_size_split(s: Seq<usize>, dim: int)
    requires
        0 <= dim < s.len(),
    ensures
        shape_size(s) == outer_size(s, dim) * s[dim] * inner_size(s, dim),
{
    assert(s =~= s.take(dim) + seq![s[dim]] + s.skip(dim + 1));
    lemma_size_concat(s.take(dim), seq![s[dim]]);
    lemma_size_concat(s.take(dim) + seq![s[dim]], s.skip(dim + 1));
    lemma_size_single(s[dim]);
}

/// Changing one dimension keeps the sizes before and after it.
pub proof fn lemma_size_update(s: Seq<usize>, dim: int, m: usize)
    requires
        0 <= dim < s.len(),
    ensures
        outer_size(s.update(dim, m), dim) == outer_size(s, dim),
        inner_size(s.update(dim, m), dim) == inner_size(s, dim),
        shape_size(s.update(dim, m)) == outer_size(s, dim) * m * inner_size(s, dim),
{
    let u = s.update(dim, m);
    assert(u.take(dim) =~= s.take(dim));
    assert(u.skip(dim + 1) =~= s.skip(dim + 1));
    lemma_size_split(u, dim);
}

/// A shape with a zero dimension holds no elements.
pub proof fn lemma_size_zero(s: Seq<usize>, j: int)
    requires
        0 <= j < s.len(),
        s[j] == 0,
    ensures
        shape_size(s) == 0,
{
    lemma_size_split(s, j);
    let a = outer_size(s, j);
    let b = inner_size(s, j);
    assert(a * 0 * b == 0) by (nonlinear_arith);
}

/// In a non-empty tensor every dimension is at least one, and the leading
/// sizes multiply to at most the total.
pub proof fn lemma_size_nonempty(s: Seq<usize>, dim: int)
    requires
        0 <= dim < s.len(),
        shape_size(s) > 0,
    ensures
        s[dim] > 0,
        outer_size(s, dim) > 0,
        inner_size(s, dim) > 0,
        outer_size(s, dim) * s[dim] <= shape_size(s),
        outer_size(s, dim + 1) == outer_size(s, dim) * s[dim],
{
    lemma_size_split(s, dim);
    let a = outer_size(s, dim);
    let n = s[dim] as nat;
    let b = inner_size(s, dim);
    assert(a * n * b > 0 ==> a > 0 && n > 0 && b > 0 && a * n <= a * n * b) by (nonlinear_arith);
    assert(s.take(dim + 1).drop_last() =~= s.take(dim));
}

pub proof fn lemma_flat3_bounds(o: int, k: int, i: int, outer: int, n: int, inner: int)
    requires
        0 <= o < outer,
        0 <= k < n,
        0 <= i < inner,
    ensures
        0 <= flat3(o, k, i, n, inner) < outer * n * inner,
        0 <= o * n + k < outer * n,
        0 <= o * n <= o * n + k,
        outer * n <= outer * n * inner,
{
    assert(0 <= o * n) by (nonlinear_arith)
        requires
            0 <= o,
            0 <= k < n,
    ;
    assert(outer * n <= outer * n * inner) by (nonlinear_arith)
        requires
            0 <= o < outer,
            0 <= k < n,
            0 <= i < inner,
    ;
    assert(0 <= o * n + k < outer * n) by (nonlinear_arith)
        requires
            0 <= o < outer,
            0 <= k < n,
    ;
    let q = o * n + k;
    assert(0 <= q * inner + i < outer * n * inner) by (nonlinear_arith)
        requires
            0 <= q < outer * n,
            0 <= i < inner,
    ;
}

/// The coordinates of `flat3(o, k, i)` are `o`, `k` and `i`.
pub proof fn lemma_flat3_coords(o: int, k: int, i: int, n: int, inner: int)
    requires
        0 <= o,
        0 <= k < n,
        0 <= i < inner,
    ensures
        row3(flat3(o, k, i, n, inner), n, inner) == o,
        mid3(flat3(o, k, i, n, inner), n, inner) == k,
        col3(flat3(o, k, i, n, inner), inner) == i,
{
    let p = flat3(o, k, i, n, inner);
    lemma_fundamental_div_mod_converse(p, inner, o * n + k, i);
    lemma_fundamental_div_mod_converse(o * n + k, n, o, k);
}

/// Every position below `outer * n * inner` is `flat3` of its coordinates.
pub proof fn lemma_flat3_of_coords(p: int, outer: int, n: int, inner: int)
    requires
        0 <= p < outer * n * inner,
        0 <= outer,
        0 <= n,
        0 <= inner,
    ensures
        n > 0,
        inner > 0,
        0 <= row3(p, n, inner) < outer,
        0 <= mid3(p, n, inner) < n,
        0 <= col3(p, inner) < inner,
        p == flat3(row3(p, n, inner), mid3(p, n, inner), col3(p, inner), n, inner),
{
    assert(n > 0 && inner > 0) by (nonlinear_arith)
        requires
            0 <= p < outer * n * inner,
            0 <= outer,
            0 <= n,
            0 <= inner,
    ;
    let q = p / inner;
    lemma_fundamental_div_mod(p, inner);
    lemma_fundamental_div_mod(q, n);
    assert(p == inner * q + p % inner);
    assert(q == n * (q / n) + q % n);
    assert(0 <= q < outer * n) by (nonlinear_arith)
        requires
            p == inner * q + p % inner,
            0 <= p % inner < inner,
            0 <= p < outer * n * inner,
            inner > 0,
    ;
    assert(0 <= q / n < outer) by (nonlinear_arith)
        requires
            q == n * (q / n) + q % n,
            0 <= q % n < n,
            0 <= q < outer * n,
            n > 0,
    ;
    assert(p == ((q / n) * n + q % n) * inner + p % inner) by (nonlinear_arith)
        requires
            p == inner * q + p % inner,
            q == n * (q / n) + q % n,
    ;
}

/// Product of all dimension sizes, or `None` where it does not fit in `usize`.
pub fn checked_num_elements(shape: &Vec<usize>) -> (r: Option<usize>)
    ensures
        r matches Some(n) ==> n == shape_size(shape@),
        r is None <==> shape_size(shape@) > usize::MAX,
{
    let mut j: usize = 0;
    while j < shape.len()
        invariant
            0 <= j <= shape.len(),
            forall|x: int| 0 <= x < j ==> shape@[x] > 0,
        decreases shape.len() - j,
    {
        if shape[j] == 0 {
            proof {
                lemma_size_zero(shape@, j as int);
            }
            return Some(0);
        }
        j = j + 1;
    }
    let mut acc: usize = 1;
    let mut i: usize = 0;
    while i < shape.len()
        invariant
            0 <= i <= shape.len(),
            forall|x: int| 0 <= x < shape.len() ==> shape@[x] > 0,
            acc == shape_size(shape@.take(i as int)),
        decreases shape.len() - i,
    {
        assert(shape@.take(i + 1).drop_last() =~= shape@.take(i as int));
        match acc.checked_mul(shape[i]) {
            Some(v) => {
                acc = v;
            },
            None => {
                proof {
                    lemma_prefix_le(shape@, i + 1);
                }
                return None;
            },
        }
        i = i + 1;
    }
    assert(shape@.take(shape.len() as int) =~= shape@);
    Some(acc)
}

/// With all dimensions positive, a prefix of the shape holds at most as many
/// elements as the whole.
pub proof fn lemma_prefix_le(s: Seq<usize>, i: int)
    requires
        0 <= i <= s.len(),
        forall|x: int| 0 <= x < s.len() ==> s[x] > 0,
    ensures
        shape_size(s.take(i)) <= shape_size(s),
{
    assert(s =~= s.take(i) + s.skip(i));
    lemma_size_concat(s.take(i), s.skip(i));
    lemma_size_positive(s.skip(i));
    let a = shape_size(s.take(i));
    let b = shape_size(s.skip(i));
    assert(b >= 1 ==> a <= a * b) by (nonlinear_arith);
}

pub proof fn lemma_size_positive(s: Seq<usize>)
    requires
        forall|x: int| 0 <= x < s.len() ==> s[x] > 0,
    ensures
        shape_size(s) >= 1,
    decreases s.len(),
{
    if s.len() > 0 {
        lemma_size_positive(s.drop_last());
        let a = shape_size(s.drop_last());
        let b = s.last() as nat;
        assert(a >= 1 && b >= 1 ==> a * b >= 1) by (nonlinear_arith);
    }
}

/// Sizes before and after `dim` of a non-empty tensor, computed without overflow.
pub fn split_at_dim(shape: &Vec<usize>, dim: usize, total: usize) -> (r: (usize, usize))
    requires
        dim < shape.len(),
        0 < total,
        total == shape_size(shape@),
    ensures
        r.0 == outer_size(shape@, dim as int),
        r.1 == inner_size(shape@, dim as int),
        r.0 > 0,
        r.1 > 0,
        shape@[dim as int] > 0,
{
    let mut outer: usize = 1;
    let mut i: usize = 0;
    while i < dim
        invariant
            0 <= i <= dim < shape.len(),
            0 < total,
            total == shape_size(shape@),
            outer == outer_size(shape@, i as int),
        decreases dim - i,
    {
        proof {
            lemma_size_nonempty(shape@, i as int);
        }
        outer = outer * shape[i];
        i = i + 1;
    }
    proof {
        lemma_size_nonempty(shape@, dim as int);
        lemma_size_split(shape@, dim as int);
    }
    let n = shape[dim];
    assert(outer as int * n as int > 0) by (nonlinear_arith)
        requires
            outer > 0,
            n > 0,
    ;
    let on = outer * n;
    let inner = total / on;
    proof {
        let b = inner_size(shape@, dim as int);
        assert((on as int * b) / (on as int) == b) by (nonlinear_arith)
            requires
                on > 0,
        ;
    }
    (outer, inner)
}

} // verus!
