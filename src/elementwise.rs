use vstd::prelude::*;
use vstd::arithmetic::power::pow;
use crate::shape::shape_size;
use crate::tensor::same_shape;
use crate::tensor::zeros;
use crate::tensor::Tensor;
use crate::tensor::TensorError;

verus! {

/// `x` held at most `max`, then at least `min`: `min` wins where `min > max`.
pub open spec fn clamp_value(x: i64, min: i64, max: i64) -> i64 {
    let y = if x > max {
        max
    } else {
        x
    };
    if y < min {
        min
    } else {
        y
    }
}

/// Every element of `data` clamped to `[min, max]` as `clamp_value` does.
pub open spec fn clamp_spec(data: Seq<i64>, min: i64, max: i64) -> Seq<i64> {
    Seq::new(data.len(), |i: int| clamp_value(data[i], min, max))
}

/// Adds `value` to every element.
pub fn add_scalar(t: Tensor<i64>, value: i64) -> (r: Tensor<i64>)
    requires
        t.wf(),
        forall|i: int| 0 <= i < t.data@.len() ==> i64::MIN <= #[trigger] t.data@[i] + value <= i64::MAX,
    ensures
        r.wf(),
        r.shape@ == t.shape@,
        r.data@ == Seq::new(t.data@.len(), |i: int| (t.data@[i] + value) as i64),
{
    let ghost old_data = t.data@;
    let mut data = t.data;
    let mut i: usize = 0;
    while i < data.len()
        invariant
            data@.len() == old_data.len(),
            0 <= i <= data@.len(),
            forall|j: int| 0 <= j < old_data.len() ==> i64::MIN <= #[trigger] old_data[j] + value <= i64::MAX,
            forall|j: int| 0 <= j < i ==> data@[j] == (old_data[j] + value) as i64,
            forall|j: int| i <= j < data@.len() ==> data@[j] == old_data[j],
        decreases data@.len() - i,
    {
        assert(data@[i as int] == old_data[i as int]);
        assert(i64::MIN <= old_data[i as int] + value <= i64::MAX);
        let v = data[i] + value;
        data.set(i, v);
        i = i + 1;
    }
    assert(data@ =~= Seq::new(old_data.len(), |i: int| (old_data[i] + value) as i64));
    Tensor { shape: t.shape, data }
}

/// Multiplies every element by `value`.
pub fn mul_scalar(t: Tensor<i64>, value: i64) -> (r: Tensor<i64>)
    requires
        t.wf(),
        forall|i: int| 0 <= i < t.data@.len() ==> i64::MIN <= #[trigger] t.data@[i] * value <= i64::MAX,
    ensures
        r.wf(),
        r.shape@ == t.shape@,
        r.data@ == Seq::new(t.data@.len(), |i: int| (t.data@[i] * value) as i64),
{
    let ghost old_data = t.data@;
    let mut data = t.data;
    let mut i: usize = 0;
    while i < data.len()
        invariant
            data@.len() == old_data.len(),
            0 <= i <= data@.len(),
            forall|j: int| 0 <= j < old_data.len() ==> i64::MIN <= #[trigger] old_data[j] * value <= i64::MAX,
            forall|j: int| 0 <= j < i ==> data@[j] == (old_data[j] * value) as i64,
            forall|j: int| i <= j < data@.len() ==> data@[j] == old_data[j],
        decreases data@.len() - i,
    {
        assert(data@[i as int] == old_data[i as int]);
        assert(i64::MIN <= old_data[i as int] * value <= i64::MAX);
        let v = data[i] * value;
        data.set(i, v);
        i = i + 1;
    }
    assert(data@ =~= Seq::new(old_data.len(), |i: int| (old_data[i] * value) as i64));
    Tensor { shape: t.shape, data }
}

/// Negates every element.
pub fn neg(t: Tensor<i64>) -> (r: Tensor<i64>)
    requires
        t.wf(),
        forall|i: int| 0 <= i < t.data@.len() ==> #[trigger] t.data@[i] != i64::MIN,
    ensures
        r.wf(),
        r.shape@ == t.shape@,
        r.data@ == Seq::new(t.data@.len(), |i: int| (-t.data@[i]) as i64),
{
    let r = mul_scalar(t, -1);
    assert(r.data@ =~= Seq::new(t.data@.len(), |i: int| (-t.data@[i]) as i64));
    r
}

/// A tensor of the given shape filled with `value`: zeros plus `value`.
pub fn full(shape: Vec<usize>, value: i64) -> (r: Tensor<i64>)
    requires
        shape_size(shape@) <= usize::MAX,
    ensures
        r.wf(),
        r.shape@ == shape@,
        r.data@ == Seq::new(shape_size(shape@), |p: int| value),
{
    let z = zeros(shape);
    let r = add_scalar(z, value);
    assert(r.data@ =~= Seq::new(shape_size(shape@), |p: int| value));
    r
}

/// An element-by-scalar comparison.
#[derive(Debug, Clone, Copy, PartialEq, Eq, Structural)]
pub enum Comparison {
    Equal,
    Greater,
    GreaterEqual,
    Lower,
    LowerEqual,
}

/// Whether `x` compares to `v` as `op` says.
pub open spec fn compares(x: i64, v: i64, op: Comparison) -> bool {
    match op {
        Comparison::Equal => x == v,
        Comparison::Greater => x > v,
        Comparison::GreaterEqual => x >= v,
        Comparison::Lower => x < v,
        Comparison::LowerEqual => x <= v,
    }
}

/// Whether each element compares to `value` as `op` says.
pub fn compare_elem(t: &Tensor<i64>, value: i64, op: Comparison) -> (r: Tensor<bool>)
    requires
        t.wf(),
    ensures
        r.wf(),
        r.shape@ == t.shape@,
        r.data@ == Seq::new(t.data@.len(), |i: int| compares(t.data@[i], value, op)),
{
    let mut data: Vec<bool> = Vec::new();
    let mut i: usize = 0;
    while i < t.data.len()
        invariant
            0 <= i <= t.data@.len(),
            data@ == Seq::new(i as nat, |j: int| compares(t.data@[j], value, op)),
        decreases t.data@.len() - i,
    {
        let x = t.data[i];
        let b = match op {
            Comparison::Equal => x == value,
            Comparison::Greater => x > value,
            Comparison::GreaterEqual => x >= value,
            Comparison::Lower => x < value,
            Comparison::LowerEqual => x <= value,
        };
        data.push(b);
        i = i + 1;
        assert(data@ =~= Seq::new(i as nat, |j: int| compares(t.data@[j], value, op)));
    }
    Tensor { shape: crate::tensor::copy_vec(&t.shape), data }
}

/// Whether each element equals `value`.
pub fn equal_elem(t: &Tensor<i64>, value: i64) -> (r: Tensor<bool>)
    requires
        t.wf(),
    ensures
        r.wf(),
        r.shape@ == t.shape@,
        r.data@ == Seq::new(t.data@.len(), |i: int| t.data@[i] == value),
{
    let r = compare_elem(t, value, Comparison::Equal);
    assert(r.data@ =~= Seq::new(t.data@.len(), |i: int| t.data@[i] == value));
    r
}

/// Whether each element is above `value`.
pub fn greater_elem(t: &Tensor<i64>, value: i64) -> (r: Tensor<bool>)
    requires
        t.wf(),
    ensures
        r.wf(),
        r.shape@ == t.shape@,
        r.data@ == Seq::new(t.data@.len(), |i: int| t.data@[i] > value),
{
    let r = compare_elem(t, value, Comparison::Greater);
    assert(r.data@ =~= Seq::new(t.data@.len(), |i: int| t.data@[i] > value));
    r
}

/// Whether each element is at least `value`.
pub fn greater_equal_elem(t: &Tensor<i64>, value: i64) -> (r: Tensor<bool>)
    requires
        t.wf(),
    ensures
        r.wf(),
        r.shape@ == t.shape@,
        r.data@ == Seq::new(t.data@.len(), |i: int| t.data@[i] >= value),
{
    let r = compare_elem(t, value, Comparison::GreaterEqual);
    assert(r.data@ =~= Seq::new(t.data@.len(), |i: int| t.data@[i] >= value));
    r
}

/// Whether each element is below `value`.
pub fn lower_elem(t: &Tensor<i64>, value: i64) -> (r: Tensor<bool>)
    requires
        t.wf(),
    ensures
        r.wf(),
        r.shape@ == t.shape@,
        r.data@ == Seq::new(t.data@.len(), |i: int| t.data@[i] < value),
{
    let r = compare_elem(t, value, Comparison::Lower);
    assert(r.data@ =~= Seq::new(t.data@.len(), |i: int| t.data@[i] < value));
    r
}

/// Whether each element is at most `value`.
pub fn lower_equal_elem(t: &Tensor<i64>, value: i64) -> (r: Tensor<bool>)
    requires
        t.wf(),
    ensures
        r.wf(),
        r.shape@ == t.shape@,
        r.data@ == Seq::new(t.data@.len(), |i: int| t.data@[i] <= value),
{
    let r = compare_elem(t, value, Comparison::LowerEqual);
    assert(r.data@ =~= Seq::new(t.data@.len(), |i: int| t.data@[i] <= value));
    r
}

/// An element-by-element arithmetic operation.
#[derive(Debug, Clone, Copy, PartialEq, Eq, Structural)]
pub enum Arith {
    Add,
    Sub,
    Mul,
}

/// `x op y` over the integers.
pub open spec fn arith(x: int, y: int, op: Arith) -> int {
    match op {
        Arith::Add => x + y,
        Arith::Sub => x - y,
        Arith::Mul => x * y,
    }
}

/// `lhs op rhs` fits in an `i64` at every position both share.
pub open spec fn arith_fits(lhs: Seq<i64>, rhs: Seq<i64>, op: Arith) -> bool {
    forall|i: int|
        0 <= i < lhs.len() && i < rhs.len() ==> i64::MIN <= #[trigger] arith(lhs[i] as int, rhs[i] as int, op)
            <= i64::MAX
}

/// `lhs op rhs` element by element; the two shapes must be equal (no
/// broadcasting).
pub fn elementwise(lhs: &Tensor<i64>, rhs: &Tensor<i64>, op: Arith) -> (r: Result<Tensor<i64>, TensorError>)
    requires
        lhs.wf(),
        rhs.wf(),
        arith_fits(lhs.data@, rhs.data@, op),
    ensures
        r is Ok <==> lhs.shape@ == rhs.shape@,
        match r {
            Ok(u) => {
                &&& u.wf()
                &&& u.shape@ == lhs.shape@
                &&& u.data@ == Seq::new(
                    lhs.data@.len(),
                    |i: int| arith(lhs.data@[i] as int, rhs.data@[i] as int, op) as i64,
                )
            },
            Err(e) => e == TensorError::ShapeMismatch,
        },
{
    if !same_shape(&lhs.shape, &rhs.shape) {
        return Err(TensorError::ShapeMismatch);
    }
    let ghost target = Seq::new(lhs.data@.len(), |i: int| arith(lhs.data@[i] as int, rhs.data@[i] as int, op) as i64);
    let mut data: Vec<i64> = Vec::new();
    let mut i: usize = 0;
    while i < lhs.data.len()
        invariant
            lhs.data@.len() == rhs.data@.len(),
            arith_fits(lhs.data@, rhs.data@, op),
            target == Seq::new(lhs.data@.len(), |i: int| arith(lhs.data@[i] as int, rhs.data@[i] as int, op) as i64),
            0 <= i <= lhs.data@.len(),
            data@ == target.take(i as int),
        decreases lhs.data@.len() - i,
    {
        let x = lhs.data[i];
        let y = rhs.data[i];
        assert(i64::MIN <= arith(x as int, y as int, op) <= i64::MAX);
        let v = match op {
            Arith::Add => x + y,
            Arith::Sub => x - y,
            Arith::Mul => x * y,
        };
        data.push(v);
        i = i + 1;
        assert(data@ =~= target.take(i as int));
    }
    assert(target.take(lhs.data@.len() as int) =~= target);
    Ok(Tensor { shape: crate::tensor::copy_vec(&lhs.shape), data })
}

/// `lhs + rhs` element by element; the shapes must be equal.
pub fn add(lhs: &Tensor<i64>, rhs: &Tensor<i64>) -> (r: Result<Tensor<i64>, TensorError>)
    requires
        lhs.wf(),
        rhs.wf(),
        arith_fits(lhs.data@, rhs.data@, Arith::Add),
    ensures
        r is Ok <==> lhs.shape@ == rhs.shape@,
        match r {
            Ok(u) => {
                &&& u.wf()
                &&& u.shape@ == lhs.shape@
                &&& u.data@ == Seq::new(lhs.data@.len(), |i: int| (lhs.data@[i] + rhs.data@[i]) as i64)
            },
            Err(e) => e == TensorError::ShapeMismatch,
        },
{
    let r = elementwise(lhs, rhs, Arith::Add);
    if let Ok(u) = &r {
        assert(u.data@ =~= Seq::new(lhs.data@.len(), |i: int| (lhs.data@[i] + rhs.data@[i]) as i64));
    }
    r
}

/// `lhs - rhs` element by element; the shapes must be equal.
pub fn sub(lhs: &Tensor<i64>, rhs: &Tensor<i64>) -> (r: Result<Tensor<i64>, TensorError>)
    requires
        lhs.wf(),
        rhs.wf(),
        arith_fits(lhs.data@, rhs.data@, Arith::Sub),
    ensures
        r is Ok <==> lhs.shape@ == rhs.shape@,
        match r {
            Ok(u) => {
                &&& u.wf()
                &&& u.shape@ == lhs.shape@
                &&& u.data@ == Seq::new(lhs.data@.len(), |i: int| (lhs.data@[i] - rhs.data@[i]) as i64)
            },
            Err(e) => e == TensorError::ShapeMismatch,
        },
{
    let r = elementwise(lhs, rhs, Arith::Sub);
    if let Ok(u) = &r {
        assert(u.data@ =~= Seq::new(lhs.data@.len(), |i: int| (lhs.data@[i] - rhs.data@[i]) as i64));
    }
    r
}

/// `lhs * rhs` element by element; the shapes must be equal.
pub fn mul(lhs: &Tensor<i64>, rhs: &Tensor<i64>) -> (r: Result<Tensor<i64>, TensorError>)
    requires
        lhs.wf(),
        rhs.wf(),
        arith_fits(lhs.data@, rhs.data@, Arith::Mul),
    ensures
        r is Ok <==> lhs.shape@ == rhs.shape@,
        match r {
            Ok(u) => {
                &&& u.wf()
                &&& u.shape@ == lhs.shape@
                &&& u.data@ == Seq::new(lhs.data@.len(), |i: int| (lhs.data@[i] * rhs.data@[i]) as i64)
            },
            Err(e) => e == TensorError::ShapeMismatch,
        },
{
    let r = elementwise(lhs, rhs, Arith::Mul);
    if let Ok(u) = &r {
        assert(u.data@ =~= Seq::new(lhs.data@.len(), |i: int| (lhs.data@[i] * rhs.data@[i]) as i64));
    }
    r
}

/// `value` where `mask` holds, the element of `t` elsewhere; `mask` must have
/// the shape of `t`.
pub fn mask_fill<T: Copy>(t: Tensor<T>, mask: &Tensor<bool>, value: T) -> (r: Result<Tensor<T>, TensorError>)
    requires
        t.wf(),
        mask.wf(),
    ensures
        r is Ok <==> mask.shape@ == t.shape@,
        match r {
            Ok(u) => {
                &&& u.wf()
                &&& u.shape@ == t.shape@
                &&& u.data@ == Seq::new(t.data@.len(), |i: int| if mask.data@[i] { value } else { t.data@[i] })
            },
            Err(e) => e == TensorError::ShapeMismatch,
        },
{
    if !same_shape(&mask.shape, &t.shape) {
        return Err(TensorError::ShapeMismatch);
    }
    let ghost old_data = t.data@;
    let mut data = t.data;
    let mut i: usize = 0;
    while i < data.len()
        invariant
            data@.len() == old_data.len(),
            mask.data@.len() == old_data.len(),
            0 <= i <= data@.len(),
            forall|j: int| 0 <= j < i ==> data@[j] == (if mask.data@[j] { value } else { old_data[j] }),
            forall|j: int| i <= j < data@.len() ==> data@[j] == old_data[j],
        decreases data@.len() - i,
    {
        if mask.data[i] {
            data.set(i, value);
        }
        i = i + 1;
    }
    assert(data@ =~= Seq::new(old_data.len(), |i: int| if mask.data@[i] { value } else { old_data[i] }));
    Ok(Tensor { shape: t.shape, data })
}

/// The element of `value` where `mask` holds, the element of `t` elsewhere;
/// `mask` and `value` must have the shape of `t`.
pub fn mask_where<T: Copy>(t: Tensor<T>, mask: &Tensor<bool>, value: &Tensor<T>) -> (r: Result<
    Tensor<T>,
    TensorError,
>)
    requires
        t.wf(),
        mask.wf(),
        value.wf(),
    ensures
        r is Ok <==> mask.shape@ == t.shape@ && value.shape@ == t.shape@,
        match r {
            Ok(u) => {
                &&& u.wf()
                &&& u.shape@ == t.shape@
                &&& u.data@ == Seq::new(
                    t.data@.len(),
                    |i: int| if mask.data@[i] { value.data@[i] } else { t.data@[i] },
                )
            },
            Err(e) => e == TensorError::ShapeMismatch,
        },
{
    if !same_shape(&mask.shape, &t.shape) || !same_shape(&value.shape, &t.shape) {
        return Err(TensorError::ShapeMismatch);
    }
    let ghost old_data = t.data@;
    let mut data = t.data;
    let mut i: usize = 0;
    while i < data.len()
        invariant
            data@.len() == old_data.len(),
            mask.data@.len() == old_data.len(),
            value.data@.len() == old_data.len(),
            0 <= i <= data@.len(),
            forall|j: int| 0 <= j < i ==> data@[j] == (if mask.data@[j] { value.data@[j] } else { old_data[j] }),
            forall|j: int| i <= j < data@.len() ==> data@[j] == old_data[j],
        decreases data@.len() - i,
    {
        if mask.data[i] {
            data.set(i, value.data[i]);
        }
        i = i + 1;
    }
    assert(data@ =~= Seq::new(
        old_data.len(),
        |i: int| if mask.data@[i] { value.data@[i] } else { old_data[i] },
    ));
    Ok(Tensor { shape: t.shape, data })
}

/// Raises every element below `min` to `min`.
pub fn clamp_min(t: Tensor<i64>, min: i64) -> (r: Tensor<i64>)
    requires
        t.wf(),
    ensures
        r.wf(),
        r.shape@ == t.shape@,
        r.data@ == Seq::new(t.data@.len(), |i: int| if t.data@[i] < min { min } else { t.data@[i] }),
{
    let mask = lower_elem(&t, min);
    let ghost t_model = t@;
    match mask_fill(t, &mask, min) {
        Ok(u) => {
            assert(u.data@ =~= Seq::new(t_model.data.len(), |i: int| if t_model.data[i] < min { min } else { t_model.data[i] }));
            u
        },
        Err(_) => {
            proof {
                assert(false);
            }
            Tensor { shape: Vec::new(), data: Vec::new() }
        },
    }
}

/// Lowers every element above `max` to `max`.
pub fn clamp_max(t: Tensor<i64>, max: i64) -> (r: Tensor<i64>)
    requires
        t.wf(),
    ensures
        r.wf(),
        r.shape@ == t.shape@,
        r.data@ == Seq::new(t.data@.len(), |i: int| if t.data@[i] > max { max } else { t.data@[i] }),
{
    let mask = greater_elem(&t, max);
    let ghost t_model = t@;
    match mask_fill(t, &mask, max) {
        Ok(u) => {
            assert(u.data@ =~= Seq::new(t_model.data.len(), |i: int| if t_model.data[i] > max { max } else { t_model.data[i] }));
            u
        },
        Err(_) => {
            proof {
                assert(false);
            }
            Tensor { shape: Vec::new(), data: Vec::new() }
        },
    }
}

/// Holds every element in `[min, max]`: `max` is applied first, so where
/// `min > max` every element becomes `min`.
pub fn clamp(t: Tensor<i64>, min: i64, max: i64) -> (r: Tensor<i64>)
    requires
        t.wf(),
    ensures
        r.wf(),
        r.shape@ == t.shape@,
        r.data@ == clamp_spec(t.data@, min, max),
{
    let ghost t_model = t@;
    let r = clamp_min(clamp_max(t, max), min);
    assert(r.data@ =~= clamp_spec(t_model.data, min, max));
    r
}

/// Relies on num_traits::checked_pow: `base` raised to `exp`, or `None` where
/// the result does not fit in an `i64`.
#[verifier::external_body]
fn checked_pow_i64(base: i64, exp: usize) -> (r: Option<i64>)
    ensures
        r matches Some(v) ==> v == pow(base as int, exp as nat),
        r is None <==> !(i64::MIN <= pow(base as int, exp as nat) <= i64::MAX),
{
    num_traits::checked_pow(base, exp)
}

/// Every element raised to `exp` fits in an `i64`.
pub open spec fn powers_fit(s: Seq<i64>, exp: nat) -> bool {
    forall|i: int| 0 <= i < s.len() ==> i64::MIN <= #[trigger] pow(s[i] as int, exp) <= i64::MAX
}

/// Raises every element to the power `exp`; `None` where a power does not fit
/// in an `i64`.
pub fn powi_scalar(t: Tensor<i64>, exp: usize) -> (r: Option<Tensor<i64>>)
    requires
        t.wf(),
    ensures
        r is Some <==> powers_fit(t.data@, exp as nat),
        r matches Some(u) ==> {
            &&& u.wf()
            &&& u.shape@ == t.shape@
            &&& u.data@ == Seq::new(t.data@.len(), |i: int| pow(t.data@[i] as int, exp as nat) as i64)
        },
{
    let ghost old_data = t.data@;
    let mut data = t.data;
    let mut i: usize = 0;
    while i < data.len()
        invariant
            data@.len() == old_data.len(),
            0 <= i <= data@.len(),
            old_data == t.data@,
            forall|j: int| 0 <= j < i ==> i64::MIN <= #[trigger] pow(old_data[j] as int, exp as nat) <= i64::MAX,
            forall|j: int| 0 <= j < i ==> data@[j] == pow(old_data[j] as int, exp as nat) as i64,
            forall|j: int| i <= j < data@.len() ==> data@[j] == old_data[j],
        decreases data@.len() - i,
    {
        assert(data@[i as int] == old_data[i as int]);
        match checked_pow_i64(data[i], exp) {
            Some(v) => {
                data.set(i, v);
            },
            None => {
                assert(!(i64::MIN <= pow(old_data[i as int] as int, exp as nat) <= i64::MAX));
                assert(!(forall|j: int|
                    0 <= j < old_data.len() ==> i64::MIN <= #[trigger] pow(old_data[j] as int, exp as nat) <= i64::MAX));
                return None;
            },
        }
        i = i + 1;
    }
    assert(data@ =~= Seq::new(old_data.len(), |i: int| pow(old_data[i] as int, exp as nat) as i64));
    Some(Tensor { shape: t.shape, data })
}

/// Number of values `start, start + step, ...` below `end`: the `len` such that
/// exactly the first `len` of them are below `end`.
pub open spec fn is_arange_len(start: int, end: int, step: int, len: int) -> bool {
    &&& 0 <= len
    &&& len > 0 ==> start + (len - 1) * step < end
    &&& start + len * step >= end
}

/// The values `range.start, range.start + step, ...` below `range.end`, in
/// order, as a one-dimensional tensor; `step` must be at least one.
pub fn arange_step(range: std::ops::Range<usize>, step: usize) -> (r: Result<Tensor<i64>, TensorError>)
    requires
        range.end <= i64::MAX,
    ensures
        r is Ok <==> step >= 1,
        match r {
            Ok(u) => {
                &&& u.wf()
                &&& u.shape@ == seq![u.data@.len() as usize]
                &&& is_arange_len(range.start as int, range.end as int, step as int, u.data@.len() as int)
                &&& forall|k: int| 0 <= k < u.data@.len() ==> #[trigger] u.data@[k] == range.start + k * step
            },
            Err(e) => e == TensorError::InvalidArgument,
        },
{
    if step == 0 {
        return Err(TensorError::InvalidArgument);
    }
    let start = range.start;
    let end = range.end;
    let mut data: Vec<i64> = Vec::new();
    let mut v: usize = start;
    let mut done = start >= end;
    while !done
        invariant
            end <= i64::MAX,
            step >= 1,
            !done ==> v == start + data@.len() * step,
            !done ==> v < end,
            done ==> start + data@.len() * step >= end,
            data@.len() > 0 ==> start + (data@.len() - 1) * step < end,
            data@.len() == 0 ==> (done ==> start >= end),
            forall|k: int| 0 <= k < data@.len() ==> #[trigger] data@[k] == start + k * step,
        decreases end - v + (if done { 0int } else { 1int }),
    {
        proof {
            let n = data@.len() as int;
            assert((n + 1) * step == n * step + step) by (nonlinear_arith);
            assert((n + 1 - 1) * step == n * step);
        }
        data.push(v as i64);
        if end - v <= step {
            done = true;
        } else {
            v = v + step;
        }
    }
    let len = data.len();
    let mut shape: Vec<usize> = Vec::new();
    shape.push(len);
    proof {
        crate::shape::lemma_size_single(len);
        assert(shape@ =~= seq![len]);
    }
    Ok(Tensor { shape, data })
}

/// The values `range.start, range.start + 1, ...` below `range.end`.
pub fn arange(range: std::ops::Range<usize>) -> (r: Tensor<i64>)
    requires
        range.end <= i64::MAX,
    ensures
        r.wf(),
        r.shape@ == seq![r.data@.len() as usize],
        is_arange_len(range.start as int, range.end as int, 1, r.data@.len() as int),
        forall|k: int| 0 <= k < r.data@.len() ==> #[trigger] r.data@[k] == range.start + k,
{
    match arange_step(range, 1) {
        Ok(u) => u,
        Err(_) => {
            proof {
                assert(false);
            }
            Tensor { shape: Vec::new(), data: Vec::new() }
        },
    }
}

} // verus!
