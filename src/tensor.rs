use vstd::prelude::*;
use crate::shape::checked_num_elements;
use crate::shape::lemma_size_single;
use crate::shape::shape_size;

verus! {

/// What can go wrong when an operation is handed arguments that break its rules.
#[derive(Debug, Clone, Copy, PartialEq, Eq, Structural)]
pub enum TensorError {
    /// Operand shapes are not compatible.
    ShapeMismatch,
    /// A dimension index is not below the rank, or the rank is too small.
    RankViolation,
    /// An index or a range goes past the size of a dimension.
    IndexOutOfRange,
    /// A malformed argument: a non-singleton dimension to repeat, a zero step, a
    /// reshape that changes the number of elements.
    InvalidArgument,
}

/// The mathematical value of a tensor: its dimension sizes and its elements in
/// row-major order.
pub struct TensorModel<T> {
    pub shape: Seq<usize>,
    pub data: Seq<T>,
}

impl<T> TensorModel<T> {
    /// The data holds exactly as many elements as the shape describes.
    pub open spec fn wf(self) -> bool {
        self.data.len() == shape_size(self.shape)
    }
}

/// A tensor of any element kind: numeric (`i64`), boolean (`bool`), ...
pub struct Tensor<T> {
    pub shape: Vec<usize>,
    pub data: Vec<T>,
}

impl<T> View for Tensor<T> {
    type V = TensorModel<T>;

    open spec fn view(&self) -> TensorModel<T> {
        TensorModel { shape: self.shape@, data: self.data@ }
    }
}

impl<T> Tensor<T> {
    pub open spec fn wf(&self) -> bool {
        self@.wf()
    }
}

pub fn copy_vec<T: Copy>(v: &Vec<T>) -> (r: Vec<T>)
    ensures
        r@ == v@,
{
    let mut r: Vec<T> = Vec::new();
    let mut i: usize = 0;
    while i < v.len()
        invariant
            0 <= i <= v.len(),
            r@ == v@.take(i as int),
        decreases v.len() - i,
    {
        r.push(v[i]);
        i = i + 1;
        assert(r@ =~= v@.take(i as int));
    }
    assert(v@.take(v.len() as int) =~= v@);
    r
}

/// Whether two shapes are equal.
pub fn same_shape(a: &Vec<usize>, b: &Vec<usize>) -> (r: bool)
    ensures
        r == (a@ == b@),
{
    if a.len() != b.len() {
        return false;
    }
    let mut i: usize = 0;
    while i < a.len()
        invariant
            a.len() == b.len(),
            0 <= i <= a.len(),
            forall|j: int| 0 <= j < i ==> a@[j] == b@[j],
        decreases a.len() - i,
    {
        if a[i] != b[i] {
            return false;
        }
        i = i + 1;
    }
    assert(a@ =~= b@);
    true
}

/// Creates a tensor from row-major data and a shape; the data must hold
/// exactly as many elements as the shape describes.
pub fn from_data<T>(data: Vec<T>, shape: Vec<usize>) -> (r: Result<Tensor<T>, TensorError>)
    ensures
        match r {
            Ok(t) => t@ == (TensorModel { shape: shape@, data: data@ }) && t.wf(),
            Err(e) => e == TensorError::ShapeMismatch,
        },
        r is Ok <==> data@.len() == shape_size(shape@),
{
    let len = data.len();
    match checked_num_elements(&shape) {
        Some(n) => {
            if n == len {
                Ok(Tensor { shape, data })
            } else {
                Err(TensorError::ShapeMismatch)
            }
        },
        None => Err(TensorError::ShapeMismatch),
    }
}

impl<T: Copy> Tensor<T> {
    /// The dimension sizes.
    pub fn shape(&self) -> (r: Vec<usize>)
        ensures
            r@ == self.shape@,
    {
        copy_vec(&self.shape)
    }

    /// The number of dimensions.
    pub fn rank(&self) -> (r: usize)
        ensures
            r == self.shape@.len(),
    {
        self.shape.len()
    }

    /// The number of elements: the product of the dimension sizes.
    pub fn num_elements(&self) -> (r: usize)
        requires
            self.wf(),
        ensures
            r == shape_size(self.shape@),
    {
        self.data.len()
    }

    /// The elements in row-major order.
    pub fn to_data(&self) -> (r: Vec<T>)
        ensures
            r@ == self.data@,
    {
        copy_vec(&self.data)
    }

    /// An independent tensor with the same shape and elements.
    pub fn duplicate(&self) -> (r: Tensor<T>)
        ensures
            r@ == self@,
    {
        Tensor { shape: copy_vec(&self.shape), data: copy_vec(&self.data) }
    }
}

/// The elements of `t` under the dimension sizes `shape`.
pub open spec fn reshape_spec<T>(t: TensorModel<T>, shape: Seq<usize>) -> TensorModel<T> {
    TensorModel { shape, data: t.data }
}

/// Gives the elements a new shape; the number of elements must not change.
pub fn reshape<T>(t: Tensor<T>, shape: Vec<usize>) -> (r: Result<Tensor<T>, TensorError>)
    requires
        t.wf(),
    ensures
        match r {
            Ok(u) => u@ == reshape_spec(t@, shape@) && u.wf(),
            Err(e) => e == TensorError::InvalidArgument,
        },
        r is Ok <==> shape_size(shape@) == shape_size(t.shape@),
{
    let len = t.data.len();
    match checked_num_elements(&shape) {
        Some(n) => {
            if n == len {
                Ok(Tensor { shape, data: t.data })
            } else {
                Err(TensorError::InvalidArgument)
            }
        },
        None => Err(TensorError::InvalidArgument),
    }
}

/// Flattens a tensor into one dimension holding all of its elements.
pub fn flatten<T>(t: Tensor<T>) -> (r: Tensor<T>)
    requires
        t.wf(),
    ensures
        r.wf(),
        r.shape@ == seq![t.data@.len() as usize],
        r.shape@.len() == 1,
        r.shape@[0] == t.data@.len(),
        r.data@ == t.data@,
{
    let n = t.data.len();
    let mut shape: Vec<usize> = Vec::new();
    shape.push(n);
    proof {
        lemma_size_single(n);
        assert(shape@ =~= seq![n]);
    }
    Tensor { shape, data: t.data }
}

/// A tensor of the given shape with every element equal to `value`.
pub fn filled<T: Copy>(shape: Vec<usize>, value: T) -> (r: Tensor<T>)
    requires
        shape_size(shape@) <= usize::MAX,
    ensures
        r.wf(),
        r.shape@ == shape@,
        r.data@ == Seq::new(shape_size(shape@), |p: int| value),
{
    let n = match checked_num_elements(&shape) {
        Some(n) => n,
        None => 0,
    };
    let mut data: Vec<T> = Vec::new();
    let mut i: usize = 0;
    while i < n
        invariant
            0 <= i <= n,
            data@ == Seq::new(i as nat, |p: int| value),
        decreases n - i,
    {
        data.push(value);
        i = i + 1;
        assert(data@ =~= Seq::new(i as nat, |p: int| value));
    }
    Tensor { shape, data }
}

/// A numeric tensor of zeros.
pub fn zeros(shape: Vec<usize>) -> (r: Tensor<i64>)
    requires
        shape_size(shape@) <= usize::MAX,
    ensures
        r.wf(),
        r.shape@ == shape@,
        r.data@ == Seq::new(shape_size(shape@), |p: int| 0i64),
{
    filled(shape, 0i64)
}

/// A numeric tensor of ones.
pub fn ones(shape: Vec<usize>) -> (r: Tensor<i64>)
    requires
        shape_size(shape@) <= usize::MAX,
    ensures
        r.wf(),
        r.shape@ == shape@,
        r.data@ == Seq::new(shape_size(shape@), |p: int| 1i64),
{
    filled(shape, 1i64)
}

/// Stops gradient tracking: the tensor itself on a backend without autodiff.
pub fn detach<T>(t: Tensor<T>) -> (r: Tensor<T>)
    ensures
        r == t,
{
    t
}

/// Marks a tensor as tracked or not: the tensor itself on a backend without autodiff.
pub fn set_require_grad<T>(t: Tensor<T>, _require_grad: bool) -> (r: Tensor<T>)
    ensures
        r == t,
{
    t
}

/// Whether a tensor is tracked for gradients: never, on a backend without autodiff.
pub fn is_require_grad<T>(_t: &Tensor<T>) -> (r: bool)
    ensures
        r == false,
{
    false
}

} // verus!
