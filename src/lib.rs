//! Tensors held as a shape and row-major data, with the shape-aware
//! operations of a tensor backend proved against a mathematical model.
use vstd::prelude::*;

pub mod shape;
pub mod tensor;
pub mod layout;
pub mod reduce;
pub mod elementwise;
pub mod laws;

verus! {

} // verus!
