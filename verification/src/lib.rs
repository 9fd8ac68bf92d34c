//! Vectorized N-dimensional numerical arrays: a logical view layer over a
//! flat, shared element buffer, supporting zero-copy reshaping, permutation,
//! slicing, flipping and broadcasting, plus elementwise map/zip/reduce
//! operations that respect those views.

pub mod arith;
pub mod error;
pub mod laws;
pub mod shape;
pub mod stride;
pub mod tensor;

pub use crate::error::Res;
pub use crate::error::TensorError;
pub use crate::shape::Shape;
pub use crate::stride::Stride;
pub use crate::tensor::Tensor;
