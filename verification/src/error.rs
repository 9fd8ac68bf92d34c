//! The uniform failure results reported by every validating operation.
//!
//! All validation failures are reported to the caller as explicit `Err`
//! values carrying the offending sizes or indices; none are silently
//! corrected and none abort the program.

use vstd::prelude::*;

verus! {

/// The error taxonomy of the tensor engine, by condition.
#[derive(Clone, Copy, Debug, PartialEq, Eq, Structural)]
pub enum TensorError {
    /// A supplied element count disagrees with the declared size product.
    DataLengthMismatch { data_length: usize, tensor_size: usize },
    /// An index, range or permutation list's length disagrees with the rank.
    DimensionCountMismatch { provided: usize, expected: usize },
    /// A coordinate meets or exceeds its dimension's size.
    IndexOutOfRange { dimension: usize, index: usize, size: usize },
    /// A range exceeds its dimension's size, or its start exceeds its end.
    RangeOutOfBounds { dimension: usize, start: usize, end: usize, size: usize },
    /// A dimension index appears more than once in a permutation or flip list.
    DuplicateDimension { dimension: usize },
    /// A requested size product disagrees with the source's element count, or
    /// the source's layout cannot be reinterpreted without copying.
    ReshapeMismatch { data_length: usize, new_length: usize },
    /// A dimension of size other than one cannot be stretched to the target.
    IncompatibleExpansion { dimension: usize, size: usize, target: usize },
    /// Two aligned dimension sizes can not be broadcast together.
    IncompatibleBroadcast { left: usize, right: usize },
}

/// The result type of every fallible tensor operation.
pub type Res<T> = Result<T, TensorError>;

} // verus!
