//! One dimension's step through the backing buffer: a magnitude together
//! with a direction.
//!
//! The direction encodes whether increasing the logical index increases or
//! decreases the linear offset, which lets a flipped dimension be expressed
//! without touching the buffer. A magnitude of zero denotes a broadcast
//! dimension, which does not move the offset at all; such strides compare
//! equal regardless of direction.

use vstd::prelude::*;

verus! {

/// A per-dimension step: a non-negative magnitude, stepped forwards or
/// backwards through the buffer.
#[derive(Clone, Copy, Debug)]
pub enum Stride {
    Positive(usize),
    Negative(usize),
}

impl Stride {
    /// The step magnitude, regardless of direction.
    pub open spec fn mag(self) -> usize {
        match self {
            Stride::Positive(m) => m,
            Stride::Negative(m) => m,
        }
    }

    /// Whether the stride steps forwards through the buffer.
    pub open spec fn is_positive(self) -> bool {
        self is Positive
    }

    /// The offset contribution of logical index `i` in a dimension of size
    /// `size`: a positive stride advances by `i` steps, a negative stride by
    /// `size - 1 - i` steps.
    pub open spec fn delta(self, i: int, size: int) -> int {
        if self.is_positive() {
            i * self.mag()
        } else {
            (size - 1 - i) * self.mag()
        }
    }

    /// Stride equality as the layout algebra understands it: equal magnitude
    /// and direction, except that magnitude-zero strides are equal across
    /// directions, since a broadcast dimension is directionless.
    pub open spec fn eq_spec(self, other: Stride) -> bool {
        self.mag() == other.mag() && (self.is_positive() == other.is_positive() || self.mag()
            == 0)
    }

    /// Build a stride from a magnitude and a direction.
    pub fn new(magnitude: usize, positive: bool) -> (r: Stride)
        ensures
            r.mag() == magnitude,
            r.is_positive() == positive,
    {
        if positive {
            Stride::Positive(magnitude)
        } else {
            Stride::Negative(magnitude)
        }
    }

    /// The offset contribution of index `i` in a dimension of size `size`.
    pub fn offset(&self, index: usize, size: usize) -> (r: usize)
        requires
            index < size,
            (size - 1) * self.mag() <= usize::MAX,
        ensures
            r == self.delta(index as int, size as int),
            r <= (size - 1) * self.mag(),
    {
        proof {
            vstd::arithmetic::mul::lemma_mul_inequality(
                index as int,
                (size - 1) as int,
                self.mag() as int,
            );
            vstd::arithmetic::mul::lemma_mul_inequality(
                (size - 1 - index) as int,
                (size - 1) as int,
                self.mag() as int,
            );
            vstd::arithmetic::mul::lemma_mul_nonnegative(index as int, self.mag() as int);
            vstd::arithmetic::mul::lemma_mul_nonnegative(
                (size - 1 - index) as int,
                self.mag() as int,
            );
        }
        match self {
            Stride::Positive(m) => index * *m,
            Stride::Negative(m) => (size - 1 - index) * *m,
        }
    }

    /// Scale the magnitude by a positive factor, preserving the direction.
    pub fn scale(self, factor: usize) -> (r: Stride)
        requires
            self.mag() * factor <= usize::MAX,
        ensures
            r.mag() == self.mag() * factor,
            r.is_positive() == self.is_positive(),
    {
        match self {
            Stride::Positive(m) => Stride::Positive(m * factor),
            Stride::Negative(m) => Stride::Negative(m * factor),
        }
    }

    /// The stride with the opposite direction and the same magnitude.
    pub open spec fn flip_spec(self) -> Stride {
        match self {
            Stride::Positive(m) => Stride::Negative(m),
            Stride::Negative(m) => Stride::Positive(m),
        }
    }

    /// Invert the direction, keeping the magnitude.
    pub fn flipped(self) -> (r: Stride)
        ensures
            r == self.flip_spec(),
            r.mag() == self.mag(),
            r.is_positive() == !self.is_positive(),
    {
        match self {
            Stride::Positive(m) => Stride::Negative(m),
            Stride::Negative(m) => Stride::Positive(m),
        }
    }
}

impl PartialEq for Stride {
    /// Magnitude-zero strides are equal regardless of direction.
    fn eq(&self, other: &Stride) -> (r: bool) {
        match (self, other) {
            (Stride::Positive(l), Stride::Positive(r)) => l == r,
            (Stride::Negative(l), Stride::Negative(r)) => l == r,
            (Stride::Positive(l), Stride::Negative(r)) => *l == 0 && *r == 0,
            (Stride::Negative(l), Stride::Positive(r)) => *l == 0 && *r == 0,
        }
    }
}

impl vstd::std_specs::cmp::PartialEqSpecImpl for Stride {
    open spec fn obeys_eq_spec() -> bool {
        true
    }

    open spec fn eq_spec(&self, other: &Stride) -> bool {
        Stride::eq_spec(*self, *other)
    }
}

} // verus!
