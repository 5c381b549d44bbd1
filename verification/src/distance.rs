//! Distances between two vectors.
use crate::error::ClusterError;
use crate::scalar::{difference, functional, larger, magnitude, square, sum, zero, Scalar};
use vstd::prelude::*;

verus! {

/// The distance to cluster by.
#[derive(Debug, Clone, Copy)]
pub enum DistanceMetric {
    /// The sum of the squared differences, see [`euclidean`].
    Euclidean,
    /// The largest absolute difference, see [`chebyshev`].
    Chebyshev,
}

/// The shorter of two lengths.
pub open spec fn shorter(a: int, b: int) -> int {
    if a <= b {
        a
    } else {
        b
    }
}

/// Sum of the squared differences of the first `n` components, added up
/// from the first component on, starting at zero.
pub open spec fn squares_upto<T: Scalar>(left: Seq<T>, right: Seq<T>, n: int) -> T
    decreases n,
{
    if n <= 0 {
        zero::<T>()
    } else {
        sum(squares_upto(left, right, n - 1), square(difference(left[n - 1], right[n - 1])))
    }
}

/// Largest absolute difference among the first `n` components, taken from
/// the first component on, starting at zero.
pub open spec fn largest_upto<T: Scalar>(left: Seq<T>, right: Seq<T>, n: int) -> T
    decreases n,
{
    if n <= 0 {
        zero::<T>()
    } else {
        larger(largest_upto(left, right, n - 1), magnitude(difference(left[n - 1], right[n - 1])))
    }
}

/// Squared Euclidean distance: the sum of the squared differences. No root
/// is taken.
pub open spec fn euclidean<T: Scalar>(left: Seq<T>, right: Seq<T>) -> T {
    squares_upto(left, right, shorter(left.len() as int, right.len() as int))
}

/// Chebyshev distance: the largest absolute difference.
pub open spec fn chebyshev<T: Scalar>(left: Seq<T>, right: Seq<T>) -> T {
    largest_upto(left, right, shorter(left.len() as int, right.len() as int))
}

/// A distance between vectors of equal length.
pub trait Distance<T: Scalar> {
    /// The distance between `left` and `right`.
    spec fn value(&self, left: Seq<T>, right: Seq<T>) -> T;

    /// The distance between two vectors, or `LengthMismatch` with both
    /// lengths when they differ in length.
    fn distance(&self, left: &[T], right: &[T]) -> (result: Result<T, ClusterError>)
        ensures
            left@.len() != right@.len() ==> result == Err::<T, ClusterError>(
                ClusterError::LengthMismatch { left: left.len(), right: right.len() },
            ),
            left@.len() == right@.len() ==> result is Ok,
            left@.len() == right@.len() && functional::<T>() ==> result == Ok::<T, ClusterError>(
                self.value(left@, right@),
            ),
    {
        if left.len() != right.len() {
            Err(ClusterError::LengthMismatch { left: left.len(), right: right.len() })
        } else {
            Ok(self.compute(left, right))
        }
    }

    /// The distance over the components that both vectors have.
    fn compute(&self, left: &[T], right: &[T]) -> (value: T)
        ensures
            functional::<T>() ==> value == self.value(left@, right@),
    ;
}

/// Squared Euclidean distance, see [`euclidean`].
pub struct Euclidean;

impl<T: Scalar> Distance<T> for Euclidean {
    open spec fn value(&self, left: Seq<T>, right: Seq<T>) -> T {
        euclidean(left, right)
    }

    fn compute(&self, left: &[T], right: &[T]) -> (value: T) {
        let n = if left.len() <= right.len() {
            left.len()
        } else {
            right.len()
        };
        let mut total = T::zero();
        let mut k: usize = 0;
        while k < n
            invariant
                k <= n,
                n == shorter(left@.len() as int, right@.len() as int),
                functional::<T>() ==> total == squares_upto(left@, right@, k as int),
            decreases n - k,
        {
            total = total.plus(left[k].minus(right[k]).squared());
            k += 1;
        }
        total
    }
}

/// Chebyshev distance, see [`chebyshev`].
pub struct Chebyshev;

impl<T: Scalar> Distance<T> for Chebyshev {
    open spec fn value(&self, left: Seq<T>, right: Seq<T>) -> T {
        chebyshev(left, right)
    }

    fn compute(&self, left: &[T], right: &[T]) -> (value: T) {
        let n = if left.len() <= right.len() {
            left.len()
        } else {
            right.len()
        };
        let mut max_diff = T::zero();
        let mut k: usize = 0;
        while k < n
            invariant
                k <= n,
                n == shorter(left@.len() as int, right@.len() as int),
                functional::<T>() ==> max_diff == largest_upto(left@, right@, k as int),
            decreases n - k,
        {
            max_diff = max_diff.max(left[k].minus(right[k]).abs());
            k += 1;
        }
        max_diff
    }
}

impl DistanceMetric {
    /// The distance that this metric gives between `left` and `right`.
    pub open spec fn value<T: Scalar>(self, left: Seq<T>, right: Seq<T>) -> T {
        match self {
            DistanceMetric::Euclidean => euclidean(left, right),
            DistanceMetric::Chebyshev => chebyshev(left, right),
        }
    }

    /// The distance between two vectors, or `LengthMismatch` with both
    /// lengths when they differ in length.
    pub fn compute<T: Scalar>(&self, left: &[T], right: &[T]) -> (result: Result<T, ClusterError>)
        ensures
            left@.len() != right@.len() ==> result == Err::<T, ClusterError>(
                ClusterError::LengthMismatch { left: left.len(), right: right.len() },
            ),
            left@.len() == right@.len() ==> result is Ok,
            left@.len() == right@.len() && functional::<T>() ==> result == Ok::<T, ClusterError>(
                self.value(left@, right@),
            ),
    {
        match self {
            DistanceMetric::Euclidean => Euclidean.distance(left, right),
            DistanceMetric::Chebyshev => Chebyshev.distance(left, right),
        }
    }
}

/// The distance from a vector to itself is zero, for either metric, when
/// the arithmetic of the element type has these properties: a component
/// minus itself is zero, and the square and the absolute value of zero, zero
/// plus zero and the larger of zero and zero are zero.
pub proof fn lemma_distance_to_self<T: Scalar>(metric: DistanceMetric, a: Seq<T>)
    requires
        forall|i: int| 0 <= i < a.len() ==> difference(#[trigger] a[i], a[i]) == zero::<T>(),
        square(zero::<T>()) == zero::<T>(),
        magnitude(zero::<T>()) == zero::<T>(),
        sum(zero::<T>(), zero::<T>()) == zero::<T>(),
        larger(zero::<T>(), zero::<T>()) == zero::<T>(),
    ensures
        metric.value(a, a) == zero::<T>(),
{
    lemma_upto_self(a, a.len() as int);
}

proof fn lemma_upto_self<T: Scalar>(a: Seq<T>, n: int)
    requires
        n <= a.len(),
        forall|i: int| 0 <= i < a.len() ==> difference(#[trigger] a[i], a[i]) == zero::<T>(),
        square(zero::<T>()) == zero::<T>(),
        magnitude(zero::<T>()) == zero::<T>(),
        sum(zero::<T>(), zero::<T>()) == zero::<T>(),
        larger(zero::<T>(), zero::<T>()) == zero::<T>(),
    ensures
        squares_upto(a, a, n) == zero::<T>(),
        largest_upto(a, a, n) == zero::<T>(),
    decreases n,
{
    if n > 0 {
        lemma_upto_self(a, n - 1);
    }
}

/// Either distance is the same in both directions, for vectors of equal
/// length, when the square and the absolute value of a difference do not
/// depend on the order of its operands.
pub proof fn lemma_distance_symmetric<T: Scalar>(metric: DistanceMetric, a: Seq<T>, b: Seq<T>)
    requires
        a.len() == b.len(),
        forall|i: int|
            0 <= i < a.len() ==> square(#[trigger] difference(a[i], b[i])) == square(
                difference(b[i], a[i]),
            ),
        forall|i: int|
            0 <= i < a.len() ==> magnitude(#[trigger] difference(a[i], b[i])) == magnitude(
                difference(b[i], a[i]),
            ),
    ensures
        metric.value(a, b) == metric.value(b, a),
{
    lemma_upto_symmetric(a, b, a.len() as int);
}

proof fn lemma_upto_symmetric<T: Scalar>(a: Seq<T>, b: Seq<T>, n: int)
    requires
        a.len() == b.len(),
        n <= a.len(),
        forall|i: int|
            0 <= i < a.len() ==> square(#[trigger] difference(a[i], b[i])) == square(
                difference(b[i], a[i]),
            ),
        forall|i: int|
            0 <= i < a.len() ==> magnitude(#[trigger] difference(a[i], b[i])) == magnitude(
                difference(b[i], a[i]),
            ),
    ensures
        squares_upto(a, b, n) == squares_upto(b, a, n),
        largest_upto(a, b, n) == largest_upto(b, a, n),
    decreases n,
{
    if n > 0 {
        lemma_upto_symmetric(a, b, n - 1);
    }
}

} // verus!
