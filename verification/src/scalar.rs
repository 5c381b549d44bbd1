//! The arithmetic that clustering needs from the element type of a matrix.
//!
//! The operations themselves are not specified: an implementation may be
//! floating-point arithmetic, of which this crate proves nothing. What the
//! crate proves of a computed value it states over the names below, each of
//! which stands for the result of one operation on given operands, and it
//! states it for element types whose operations are functions of their
//! operands (see [`functional`]).
use vstd::prelude::*;

verus! {

/// A numeric element type. Every operation is total.
pub trait Scalar: Copy {
    /// The additive identity.
    fn zero() -> Self;

    /// The value that stands for a count of items.
    fn from_count(n: usize) -> Self;

    /// `self + rhs`.
    fn plus(self, rhs: Self) -> Self;

    /// `self - rhs`.
    fn minus(self, rhs: Self) -> Self;

    /// `self * rhs`.
    fn times(self, rhs: Self) -> Self;

    /// `self / rhs`.
    fn over(self, rhs: Self) -> Self;

    /// `self * self`.
    fn squared(self) -> Self;

    /// The absolute value.
    fn abs(self) -> Self;

    /// The larger of `self` and `rhs`.
    fn max(self, rhs: Self) -> Self;

    /// The square root.
    fn sqrt(self) -> Self;

    /// Whether `self` is strictly below `rhs`.
    fn less_than(self, rhs: Self) -> bool;
}

/// `value` is a result of [`Scalar::zero`].
pub open spec fn is_zero<T: Scalar>(value: T) -> bool {
    call_ensures(T::zero, (), value)
}

/// The result of [`Scalar::zero`].
pub open spec fn zero<T: Scalar>() -> T {
    choose|r: T| call_ensures(T::zero, (), r)
}

/// The result of [`Scalar::from_count`].
pub open spec fn count<T: Scalar>(n: usize) -> T {
    choose|r: T| call_ensures(T::from_count, (n,), r)
}

/// The result of [`Scalar::plus`].
pub open spec fn sum<T: Scalar>(a: T, b: T) -> T {
    choose|r: T| call_ensures(T::plus, (a, b), r)
}

/// The result of [`Scalar::minus`].
pub open spec fn difference<T: Scalar>(a: T, b: T) -> T {
    choose|r: T| call_ensures(T::minus, (a, b), r)
}

/// The result of [`Scalar::times`].
pub open spec fn product<T: Scalar>(a: T, b: T) -> T {
    choose|r: T| call_ensures(T::times, (a, b), r)
}

/// The result of [`Scalar::over`].
pub open spec fn quotient<T: Scalar>(a: T, b: T) -> T {
    choose|r: T| call_ensures(T::over, (a, b), r)
}

/// The result of [`Scalar::squared`].
pub open spec fn square<T: Scalar>(a: T) -> T {
    choose|r: T| call_ensures(T::squared, (a,), r)
}

/// The result of [`Scalar::abs`].
pub open spec fn magnitude<T: Scalar>(a: T) -> T {
    choose|r: T| call_ensures(T::abs, (a,), r)
}

/// The result of [`Scalar::max`].
pub open spec fn larger<T: Scalar>(a: T, b: T) -> T {
    choose|r: T| call_ensures(T::max, (a, b), r)
}

/// The result of [`Scalar::sqrt`].
pub open spec fn root<T: Scalar>(a: T) -> T {
    choose|r: T| call_ensures(T::sqrt, (a,), r)
}

/// The result of [`Scalar::less_than`].
pub open spec fn below<T: Scalar>(a: T, b: T) -> bool {
    choose|r: bool| call_ensures(T::less_than, (a, b), r)
}

/// Every operation of `T` is a function of its operands: on the same
/// operands it has the same result, whenever it is called.
pub open spec fn functional<T: Scalar>() -> bool {
    &&& forall|r: T, s: T| call_ensures(T::zero, (), r) && call_ensures(T::zero, (), s) ==> r == s
    &&& forall|n: usize, r: T, s: T|
        call_ensures(T::from_count, (n,), r) && call_ensures(T::from_count, (n,), s) ==> r == s
    &&& forall|a: T, b: T, r: T, s: T|
        call_ensures(T::plus, (a, b), r) && call_ensures(T::plus, (a, b), s) ==> r == s
    &&& forall|a: T, b: T, r: T, s: T|
        call_ensures(T::minus, (a, b), r) && call_ensures(T::minus, (a, b), s) ==> r == s
    &&& forall|a: T, b: T, r: T, s: T|
        call_ensures(T::times, (a, b), r) && call_ensures(T::times, (a, b), s) ==> r == s
    &&& forall|a: T, b: T, r: T, s: T|
        call_ensures(T::over, (a, b), r) && call_ensures(T::over, (a, b), s) ==> r == s
    &&& forall|a: T, r: T, s: T|
        call_ensures(T::squared, (a,), r) && call_ensures(T::squared, (a,), s) ==> r == s
    &&& forall|a: T, r: T, s: T|
        call_ensures(T::abs, (a,), r) && call_ensures(T::abs, (a,), s) ==> r == s
    &&& forall|a: T, b: T, r: T, s: T|
        call_ensures(T::max, (a, b), r) && call_ensures(T::max, (a, b), s) ==> r == s
    &&& forall|a: T, r: T, s: T|
        call_ensures(T::sqrt, (a,), r) && call_ensures(T::sqrt, (a,), s) ==> r == s
    &&& forall|a: T, b: T, r: bool, s: bool|
        call_ensures(T::less_than, (a, b), r) && call_ensures(T::less_than, (a, b), s) ==> r == s
}

} // verus!
