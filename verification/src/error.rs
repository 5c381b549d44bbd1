//! What a clustering call can fail with.
use vstd::prelude::*;

verus! {

/// The ways in which an input is rejected.
#[derive(Debug, Clone, Copy, PartialEq, Eq)]
pub enum ClusterError {
    /// Two vectors that were to be compared differ in length.
    LengthMismatch { left: usize, right: usize },
    /// A buffer does not have the length that its shape asks for, or an
    /// order does not have the length of its axis or names an item that the
    /// axis does not have.
    InvalidShape,
}

} // verus!
