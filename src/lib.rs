//! Reading IDX tensor files and assembling classification samples from them.
use vstd::prelude::*;

pub mod idx;
pub mod image;
pub mod shape;

pub use crate::image::Image;

verus! {

/// Why a tensor could not be decoded or a sample could not be formed.
#[derive(Debug, Clone, Copy, PartialEq, Eq, Structural)]
pub enum Error {
    /// A length or shape does not match what the operation needs, or a value
    /// is not of the expected kind.
    WrongSize,
    /// The stream ends before the header or the payload is complete.
    Truncated,
    /// The header names an element encoding that is not supported.
    UnknownType,
    /// A dimension size in the header is negative.
    NegativeSize,
}

} // verus!
