//! Errors of decoding.
use vstd::prelude::*;

verus! {

/// Decode error types.
#[derive(Clone, Copy, Debug, PartialEq, Eq, Structural)]
pub enum DecodeError {
    InvalidLength,
    Uncorrectable,
}

} // verus!
