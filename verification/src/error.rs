//! The error reported by the functions of this crate.

use vstd::prelude::*;

verus! {

/// Why a function refused its input.
#[derive(Clone, Copy, Debug, PartialEq, Eq, Structural)]
pub enum NumberError {
    /// The argument lies outside the domain of the function: a negative
    /// factorial argument, a square root of zero, a series of zero terms, or
    /// the reciprocal of zero.
    InvalidArgument,
}

impl NumberError {
    /// A short description of the error.
    pub fn message(&self) -> (text: &'static str)
        ensures
            text@ == "invalid argument"@,
    {
        match self {
            NumberError::InvalidArgument => "invalid argument",
        }
    }
}

} // verus!
