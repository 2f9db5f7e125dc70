//! The ways in which reading or writing a field can fail.

use vstd::prelude::*;

verus! {

/// Why a read or a write did not take place.
#[derive(Debug, Clone, Copy, PartialEq, Eq, Structural)]
pub enum StreamError {
    /// The source ran out of bytes before the field was complete.
    UnexpectedEof,
    /// The field is wider than the integer type it is read into or written
    /// from, or the value written does not fit in the field.
    InvalidInput,
}

impl StreamError {
    /// A short description of the failure.
    pub fn description(&self) -> (r: &'static str)
        ensures
            r@ == (match *self {
                StreamError::UnexpectedEof => "unexpected end of data"@,
                StreamError::InvalidInput => "excessive bits or value for type"@,
            }),
    {
        match self {
            StreamError::UnexpectedEof => "unexpected end of data",
            StreamError::InvalidInput => "excessive bits or value for type",
        }
    }
}

} // verus!
