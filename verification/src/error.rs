//! Why an input is refused.

use vstd::prelude::*;

verus! {

/// What is wrong with a line.
#[derive(Clone, Copy, Debug, PartialEq, Eq)]
pub enum ParseError {
    /// The line holds no `;`.
    MissingSeparator,
    /// The value field is not a decimal number.
    InvalidNumber,
}

/// The first line that is refused, counted from one, and what is wrong
/// with it.
#[derive(Clone, Copy, Debug, PartialEq, Eq)]
pub struct InputError {
    pub line: usize,
    pub kind: ParseError,
}

} // verus!
