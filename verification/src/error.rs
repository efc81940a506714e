//! The errors of the lexical and syntax layers.

use vstd::prelude::*;

use crate::lexical::LexicalError;
use crate::lexical::Location;

verus! {

#[derive(Debug, Clone, Copy, PartialEq, Eq)]
pub enum SyntaxError {
    /// A token that cannot start an operand stands where one is expected.
    ExpectedOperand { location: Location },
    /// The text ends where an operand is expected.
    UnexpectedEnd,
}

#[derive(Debug, Clone, Copy, PartialEq, Eq)]
pub enum Error {
    Lexical(LexicalError),
    Syntax(SyntaxError),
}

} // verus!
