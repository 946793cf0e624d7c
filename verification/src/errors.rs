//! The error type shared by the lexer and the parser.
//!
//! Compilation stops at the first error. An error either points at the
//! offending position in the source (so a caller can render a caret
//! diagnostic) or reports that the token stream ended while a construct was
//! still open.

use crate::lexer::Symbol;
use vstd::prelude::*;

verus! {

/// The first error found while lexing or parsing.
#[derive(PartialEq, Eq, Structural, Clone, Copy, Debug)]
pub enum CompileError {
    /// A character or token that cannot start or continue any construct, at
    /// this byte position of the source.
    InvalidToken { location: usize },
    /// A token other than the required symbol, at this byte position.
    UnexpectedToken { expected: Symbol, location: usize },
    /// The input ended where the given symbol was required.
    UnexpectedEndExpecting { expected: Symbol },
    /// The input ended where an expression was required.
    UnexpectedEnd,
    /// An assignment whose left-hand side is not a local variable. The
    /// parser admits such trees; the emitter refuses them.
    InvalidAssignTarget,
}

} // verus!
