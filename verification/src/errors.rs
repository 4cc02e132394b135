//! The error taxonomy of the interpreter. The first error halts execution;
//! the embedding program reports it together with the current commit identity.

use vstd::prelude::*;

verus! {

/// Everything that can go wrong while parsing or executing an instruction,
/// or while walking the commit graph.
#[derive(Debug, Clone, Copy)]
pub enum Error {
    /// Malformed instruction text or operand token.
    Parse,
    /// A variable path resolved to nothing.
    UndefinedSymbol,
    /// A variable path traversed a value that is not a table.
    NotATable,
    /// An arithmetic or comparison instruction was given a non-integer operand.
    TypeMismatch,
    /// Division or modulo by zero.
    ArithmeticError,
    /// A `branch` tag shares no ancestor with the current node's children.
    BranchTargetNotFound,
    /// A non-terminal commit has no children to continue with.
    NoSuccessor,
    /// A redirection chain did not reach a fixed point within the cap.
    RedirectLoop,
    /// Reading a line of input failed.
    IoError,
    /// A required reference (such as the start or end tag) is absent.
    MissingRef,
}

impl Error {
    /// A short stable name for the error, for diagnostics outside the library.
    pub fn describe(&self) -> (r: &'static str) {
        match self {
            Error::Parse => "syntax error",
            Error::UndefinedSymbol => "undefined symbol",
            Error::NotATable => "tried to access non-table as table",
            Error::TypeMismatch => "invalid args",
            Error::ArithmeticError => "division by zero",
            Error::BranchTargetNotFound => "branch: failed to find target",
            Error::NoSuccessor => "failed to find child to continue",
            Error::RedirectLoop => "replacement references form a loop",
            Error::IoError => "input failed",
            Error::MissingRef => "missing reference",
        }
    }
}

} // verus!
