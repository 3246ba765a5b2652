//! The error type that nodes and the engine raise.
use vstd::prelude::*;

verus! {

/// `std::io::Error`, carried opaquely inside [`CoreError::Io`].
#[verifier::external_type_specification]
#[verifier::external_body]
pub struct ExIoError(std::io::Error);

/// An error raised by a node or by the engine. Node failures are recorded by
/// the executor and do not stop a graph run; this is what a single node or the
/// engine itself reports.
#[derive(Debug)]
pub enum CoreError {
    Io(std::io::Error),
    Unsupported(String),
    Parse(String),
    Type(String),
    Graph(String),
    MissingInput(String),
    NodeNotFound(String),
    BudgetExceeded(String),
    Cancelled,
    Other(String),
}

impl CoreError {
    /// The message of a variant that carries one (all but `Io` and `Cancelled`).
    pub open spec fn message(&self) -> Option<Seq<char>> {
        match self {
            CoreError::Unsupported(s) => Some(s@),
            CoreError::Parse(s) => Some(s@),
            CoreError::Type(s) => Some(s@),
            CoreError::Graph(s) => Some(s@),
            CoreError::MissingInput(s) => Some(s@),
            CoreError::NodeNotFound(s) => Some(s@),
            CoreError::BudgetExceeded(s) => Some(s@),
            CoreError::Other(s) => Some(s@),
            _ => None,
        }
    }

    /// Whether this is a `Parse` error with the given message.
    pub open spec fn is_parse_with(&self, msg: Seq<char>) -> bool {
        &&& self is Parse
        &&& self.message() == Some(msg)
    }
}

} // verus!
