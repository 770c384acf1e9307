//! The failures that term construction and parsing report.

use vstd::prelude::*;

verus! {

/// Why a parse or a construction failed.
#[derive(Debug, Clone, Copy, PartialEq, Eq, Hash, Structural)]
pub enum ErrorKind {
    /// A matched span that has to be text is not valid UTF-8.
    InvalidUtf8,
    /// A literal was opened with `"` and the input ended before the closing `"`.
    UnterminatedLiteral,
    /// An IRI reference was opened with `<` and the input ended before the closing `>`.
    UnterminatedIri,
    /// The byte at the cursor begins nothing that the grammar allows there.
    UnexpectedToken,
    /// A language tag together with a datatype other than `rdf:langString`.
    ConflictingLiteralTag,
    /// The input ended where the grammar needs more bytes.
    IncompleteInput,
}

/// A failure at a byte offset of the input that was handed to the failing function.
#[derive(Debug, Clone, Copy, PartialEq, Eq, Hash, Structural)]
pub struct ParseError {
    pub kind: ErrorKind,
    pub offset: usize,
}

/// A failure as the grammar describes it, with an unbounded offset.
pub struct Failure {
    pub kind: ErrorKind,
    pub offset: int,
}

impl View for ParseError {
    type V = Failure;

    open spec fn view(&self) -> Failure {
        Failure { kind: self.kind, offset: self.offset as int }
    }
}

impl Failure {
    /// The same failure seen from `by` bytes further left.
    pub open spec fn shifted(self, by: int) -> Failure {
        Failure { kind: self.kind, offset: self.offset + by }
    }
}

impl ParseError {
    /// A failure of the given kind at `offset`.
    pub fn new(kind: ErrorKind, offset: usize) -> (e: ParseError)
        ensures
            e.kind == kind,
            e.offset == offset,
    {
        ParseError { kind, offset }
    }

    /// The same failure, reported against an input that begins `by` bytes earlier.
    pub fn shifted(self, by: usize) -> (e: ParseError)
        requires
            self.offset + by <= usize::MAX,
        ensures
            e@ == self@.shifted(by as int),
    {
        ParseError { kind: self.kind, offset: self.offset + by }
    }
}

} // verus!
