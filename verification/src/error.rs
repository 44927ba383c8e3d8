//! Why a description was refused, and where.

use vstd::prelude::*;

verus! {

/// The ways in which a description can be refused. Each kind says what
/// the position of its error points at.
#[derive(Clone, Copy, Debug, PartialEq, Eq, Structural)]
pub enum ErrorKind {
    /// There is no template: the description has no tokens. The position
    /// is 0.
    MissingTemplate,
    /// A fifth section follows the clobbers. The position is that of the
    /// colon that opens it.
    TrailingTokens,
    /// The clobber section is not empty. The position is that of its first
    /// token.
    UnsupportedClobbers,
    /// An operand list holds an item without tokens, or with a name and
    /// nothing else. The position is where the constraint would stand.
    EmptyOperand,
    /// The bracket group in front of an operand does not hold exactly one
    /// identifier. The position is that of the group.
    BadSymbolicName,
    /// The template refers to a name that no operand declares. The
    /// position is 0, where the template starts.
    BadSymbolicReference,
    /// The template section holds a token that is no string literal. The
    /// position is that of the first such token.
    NonLiteralTemplate,
    /// An operand has a token that is no string literal where its
    /// constraint should stand. The position is that of the token.
    NonLiteralConstraint,
}

/// A refusal: its kind, and the index of the token it is about, counted
/// from the start of the token run that was handed to the function that
/// reports it. Where a token is missing, the index is where it would stand.
#[derive(Clone, Copy, Debug, PartialEq, Eq, Structural)]
pub struct SyntaxError {
    pub kind: ErrorKind,
    pub position: usize,
}

impl SyntaxError {
    /// The same error, seen from a run of tokens that starts `by` tokens
    /// earlier.
    pub open spec fn shifted(self, by: int) -> SyntaxError {
        SyntaxError { kind: self.kind, position: (self.position + by) as usize }
    }

    /// Moves the position by `by` tokens.
    pub fn shift(self, by: usize) -> (moved: SyntaxError)
        requires
            self.position + by <= usize::MAX,
        ensures
            moved == self.shifted(by as int),
    {
        SyntaxError { kind: self.kind, position: self.position + by }
    }
}

/// An error of the given kind at the given position.
pub open spec fn error_at(kind: ErrorKind, position: int) -> SyntaxError {
    SyntaxError { kind, position: position as usize }
}

} // verus!
