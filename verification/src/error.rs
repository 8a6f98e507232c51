//! The ways in which a transformation fails.

use vstd::prelude::*;

verus! {

/// Why a transformation gave no result.
#[derive(Debug, Clone, Copy, PartialEq, Eq, Structural)]
pub enum TransformError {
    /// The input was empty, or held white space only.
    EmptyInput,
    /// The input is too long for the parser, or gave no tree that the
    /// document model can hold.
    ParseError,
    /// The document has no body element.
    BodyNotFound,
    /// A tree broke the invariant of the document model, and cannot be
    /// written as markup.
    SerializationError,
}

} // verus!
