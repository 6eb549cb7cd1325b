//! Tagged failure values surfaced by the reader, the parser and the writer.

use vstd::prelude::*;

verus! {

/// Why a parse or a render failed.  File input/output failures are the
/// caller's concern; the engine itself only computes.
#[derive(Copy, Clone, PartialEq, Eq, Structural, Debug)]
pub enum MdtError {
    /// The first line is absent or lacks the `(md-decision-trees)` marker.
    MissingHeader,
    /// A bullet's indent is not divisible by the spaces-per-level constant.
    Indentation,
    /// An untyped non-empty line follows a typed line in the same file.
    TypedLockViolation,
    /// A prefix opens like a comparative (`P,` or `C,`) but fails the grammar.
    MalformedComparative,
    /// An integer does not fit the width it must be converted to.
    InternalOverflow,
}

impl MdtError {
    /// The opaque message shown to collaborators: the kind name as a prefix,
    /// then a short description.
    pub fn message(&self) -> (r: String)
        ensures
            *self is MissingHeader ==> r@ == "MissingHeader: first line did not contain (md-decision-trees)"@,
            *self is Indentation ==> r@ == "Indentation: bullet indent is not a multiple of the spaces per level"@,
            *self is TypedLockViolation ==> r@ == "TypedLockViolation: line did not have a NodeType, though previous line did"@,
            *self is MalformedComparative ==> r@ == "MalformedComparative: comparative prefix is syntactically invalid"@,
            *self is InternalOverflow ==> r@ == "InternalOverflow: integer conversion between widths failed"@,
    {
        match self {
            MdtError::MissingHeader => String::from_str(
                "MissingHeader: first line did not contain (md-decision-trees)",
            ),
            MdtError::Indentation => String::from_str(
                "Indentation: bullet indent is not a multiple of the spaces per level",
            ),
            MdtError::TypedLockViolation => String::from_str(
                "TypedLockViolation: line did not have a NodeType, though previous line did",
            ),
            MdtError::MalformedComparative => String::from_str(
                "MalformedComparative: comparative prefix is syntactically invalid",
            ),
            MdtError::InternalOverflow => String::from_str(
                "InternalOverflow: integer conversion between widths failed",
            ),
        }
    }
}

} // verus!
