//! The two failures that abort an analysis; an unresolved dependency is
//! not one of them.

use vstd::prelude::*;

verus! {

/// The bytes handed to the metadata extractor were not a well-formed binary
/// of the expected object format.
#[derive(Clone, Copy, Debug, PartialEq, Eq, Structural)]
pub struct ParseError;

/// A failure that aborts a whole analysis: either a file could not be read,
/// or a file that was read did not parse as a binary of the expected format.
/// An unresolved dependency is not an error; it is recorded in the tree.
#[derive(Clone, Copy, Debug, PartialEq, Eq, Structural)]
pub enum AnalyzeError {
    IoError,
    ParseError,
}

} // verus!
