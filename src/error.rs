use vstd::prelude::*;

verus! {

/// Why a tree could not be built.
#[derive(Debug, Clone, Copy, PartialEq, Eq, Structural)]
pub enum TreeError {
    /// No record of depth zero was seen.
    MissingRoot,
    /// A record's parent path could not be computed, or names no known directory.
    ExpectedParent,
}

} // verus!
