use vstd::prelude::*;

verus! {

/// Why a request on a tree was turned down. The tree is left as it was.
#[derive(Clone, Copy, Debug, PartialEq, Eq, Structural)]
pub enum TreeError {
    /// The path does not have the length that the operation asks for.
    InvalidPathLength,
    /// No leaf is stored under the path.
    MissingOrWrongVariant,
}

} // verus!
