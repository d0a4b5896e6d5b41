//! Errors raised while building a dataset.
use vstd::prelude::*;

verus! {

/// Dataset error types.
#[derive(Debug, Clone, Copy, PartialEq, Eq, Structural)]
pub enum DatasetError {
    /// Can't find the home directory.
    NoHomeDir,
    /// No interactions were supplied, so the id bounds are undefined.
    EmptyDataset,
    /// A user or item id is too large for its bound `id + 1` to be represented.
    IdOverflow,
}

} // verus!
