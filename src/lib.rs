//! Storage and reshaping of timestamped user-item interactions for
//! recommender training: an insertion-ordered store, a per-user
//! chronological index, a flat parallel-array form with minibatch
//! windows, and train/test splitting.
use vstd::prelude::*;

pub mod data;
pub mod datasets;

verus! {

/// Alias for user indices.
pub type UserId = usize;

/// Alias for item indices.
pub type ItemId = usize;

/// Alias for timestamps.
pub type Timestamp = usize;

/// Prediction error types.
#[derive(Debug, Clone, Copy, PartialEq, Eq, Structural)]
pub enum PredictionError {
    /// Failed prediction due to numerical issues.
    InvalidPredictionValue,
}

/// Fitting error types.
#[derive(Debug, Clone, Copy, PartialEq, Eq, Structural)]
pub enum FittingError {
    /// No interactions were given.
    NoInteractions,
}

} // verus!
