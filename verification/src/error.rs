//! The failures that the coordination layer reports to its callers.

use vstd::prelude::*;

verus! {

/// Why an operation of the coordination layer was refused.
#[derive(Debug, Clone, Copy, PartialEq, Eq, Structural)]
pub enum CoordinationError {
    /// A heartbeat or status update named a node that is not in the view.
    UnknownNode,
    /// Routing was attempted while no node was healthy.
    NoHealthyNodes,
    /// A collection of that name is already registered.
    DuplicateCollection,
    /// No collection of that name is registered.
    NotFound,
    /// The length of the query vector differs from the collection's dimension.
    DimensionMismatch,
    /// The query is malformed: its result cap is zero, or a vector search
    /// carries no vector.
    InvalidQuery,
    /// Every shard that was asked failed to answer.
    AllShardsFailed,
}

} // verus!
