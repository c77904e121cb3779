//! The library's error type.

use vstd::prelude::*;

verus! {

/// Error type for the library's operations.
#[derive(Debug)]
pub enum CometError {
    /// A space-id string could not be parsed into a [`crate::space::SpaceId`].
    SpaceParse {
        /// The offending input string.
        input: String,
        /// Why parsing failed.
        reason: String,
    },
    /// A `block_layouts.csv` row was malformed or internally inconsistent.
    Block {
        /// The block id (or raw row) at fault.
        id: String,
        /// Why the block was rejected.
        reason: String,
    },
    /// A `hall_distances.csv` cell could not be parsed as a number.
    HallDistance(String),
    /// A want-list entry referenced a space absent from the layout artifact.
    WantNotFound(String),
    /// The requested `--start` space was not present in the want-list.
    StartNotFound(String),
}

} // verus!
