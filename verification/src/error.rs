//! The error conditions surfaced by the tiling core.
//!
//! Rendering and file I/O belong to an external collaborator; their failures
//! are not represented here.

use vstd::prelude::*;

verus! {

/// An enum that captures all possible error conditions of this crate.
#[derive(Clone, Debug, PartialEq, Eq)]
pub enum Error {
    /// An out of bounds index was accessed in a data structure.
    /// Carries the offending index, the collection's length, and a label
    /// identifying which collection.
    OutOfBounds { index: usize, length: usize, name: String },
    /// User-provided shape parameters were invalid.
    InvalidShape,
    /// User-provided color parameters were invalid.
    InvalidColor,
}

} // verus!
