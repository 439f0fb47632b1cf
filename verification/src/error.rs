//! The error taxonomy of the tree core.

use vstd::prelude::*;

verus! {

/// Why a tree operation or a layout computation failed.
#[derive(Clone, Copy, Debug, PartialEq, Eq, Structural)]
pub enum TreeError {
    /// The handle refers to no live node: it is stale or was never issued.
    NotFound,
    /// A child-index operation lay outside the valid range.
    IndexOutOfBounds,
    /// The operation would create a cycle or otherwise break the tree shape,
    /// such as attaching a node that already has a parent.
    InvalidHierarchy,
    /// A layout was requested for a node that no successful layout
    /// computation has covered yet.
    NotComputed,
    /// The measure capability returned no usable size for a leaf.
    MeasurementFailed,
    /// The layout algorithm returned no box, a box out of range, or child
    /// positions that do not match the child count; the whole call aborted.
    LayoutFailed,
}

} // verus!
