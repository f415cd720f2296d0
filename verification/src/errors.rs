//! The typed errors of the layout engine. Structural operations validate
//! before mutating, so a returned error always leaves the tree unchanged.

use vstd::prelude::*;

verus! {

/// Everything a structural or geometry operation can refuse.
#[derive(Clone, Copy, Debug, PartialEq, Eq, Structural)]
pub enum LayoutError {
    /// An insertion index exceeds the current child count.
    InvalidIndex,
    /// A resize would drive a sibling's fraction below zero or above one.
    InsufficientSpace,
    /// An explicit size fraction exceeds one whole.
    InvalidFraction,
    /// The target container cannot hold tiling children of the given kind.
    NotTilingCapable,
    /// No container with the given identifier exists in the tree.
    NotFound,
    /// The named container is not a direct child of the given parent.
    NotAChild,
    /// The root has no derivable pixel geometry.
    RootHasNoGeometry,
    /// A container already holds the maximum number of direct children.
    CapacityExceeded,
    /// A rectangle or gap delta lies outside the accepted pixel range.
    InvalidGeometry,
    /// The named container exists but is not of the kind the operation
    /// expects.
    KindMismatch,
}

} // verus!
