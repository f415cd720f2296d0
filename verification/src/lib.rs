//! Core engine of a tiling window manager: the container tree (root,
//! monitors, workspaces, splits, windows), size-fraction bookkeeping for
//! tiling children, derived pixel geometry, traversal producers, and the
//! event model that reports completed mutations to observers.

pub mod errors;
pub mod geometry;
pub mod fractions;
pub mod container;
pub mod tree;
pub mod traversal;
pub mod position;
pub mod events;
pub mod tray;
