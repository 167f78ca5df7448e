//! Sparse voxel octree construction over Morton-ordered leaf voxels.
//!
//! The crate builds, from a batch of `(coordinate, metadata)` leaf records,
//! a compact linear array of octree nodes in which empty and uniform
//! regions are collapsed, together with an alternate bit-packed encoding
//! for forward-offset traversal.

pub mod buffer;
pub mod builder;
pub mod laws;
pub mod layout;
pub mod markers;
pub mod model;
pub mod morton;
pub mod node;
pub mod octree;
pub mod tree;
