//! Marker types for the surrounding engine layer. The renderer that
//! consumes the octree tags its scene objects with these empty types;
//! the library stores nothing in them and attaches no behaviour, so
//! the engine-side trait implementations live with the engine code.

use vstd::prelude::*;

verus! {

/// Tags the primary camera entity that the octree is rendered for.
pub struct MainTag;

/// Tags the currently active voxel map.
pub struct Active;

/// The engine registration point for the input-handling layer.
pub struct InputPlugin;

/// The engine registration point for the geometry layer that feeds
/// voxel batches to the builder.
pub struct GeomPlugin;

} // verus!
