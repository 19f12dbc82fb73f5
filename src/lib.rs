//! A moving window of procedurally generated voxel chunks around an observer.
//!
//! The window is tracked by a sparse octree over chunk coordinates; the world
//! cache keeps its resident chunks consistent with the octree's sphere as the
//! observer moves.
pub mod chunk;
pub mod coord;
pub mod spatial_octree;
pub mod sparse_spatial_octree;
pub mod world;

pub use chunk::Chunk;
pub use coord::IVec3;
pub use sparse_spatial_octree::{SparseSpatialOctree, SparseSpatialOctreeNode};
pub use spatial_octree::{SpatialOctree, SpatialOctreeNode};
pub use world::World;
