//! Sparse voxel octrees and nearest-hit ray casting against placed voxel volumes.
pub mod voxel_model;
pub mod ray_queries;
pub mod slab_laws;
pub mod hit_laws;
pub mod rendering;
pub mod loaders;
