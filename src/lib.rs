//! Procedural voxel terrain compacted into sparse voxel octrees.
//!
//! Chunks of terrain are generated from per-column heights (`chunk`), their voxels are
//! indexed in a sparse octree (`octree`), the octree is flattened breadth first into
//! records a GPU kernel can walk by index arithmetic (`flatten`), and rays are intersected
//! with the scene's voxels by an exact slab test (`cube`, `scene`).

pub mod chunk;
pub mod color;
pub mod cube;
pub mod flatten;
pub mod octree;
pub mod render_image;
pub mod scene;
