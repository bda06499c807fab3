//! The core of a voxel world: dense block storage in chunks, face meshing of
//! chunks, selection of the block under a targeting ray, and streaming of the
//! chunks around an observer.
pub mod block;
pub mod buffer;
pub mod face;
pub mod mesh;
pub mod raycast;
pub mod streaming;
pub mod world;
