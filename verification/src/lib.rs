//! A persistent spatial store for a voxel world.
//!
//! The library maps three-dimensional chunk coordinates (one signed 16-bit
//! integer per axis) to fixed-size binary payloads of block identifiers.  A
//! Morton (Z-order) key encoder turns a coordinate into a single 64-bit key
//! whose bit pattern preserves spatial locality; a radix tree of fixed-size
//! index nodes, laid out over the bytes of an index file, maps each key to an
//! offset in a chunk-payload file.  The byte images of both files are held and
//! manipulated in memory here; reading them from disk and writing them back is
//! left to the embedding application.
//!
//! Alongside the store live the small registries and value types of the
//! surrounding world model: block and material registries, chunk payload
//! containers, and simulation time stamps.

pub mod blocks;
pub mod bytes;
pub mod chunk_data;
pub mod codec;
pub mod coordinates;
pub mod inventory;
pub mod node;
pub mod payload;
pub mod scheduler;
pub mod store;
pub mod time;
