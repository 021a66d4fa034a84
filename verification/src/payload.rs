//! The in-memory payload of one terrain chunk.
//!
//! A chunk is a cube of [`CHUNK_DIAMETER`]³ blocks; each block is an opaque
//! 16-bit identifier with zero meaning "no block".  A payload holds the block
//! array of one chunk together with the coordinate it belongs to and the byte
//! offset of its backing region in the chunk-payload file.  Payloads are
//! created by the store, either freshly zeroed or filled from the file image,
//! and written back with the store's save operation.

use vstd::prelude::*;

verus! {

/// The edge length of a chunk in blocks.
pub const CHUNK_DIAMETER: usize = 16;

/// The number of blocks in one chunk.
pub const CHUNK_VOLUME: usize = 4096;

/// The length in bytes of one chunk record: two bytes per block.
pub const CHUNK_LENGTH: usize = 8192;

/// The raw data for a chunk's terrain.
pub struct TerrainChunkData {
    storage: Vec<u16>,
    address: usize,
    x: i16,
    y: i16,
    z: i16,
}

impl TerrainChunkData {
    /// The block array as a mathematical sequence.
    pub closed spec fn blocks(self) -> Seq<u16> {
        self.storage@
    }

    /// A payload always holds exactly one chunk's worth of blocks.
    pub open spec fn wf(self) -> bool {
        self.blocks().len() == CHUNK_VOLUME
    }

    /// The byte offset of this chunk's backing region in the chunk file.
    pub closed spec fn spec_address(self) -> int {
        self.address as int
    }

    /// The chunk coordinate this payload belongs to.
    pub closed spec fn spec_coords(self) -> (i16, i16, i16) {
        (self.x, self.y, self.z)
    }

    /// Creates an all-zero payload for the chunk at the given coordinate,
    /// backed by the file region at `address`.
    pub(crate) fn create(x: i16, y: i16, z: i16, address: usize) -> (c: TerrainChunkData)
        ensures
            c.wf(),
            c.blocks() == Seq::new(CHUNK_VOLUME as nat, |i: int| 0u16),
            c.spec_address() == address,
            c.spec_coords() == (x, y, z),
    {
        let mut storage: Vec<u16> = Vec::new();
        while storage.len() < CHUNK_VOLUME
            invariant
                storage@.len() <= CHUNK_VOLUME,
                forall|i: int| 0 <= i < storage@.len() ==> storage@[i] == 0u16,
            decreases CHUNK_VOLUME - storage@.len(),
        {
            storage.push(0u16);
        }
        proof {
            assert(storage@ =~= Seq::new(CHUNK_VOLUME as nat, |i: int| 0u16));
        }
        TerrainChunkData { storage, address, x, y, z }
    }

    /// Gets the index of this chunk.
    pub fn get_index(&self) -> (r: (i16, i16, i16))
        ensures
            r == self.spec_coords(),
    {
        (self.x, self.y, self.z)
    }

    /// Gets the address that this chunk is located at in the chunk file.
    pub fn get_address_in_file(&self) -> (r: usize)
        ensures
            r == self.spec_address(),
    {
        self.address
    }

    /// Provides the block data for this chunk.
    pub fn get_data(&self) -> (r: &[u16])
        ensures
            r@ == self.blocks(),
    {
        self.storage.as_slice()
    }

    /// Provides mutable access to the block data for this chunk.  The
    /// coordinate and backing address are untouched by whatever the caller
    /// writes through the returned vector.
    pub fn get_data_mut(&mut self) -> (r: &mut Vec<u16>)
        ensures
            r@ == old(self).blocks(),
            final(self).blocks() == final(r)@,
            final(self).spec_address() == old(self).spec_address(),
            final(self).spec_coords() == old(self).spec_coords(),
    {
        &mut self.storage
    }

    /// Reads the block at a flat local index.  An index at or beyond the
    /// chunk volume is a defect in the caller's local-coordinate math, not a
    /// recoverable condition, and is excluded outright.
    pub fn get_block(&self, i: usize) -> (b: u16)
        requires
            self.wf(),
            i < CHUNK_VOLUME,
        ensures
            b == self.blocks()[i as int],
    {
        self.storage[i]
    }

    /// Writes the block at a flat local index.
    pub fn set_block(&mut self, i: usize, b: u16)
        requires
            old(self).wf(),
            i < CHUNK_VOLUME,
        ensures
            final(self).wf(),
            final(self).blocks() == old(self).blocks().update(i as int, b),
            final(self).spec_address() == old(self).spec_address(),
            final(self).spec_coords() == old(self).spec_coords(),
    {
        self.storage.set(i, b);
    }
}

} // verus!
