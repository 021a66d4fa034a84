//! The standalone chunk container of the in-memory world model.
//!
//! Where the store works with payloads tied to a file region, the world
//! model holds free-standing chunks: a wider cube of blocks addressed by
//! the chunk's coordinate alone.  A chunk is created blank, with every
//! block position zero, meaning empty.

use vstd::prelude::*;

use crate::blocks::{block_id_from_raw, block_id_to_raw, BlockID};

verus! {

/// The flat storage position of a local block coordinate, after each axis
/// is masked to the chunk's range: x varies fastest, then y, then z.
pub open spec fn local_flat_index(location: (u8, u8, u8)) -> int {
    (location.0 as int % (CHUNK_DIAMETER as int)) + (location.1 as int % (CHUNK_DIAMETER as int))
        * (CHUNK_DIAMETER as int) + (location.2 as int % (CHUNK_DIAMETER as int)) * (
    CHUNK_DIAMETER as int) * (CHUNK_DIAMETER as int)
}

/// Error type for chunks.
#[derive(Debug, Clone, Copy, PartialEq, Eq, Structural)]
pub enum ChunkError {
    /// An access tried to reach something out of range.
    OutOfRange,
}

/// The number of bits in a block address that are specific to the block,
/// and not part of the chunk's address.
pub const BLOCK_ADDRESS_BITS: usize = 5;

/// The diameter of a chunk in blocks.
pub const CHUNK_DIAMETER: usize = 32;

/// The number of block positions in one chunk.
pub const CHUNK_BLOCKS: usize = 32768;

/// The raw data for a chunk.
pub struct ChunkData {
    storage: Vec<u16>,
    x: i16,
    y: i16,
    z: i16,
}

impl ChunkData {
    /// The block values, one per position.
    pub closed spec fn blocks(self) -> Seq<u16> {
        self.storage@
    }

    /// The chunk's coordinate.
    pub closed spec fn spec_index(self) -> (i16, i16, i16) {
        (self.x, self.y, self.z)
    }

    /// A chunk always holds exactly one cube's worth of blocks.
    pub open spec fn wf(self) -> bool {
        self.blocks().len() == CHUNK_BLOCKS
    }

    /// Creates a blank chunk at the specified index, with every block
    /// position zero.
    pub fn create(x: i16, y: i16, z: i16) -> (c: Box<ChunkData>)
        ensures
            c.wf(),
            c.blocks() == Seq::new(CHUNK_BLOCKS as nat, |i: int| 0u16),
            c.spec_index() == (x, y, z),
    {
        let mut storage: Vec<u16> = Vec::new();
        while storage.len() < CHUNK_BLOCKS
            invariant
                storage@.len() <= CHUNK_BLOCKS,
                forall|i: int| 0 <= i < storage@.len() ==> storage@[i] == 0u16,
            decreases CHUNK_BLOCKS - storage@.len(),
        {
            storage.push(0u16);
        }
        proof {
            assert(storage@ =~= Seq::new(CHUNK_BLOCKS as nat, |i: int| 0u16));
        }
        Box::new(ChunkData { storage, x, y, z })
    }

    /// Gets the index of this chunk.
    pub fn get_index(&self) -> (r: (i16, i16, i16))
        ensures
            r == self.spec_index(),
    {
        (self.x, self.y, self.z)
    }

    /// Provides the block data for this chunk.
    pub fn get_data(&self) -> (r: &[u16])
        ensures
            r@ == self.blocks(),
    {
        self.storage.as_slice()
    }

    /// Provides mutable access to the block data for this chunk.
    pub fn get_data_mut(&mut self) -> (r: &mut Vec<u16>)
        ensures
            r@ == old(self).blocks(),
            final(self).blocks() == final(r)@,
            final(self).spec_index() == old(self).spec_index(),
    {
        &mut self.storage
    }

    /// Reads the block value at a flat position, rejecting a position at or
    /// beyond the chunk volume instead of reaching past it.
    pub fn direct_access(&self, index: usize) -> (r: Result<u16, ChunkError>)
        requires
            self.wf(),
        ensures
            match r {
                Ok(v) => index < CHUNK_BLOCKS && v == self.blocks()[index as int],
                Err(e) => e == ChunkError::OutOfRange && index >= CHUNK_BLOCKS,
            },
    {
        if index < CHUNK_BLOCKS {
            Ok(self.storage[index])
        } else {
            Err(ChunkError::OutOfRange)
        }
    }

    /// Gets a single block from the chunk, by local coordinate.  Bits of a
    /// coordinate extending beyond the chunk bounds are chopped off; a
    /// stored value of zero reads as "no block".
    pub fn get_single_block_local(&self, location: (u8, u8, u8)) -> (r: Option<BlockID>)
        requires
            self.wf(),
        ensures
            match r {
                None => self.blocks()[local_flat_index(location)] == 0,
                Some(b) => b.spec_value() == self.blocks()[local_flat_index(location)]
                    && self.blocks()[local_flat_index(location)] != 0,
            },
    {
        let l = crate::coordinates::validate_local(location);
        let idx: usize = l.0 as usize + l.1 as usize * CHUNK_DIAMETER + l.2 as usize
            * CHUNK_DIAMETER * CHUNK_DIAMETER;
        block_id_from_raw(self.storage[idx])
    }

    /// Sets a single block of the chunk, by local coordinate, with the same
    /// treatment of out-of-range coordinate bits; `None` stores the zero
    /// value that means "no block".
    pub fn set_single_block_local(&mut self, location: (u8, u8, u8), block: Option<BlockID>)
        requires
            old(self).wf(),
        ensures
            final(self).wf(),
            final(self).spec_index() == old(self).spec_index(),
            final(self).blocks() == old(self).blocks().update(
                local_flat_index(location),
                (match block {
                    None => 0u16,
                    Some(b) => b.spec_value(),
                }),
            ),
    {
        let l = crate::coordinates::validate_local(location);
        let idx: usize = l.0 as usize + l.1 as usize * CHUNK_DIAMETER + l.2 as usize
            * CHUNK_DIAMETER * CHUNK_DIAMETER;
        let raw = block_id_to_raw(block);
        self.storage.set(idx, raw);
    }

    /// Writes the block value at a flat position, with the same bound check
    /// as the read.
    pub fn direct_access_mut(&mut self, index: usize, value: u16) -> (r: Result<(), ChunkError>)
        requires
            old(self).wf(),
        ensures
            final(self).wf(),
            final(self).spec_index() == old(self).spec_index(),
            match r {
                Ok(()) => index < CHUNK_BLOCKS && final(self).blocks() == old(self).blocks().update(
                    index as int,
                    value,
                ),
                Err(e) => e == ChunkError::OutOfRange && index >= CHUNK_BLOCKS && *final(self)
                    == *old(self),
            },
    {
        if index < CHUNK_BLOCKS {
            self.storage.set(index, value);
            Ok(())
        } else {
            Err(ChunkError::OutOfRange)
        }
    }
}

} // verus!
