//! Conversions between chunk, local-block and global-block coordinates.
//!
//! A chunk coordinate addresses a whole chunk; a local block coordinate
//! addresses one block inside its chunk, each axis below the chunk
//! diameter; a global block coordinate addresses a block in world space.
//! The diameter is a power of two, so the conversions are plain floor
//! divisions and remainders by the diameter, with negative global
//! coordinates handled like any others.

use vstd::prelude::*;

use crate::chunk_data::CHUNK_DIAMETER;

verus! {

/// The split of a global axis value into chunk part and local part: the
/// value is the local remainder plus the diameter times the floored chunk
/// quotient.
proof fn lemma_axis_split(v: i64)
    by (bit_vector)
    ensures
        v == 32 * (v >> 5) + (v & 31),
        0 <= (v & 31) < 32,
{
}

/// Masking an axis to the chunk diameter is taking its remainder.
proof fn lemma_mask_is_mod(v: u8)
    by (bit_vector)
    ensures
        v & 31 == v % 32,
{
}

/// Clears the bits of each axis that lie outside the chunk's range: the
/// remainder of each axis by the chunk diameter.
pub fn validate_local(location: (u8, u8, u8)) -> (r: (u8, u8, u8))
    ensures
        r.0 == location.0 as int % (CHUNK_DIAMETER as int),
        r.1 == location.1 as int % (CHUNK_DIAMETER as int),
        r.2 == location.2 as int % (CHUNK_DIAMETER as int),
{
    proof {
        lemma_mask_is_mod(location.0);
        lemma_mask_is_mod(location.1);
        lemma_mask_is_mod(location.2);
    }
    (location.0 & 31, location.1 & 31, location.2 & 31)
}

/// Divides one global axis value by the chunk diameter, rounding toward
/// negative infinity.
fn axis_chunk(v: i64) -> (q: i64)
    ensures
        q == v as int / (CHUNK_DIAMETER as int),
{
    proof {
        lemma_axis_split(v);
    }
    v >> 5
}

/// The index of the chunk a global block coordinate lies in.  The global
/// coordinate must lie inside the space the 16-bit chunk indices address.
pub fn chunk_index(global: (i64, i64, i64)) -> (r: (i16, i16, i16))
    requires
        -0x10_0000 <= global.0 < 0x10_0000,
        -0x10_0000 <= global.1 < 0x10_0000,
        -0x10_0000 <= global.2 < 0x10_0000,
    ensures
        r.0 == global.0 as int / (CHUNK_DIAMETER as int),
        r.1 == global.1 as int / (CHUNK_DIAMETER as int),
        r.2 == global.2 as int / (CHUNK_DIAMETER as int),
{
    let qx = axis_chunk(global.0);
    let qy = axis_chunk(global.1);
    let qz = axis_chunk(global.2);
    (qx as i16, qy as i16, qz as i16)
}

/// The position of a global block within its chunk.
pub fn to_local_block_coordinate(global: (i64, i64, i64)) -> (r: (u8, u8, u8))
    ensures
        r.0 == global.0 as int % (CHUNK_DIAMETER as int),
        r.1 == global.1 as int % (CHUNK_DIAMETER as int),
        r.2 == global.2 as int % (CHUNK_DIAMETER as int),
{
    proof {
        lemma_axis_split(global.0);
        lemma_axis_split(global.1);
        lemma_axis_split(global.2);
    }
    ((global.0 & 31) as u8, (global.1 & 31) as u8, (global.2 & 31) as u8)
}

/// The global coordinate of local block zero of a chunk.
pub fn chunk_to_block_coordinate(chunk: (i16, i16, i16)) -> (r: (i64, i64, i64))
    ensures
        r.0 == chunk.0 as int * (CHUNK_DIAMETER as int),
        r.1 == chunk.1 as int * (CHUNK_DIAMETER as int),
        r.2 == chunk.2 as int * (CHUNK_DIAMETER as int),
{
    (chunk.0 as i64 * 32, chunk.1 as i64 * 32, chunk.2 as i64 * 32)
}

/// The position of a local block in global space, offset by the block
/// position of its chunk.
pub fn to_global_block_coordinate(local: (u8, u8, u8), chunk: (i16, i16, i16)) -> (r: (
    i64,
    i64,
    i64,
))
    ensures
        r.0 == local.0 + chunk.0 as int * (CHUNK_DIAMETER as int),
        r.1 == local.1 + chunk.1 as int * (CHUNK_DIAMETER as int),
        r.2 == local.2 + chunk.2 as int * (CHUNK_DIAMETER as int),
{
    (
        local.0 as i64 + chunk.0 as i64 * 32,
        local.1 as i64 + chunk.1 as i64 * 32,
        local.2 as i64 + chunk.2 as i64 * 32,
    )
}

} // verus!
