//! The spatial key encoder.
//!
//! A chunk coordinate is three signed 16-bit integers.  The encoder interleaves
//! the bits of the three axes into one 64-bit Morton (Z-order) key: bit `i` of
//! the x axis lands at position `3 * i + 2`, bit `i` of the y axis at
//! `3 * i + 1`, and bit `i` of the z axis at `3 * i`.  Spatially close
//! coordinates therefore produce keys that share long common prefixes, which
//! keeps them close together in the index tree.
//!
//! The encoding is a bijection over the coordinate space; no decoder is
//! needed, since the store only ever decomposes a key into fixed-width digits.

use vstd::prelude::*;

verus! {

/// The mathematical spreading of the low `n` bits of `v`: bit `i` of the
/// input is moved to bit `3 * i` of the result, and all other result bits
/// are zero.
pub closed spec fn spread3(v: u64, n: nat) -> u64
    decreases n,
{
    if n == 0 {
        0
    } else {
        (v & 1) | (spread3(v >> 1, (n - 1) as nat) << 3)
    }
}

/// The spread bit pattern of one axis value, with the 16 two's-complement
/// bits of the axis treated alike whether the value is negative or not.
pub open spec fn axis_spread(v: i16) -> u64 {
    spread3((v as u16) as u64, 16)
}

/// The Morton key of a coordinate: the three spread axes interleaved, with
/// x offset by two bits and y by one.
pub open spec fn morton_key(x: i16, y: i16, z: i16) -> u64 {
    (axis_spread(x) << 2) | (axis_spread(y) << 1) | axis_spread(z)
}

/// The shift-and-mask chain used by the executable encoder computes exactly
/// the mathematical bit spreading.
proof fn lemma_spread_chain(v: u64)
    by (bit_vector)
    requires
        v < 0x10000,
    ensures
        ({
            let a = (v | (v << 32)) & 0x00FF_0000_0000_FFFF;
            let b = (a | (a << 16)) & 0x00FF_0000_FF00_00FF;
            let c = (b | (b << 8)) & 0xF00F_00F0_0F00_F00F;
            let d = (c | (c << 4)) & 0x30C3_0C30_C30C_30C3;
            let e = (d | (d << 2)) & 0x9249_2492_4924_9249;
            e == spread3(v, 16)
        }),
{
}

/// Distinct axis triples always interleave to distinct keys.
proof fn lemma_interleave_injective(x1: u64, y1: u64, z1: u64, x2: u64, y2: u64, z2: u64)
    by (bit_vector)
    requires
        x1 < 0x10000,
        y1 < 0x10000,
        z1 < 0x10000,
        x2 < 0x10000,
        y2 < 0x10000,
        z2 < 0x10000,
        (spread3(x1, 16) << 2) | (spread3(y1, 16) << 1) | spread3(z1, 16) == (spread3(x2, 16)
            << 2) | (spread3(y2, 16) << 1) | spread3(z2, 16),
    ensures
        x1 == x2,
        y1 == y2,
        z1 == z2,
{
}

/// A Morton key uses only the low 48 bits.
proof fn lemma_interleave_bound(x: u64, y: u64, z: u64)
    by (bit_vector)
    requires
        x < 0x10000,
        y < 0x10000,
        z < 0x10000,
    ensures
        (spread3(x, 16) << 2) | (spread3(y, 16) << 1) | spread3(z, 16) < 0x1_0000_0000_0000,
{
}

/// Reinterpreting a signed axis as its unsigned bit pattern loses nothing.
proof fn lemma_axis_bits_injective(a: i16, b: i16)
    by (bit_vector)
    requires
        a as u16 == b as u16,
    ensures
        a == b,
{
}

/// The encoding never produces the same key for two different coordinates.
pub proof fn lemma_encode_injective(x1: i16, y1: i16, z1: i16, x2: i16, y2: i16, z2: i16)
    ensures
        morton_key(x1, y1, z1) == morton_key(x2, y2, z2) ==> (x1 == x2 && y1 == y2 && z1 == z2),
{
    if morton_key(x1, y1, z1) == morton_key(x2, y2, z2) {
        assert(((x1 as u16) as u64) < 0x10000);
        assert(((y1 as u16) as u64) < 0x10000);
        assert(((z1 as u16) as u64) < 0x10000);
        assert(((x2 as u16) as u64) < 0x10000);
        assert(((y2 as u16) as u64) < 0x10000);
        assert(((z2 as u16) as u64) < 0x10000);
        lemma_interleave_injective(
            (x1 as u16) as u64,
            (y1 as u16) as u64,
            (z1 as u16) as u64,
            (x2 as u16) as u64,
            (y2 as u16) as u64,
            (z2 as u16) as u64,
        );
        assert((x1 as u16) as u64 == (x2 as u16) as u64);
        assert(x1 as u16 == x2 as u16);
        lemma_axis_bits_injective(x1, x2);
        assert(y1 as u16 == y2 as u16);
        lemma_axis_bits_injective(y1, y2);
        assert(z1 as u16 == z2 as u16);
        lemma_axis_bits_injective(z1, z2);
    }
}

/// Every key the encoder produces fits in 48 bits, so the six 8-bit digits
/// drawn from the low 48 bits of a key describe it completely.
pub proof fn lemma_encode_bound(x: i16, y: i16, z: i16)
    ensures
        morton_key(x, y, z) < 0x1_0000_0000_0000,
{
    assert(((x as u16) as u64) < 0x10000);
    assert(((y as u16) as u64) < 0x10000);
    assert(((z as u16) as u64) < 0x10000);
    lemma_interleave_bound((x as u16) as u64, (y as u16) as u64, (z as u16) as u64);
}

/// The key bits of the three axes never mix: a change confined to the z
/// axis moves only key bits at positions divisible by three, a y change
/// only those one position above, an x change only those two above.  This
/// is the locality of the encoding: an axis neighbor differs in a few bit
/// positions of its own axis only, where unrelated coordinates may differ
/// anywhere.
pub proof fn lemma_axis_bits_separate(x: i16, y: i16, z: i16, x2: i16, y2: i16, z2: i16)
    ensures
        (morton_key(x, y, z) ^ morton_key(x2, y, z)) & 0x6DB6_DB6D_B6DB == 0,
        (morton_key(x, y, z) ^ morton_key(x, y2, z)) & 0xB6DB_6DB6_DB6D == 0,
        (morton_key(x, y, z) ^ morton_key(x, y, z2)) & 0xDB6D_B6DB_6DB6 == 0,
{
    lemma_axis_change_isolated((x as u16) as u64, (y as u16) as u64, (z as u16) as u64, (x2 as u16) as u64, (y2 as u16) as u64, (z2 as u16) as u64);
}

/// The interleaved fields occupy disjoint bit positions, so replacing one
/// axis leaves the other two axes' positions untouched.
proof fn lemma_axis_change_isolated(x: u64, y: u64, z: u64, x2: u64, y2: u64, z2: u64)
    by (bit_vector)
    requires
        x < 0x10000,
        y < 0x10000,
        z < 0x10000,
        x2 < 0x10000,
        y2 < 0x10000,
        z2 < 0x10000,
    ensures
        (((spread3(x, 16) << 2) | (spread3(y, 16) << 1) | spread3(z, 16)) ^ ((spread3(x2, 16)
            << 2) | (spread3(y, 16) << 1) | spread3(z, 16))) & 0x6DB6_DB6D_B6DB == 0,
        (((spread3(x, 16) << 2) | (spread3(y, 16) << 1) | spread3(z, 16)) ^ ((spread3(x, 16)
            << 2) | (spread3(y2, 16) << 1) | spread3(z, 16))) & 0xB6DB_6DB6_DB6D == 0,
        (((spread3(x, 16) << 2) | (spread3(y, 16) << 1) | spread3(z, 16)) ^ ((spread3(x, 16)
            << 2) | (spread3(y, 16) << 1) | spread3(z2, 16))) & 0xDB6D_B6DB_6DB6 == 0,
{
}

/// Spreads the 16 bits of one axis over 48 bits, three positions apart,
/// by a fixed sequence of shift-and-mask steps with doubling distances.
fn spread_axis(v: i16) -> (r: u64)
    ensures
        r == axis_spread(v),
{
    let v0: u64 = (v as u16) as u64;
    proof {
        assert(v0 < 0x10000);
        lemma_spread_chain(v0);
    }
    let a = (v0 | (v0 << 32)) & 0x00FF_0000_0000_FFFF;
    let b = (a | (a << 16)) & 0x00FF_0000_FF00_00FF;
    let c = (b | (b << 8)) & 0xF00F_00F0_0F00_F00F;
    let d = (c | (c << 4)) & 0x30C3_0C30_C30C_30C3;
    let e = (d | (d << 2)) & 0x9249_2492_4924_9249;
    e
}

/// Encodes a chunk coordinate as its Morton key.  Deterministic, pure, and
/// total over the whole 16-bit-per-axis domain.
pub fn encode(x: i16, y: i16, z: i16) -> (key: u64)
    ensures
        key == morton_key(x, y, z),
        key < 0x1_0000_0000_0000,
{
    proof {
        lemma_encode_bound(x, y, z);
    }
    let sx = spread_axis(x);
    let sy = spread_axis(y);
    let sz = spread_axis(z);
    (sx << 2) | (sy << 1) | sz
}

} // verus!
