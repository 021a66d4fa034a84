//! Little-endian integers over byte buffers.
//!
//! The index file and the chunk-payload file both store their integers in
//! little-endian order regardless of the host architecture, so that saved
//! files are portable across machines.  These helpers read and write 16-bit
//! and 64-bit values at a given byte offset of an in-memory file image and
//! relate every access to the mathematical value of the underlying bytes.

use vstd::prelude::*;

verus! {

/// The value of the two little-endian bytes at `off`.
pub open spec fn le16_at(s: Seq<u8>, off: int) -> u16 {
    (s[off] + s[off + 1] * 0x100) as u16
}

/// The value of the eight little-endian bytes at `off`.
pub open spec fn le64_at(s: Seq<u8>, off: int) -> u64 {
    (s[off] + s[off + 1] * 0x100 + s[off + 2] * 0x1_0000 + s[off + 3] * 0x100_0000 + s[off + 4]
        * 0x1_0000_0000 + s[off + 5] * 0x100_0000_0000 + s[off + 6] * 0x1_0000_0000_0000 + s[off
        + 7] * 0x100_0000_0000_0000) as u64
}

/// Two buffers that agree on the two bytes at `off` hold the same 16-bit
/// value there.
pub proof fn lemma_le16_frame(s1: Seq<u8>, s2: Seq<u8>, off: int)
    requires
        forall|j: int| off <= j < off + 2 ==> s2[j] == s1[j],
    ensures
        le16_at(s2, off) == le16_at(s1, off),
{
    assert(s2[off] == s1[off]);
    assert(s2[off + 1] == s1[off + 1]);
}

/// Two buffers that agree on the eight bytes at `off` hold the same 64-bit
/// value there.
pub proof fn lemma_le64_frame(s1: Seq<u8>, s2: Seq<u8>, off: int)
    requires
        forall|j: int| off <= j < off + 8 ==> s2[j] == s1[j],
    ensures
        le64_at(s2, off) == le64_at(s1, off),
{
    assert(s2[off] == s1[off]);
    assert(s2[off + 1] == s1[off + 1]);
    assert(s2[off + 2] == s1[off + 2]);
    assert(s2[off + 3] == s1[off + 3]);
    assert(s2[off + 4] == s1[off + 4]);
    assert(s2[off + 5] == s1[off + 5]);
    assert(s2[off + 6] == s1[off + 6]);
    assert(s2[off + 7] == s1[off + 7]);
}

/// Extends a buffer with zero bytes up to `new_len`, leaving the existing
/// prefix untouched.
pub fn grow_zeroed(v: &mut Vec<u8>, new_len: usize)
    requires
        old(v)@.len() <= new_len,
    ensures
        final(v)@.len() == new_len,
        forall|j: int| 0 <= j < old(v)@.len() ==> final(v)@[j] == old(v)@[j],
        forall|j: int| old(v)@.len() <= j < new_len ==> final(v)@[j] == 0u8,
{
    while v.len() < new_len
        invariant
            old(v)@.len() <= v@.len() <= new_len,
            forall|j: int| 0 <= j < old(v)@.len() ==> v@[j] == old(v)@[j],
            forall|j: int| old(v)@.len() <= j < v@.len() ==> v@[j] == 0u8,
        decreases new_len - v@.len(),
    {
        v.push(0u8);
    }
}

/// Reads the 16-bit little-endian value at `off`.
pub fn read_u16_le(mem: &Vec<u8>, off: usize) -> (r: u16)
    requires
        off + 2 <= mem@.len(),
    ensures
        r == le16_at(mem@, off as int),
{
    let n = mem.len();
    assert(off + 2 <= n);
    let b0 = mem[off];
    let b1 = mem[off + 1];
    b0 as u16 + b1 as u16 * 0x100
}

/// Writes `v` at `off` as two little-endian bytes, leaving every other byte
/// unchanged.
pub fn write_u16_le(mem: &mut Vec<u8>, off: usize, v: u16)
    requires
        off + 2 <= old(mem)@.len(),
    ensures
        final(mem)@.len() == old(mem)@.len(),
        forall|j: int| 0 <= j < old(mem)@.len() && !(off <= j < off + 2) ==> final(mem)@[j]
            == old(mem)@[j],
        le16_at(final(mem)@, off as int) == v,
{
    let n = mem.len();
    assert(off + 2 <= n);
    let b0 = (v % 0x100) as u8;
    let b1 = (v / 0x100) as u8;
    mem.set(off, b0);
    mem.set(off + 1, b1);
    assert(v == b0 + b1 * 0x100);
}

/// Reads the 64-bit little-endian value at `off`.
pub fn read_u64_le(mem: &Vec<u8>, off: usize) -> (r: u64)
    requires
        off + 8 <= mem@.len(),
    ensures
        r == le64_at(mem@, off as int),
{
    let n = mem.len();
    assert(off + 8 <= n);
    let b0 = mem[off] as u64;
    let b1 = mem[off + 1] as u64;
    let b2 = mem[off + 2] as u64;
    let b3 = mem[off + 3] as u64;
    let b4 = mem[off + 4] as u64;
    let b5 = mem[off + 5] as u64;
    let b6 = mem[off + 6] as u64;
    let b7 = mem[off + 7] as u64;
    b0 + b1 * 0x100 + b2 * 0x1_0000 + b3 * 0x100_0000 + b4 * 0x1_0000_0000 + b5 * 0x100_0000_0000
        + b6 * 0x1_0000_0000_0000 + b7 * 0x100_0000_0000_0000
}

/// Writes `v` at `off` as eight little-endian bytes, leaving every other
/// byte unchanged.
pub fn write_u64_le(mem: &mut Vec<u8>, off: usize, v: u64)
    requires
        off + 8 <= old(mem)@.len(),
    ensures
        final(mem)@.len() == old(mem)@.len(),
        forall|j: int| 0 <= j < old(mem)@.len() && !(off <= j < off + 8) ==> final(mem)@[j]
            == old(mem)@[j],
        le64_at(final(mem)@, off as int) == v,
{
    let n = mem.len();
    assert(off + 8 <= n);
    let t1 = v / 0x100;
    let t2 = t1 / 0x100;
    let t3 = t2 / 0x100;
    let t4 = t3 / 0x100;
    let t5 = t4 / 0x100;
    let t6 = t5 / 0x100;
    let t7 = t6 / 0x100;
    let b0 = (v % 0x100) as u8;
    let b1 = (t1 % 0x100) as u8;
    let b2 = (t2 % 0x100) as u8;
    let b3 = (t3 % 0x100) as u8;
    let b4 = (t4 % 0x100) as u8;
    let b5 = (t5 % 0x100) as u8;
    let b6 = (t6 % 0x100) as u8;
    let b7 = (t7 % 0x100) as u8;
    proof {
        assert(t7 < 0x100);
        assert(v == b0 + t1 * 0x100);
        assert(t1 == b1 + t2 * 0x100);
        assert(t2 == b2 + t3 * 0x100);
        assert(t3 == b3 + t4 * 0x100);
        assert(t4 == b4 + t5 * 0x100);
        assert(t5 == b5 + t6 * 0x100);
        assert(t6 == b6 + t7 * 0x100);
        assert(t7 == b7);
        assert(v == b0 + b1 * 0x100 + b2 * 0x1_0000 + b3 * 0x100_0000 + b4 * 0x1_0000_0000 + b5
            * 0x100_0000_0000 + b6 * 0x1_0000_0000_0000 + b7 * 0x100_0000_0000_0000);
    }
    mem.set(off, b0);
    mem.set(off + 1, b1);
    mem.set(off + 2, b2);
    mem.set(off + 3, b3);
    mem.set(off + 4, b4);
    mem.set(off + 5, b5);
    mem.set(off + 6, b6);
    mem.set(off + 7, b7);
}

} // verus!
