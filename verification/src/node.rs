//! Index nodes: fixed-size arrays of tagged pointers.
//!
//! The index file is a sequence of fixed-length node records.  A node holds
//! [`NODE_CAPACITY`] slots of eight bytes each; slot `d` occupies the bytes at
//! `d * 8` within the node and stores a 64-bit little-endian integer.  A slot
//! value of zero means "unset"; any other value carries a file offset in its
//! low 63 bits with the most significant bit forced to one, purely as a
//! sentinel so that a legitimately zero offset (the very first allocated node
//! or chunk) is still distinguishable from an unset slot.  The tagging
//! convention is confined to this module; no call site manipulates the raw
//! bit patterns.
//!
//! During a tree walk, one 8-bit digit of the spatial key selects the slot to
//! follow within each node; the digits are drawn from the low 48 bits of the
//! key, most significant digit first.

use vstd::prelude::*;

use crate::bytes::{le64_at, read_u64_le, write_u64_le};

verus! {

/// The number of pointer slots in one index node.
pub const NODE_CAPACITY: usize = 256;

/// The length in bytes of one index node record.
pub const NODE_LENGTH: usize = 2048;

/// The sentinel bit stored with every set slot.
pub const SENTINEL: u64 = 0x8000_0000_0000_0000;

/// How many digits a key decomposes into; the first `KEY_DIGITS - 1` select
/// child nodes and the last selects a chunk slot.
pub const KEY_DIGITS: usize = 6;

/// The raw 64-bit value of slot `d` of the node at byte offset `node`.
pub open spec fn slot_raw(index: Seq<u8>, node: int, d: int) -> u64 {
    le64_at(index, node + d * 8)
}

/// The file offset carried by a raw slot value, with the sentinel cleared.
pub open spec fn spec_untag(raw: u64) -> int {
    if raw >= SENTINEL {
        raw - SENTINEL
    } else {
        raw as int
    }
}

/// The pointer held by slot `d` of the node at `node`: `None` when the raw
/// value is exactly zero, otherwise the stored offset.
pub open spec fn slot_ptr(index: Seq<u8>, node: int, d: int) -> Option<int> {
    if slot_raw(index, node, d) == 0 {
        None
    } else {
        Some(spec_untag(slot_raw(index, node, d)))
    }
}

/// Digit `i` of a key, most significant first: the six digits cover the low
/// 48 bits of the key, eight bits each.
pub open spec fn key_digit(key: u64, i: int) -> u64 {
    if i == 0 {
        (key >> 40) & 0xFF
    } else if i == 1 {
        (key >> 32) & 0xFF
    } else if i == 2 {
        (key >> 24) & 0xFF
    } else if i == 3 {
        (key >> 16) & 0xFF
    } else if i == 4 {
        (key >> 8) & 0xFF
    } else {
        key & 0xFF
    }
}

/// Every digit is below the node capacity.
pub proof fn lemma_digit_bound(key: u64)
    by (bit_vector)
    ensures
        (key >> 40) & 0xFF < 256,
        (key >> 32) & 0xFF < 256,
        (key >> 24) & 0xFF < 256,
        (key >> 16) & 0xFF < 256,
        (key >> 8) & 0xFF < 256,
        key & 0xFF < 256,
{
}

/// Two 48-bit keys with the same six digits are the same key, so two
/// distinct keys part ways at some level of the tree.
pub proof fn lemma_digits_determine_key(k1: u64, k2: u64)
    by (bit_vector)
    requires
        k1 < 0x1_0000_0000_0000,
        k2 < 0x1_0000_0000_0000,
        (k1 >> 40) & 0xFF == (k2 >> 40) & 0xFF,
        (k1 >> 32) & 0xFF == (k2 >> 32) & 0xFF,
        (k1 >> 24) & 0xFF == (k2 >> 24) & 0xFF,
        (k1 >> 16) & 0xFF == (k2 >> 16) & 0xFF,
        (k1 >> 8) & 0xFF == (k2 >> 8) & 0xFF,
        k1 & 0xFF == k2 & 0xFF,
    ensures
        k1 == k2,
{
}

/// Extracts digit `i` of a key.
pub fn digit_of(key: u64, i: usize) -> (d: usize)
    requires
        i < KEY_DIGITS,
    ensures
        d == key_digit(key, i as int),
        d < NODE_CAPACITY,
{
    proof {
        lemma_digit_bound(key);
    }
    if i == 0 {
        ((key >> 40) & 0xFF) as usize
    } else if i == 1 {
        ((key >> 32) & 0xFF) as usize
    } else if i == 2 {
        ((key >> 24) & 0xFF) as usize
    } else if i == 3 {
        ((key >> 16) & 0xFF) as usize
    } else if i == 4 {
        ((key >> 8) & 0xFF) as usize
    } else {
        (key & 0xFF) as usize
    }
}

/// Reads slot `d` of the node at byte offset `node`: eight bytes at
/// `node + d * 8`, `None` when the stored value is exactly zero, otherwise
/// the value with its sentinel high bit cleared.
pub fn get_pointer(index: &Vec<u8>, node: usize, d: usize) -> (r: Option<u64>)
    requires
        node + NODE_LENGTH <= index@.len(),
        d < NODE_CAPACITY,
    ensures
        match r {
            None => slot_ptr(index@, node as int, d as int) is None,
            Some(p) => slot_ptr(index@, node as int, d as int) == Some(p as int) && p < SENTINEL,
        },
{
    let n = index.len();
    assert(node + NODE_LENGTH <= n);
    let raw = read_u64_le(index, node + d * 8);
    if raw == 0 {
        None
    } else if raw >= SENTINEL {
        Some(raw - SENTINEL)
    } else {
        Some(raw)
    }
}

/// An offset below the sentinel gains exactly the sentinel bit, whether
/// written as a bitwise or or as a sum.
proof fn lemma_tag_is_sum(target: u64)
    by (bit_vector)
    requires
        target < 0x8000_0000_0000_0000,
    ensures
        target | 0x8000_0000_0000_0000 == target + 0x8000_0000_0000_0000,
{
}

/// Writes `target | SENTINEL` into slot `d` of the node at `node`, leaving
/// every byte outside the slot unchanged.  The eight slot bytes are pinned
/// exactly: they hold the tagged value in little-endian order, which is the
/// on-disk slot format.
pub fn set_pointer(index: &mut Vec<u8>, node: usize, d: usize, target: u64)
    requires
        node + NODE_LENGTH <= old(index)@.len(),
        d < NODE_CAPACITY,
        target < SENTINEL,
    ensures
        final(index)@.len() == old(index)@.len(),
        forall|j: int|
            0 <= j < old(index)@.len() && !(node + d * 8 <= j < node + d * 8 + 8) ==> final(index)@[j]
                == old(index)@[j],
        le64_at(final(index)@, node + d * 8) == (target | SENTINEL),
        slot_ptr(final(index)@, node as int, d as int) == Some(target as int),
{
    let n = index.len();
    assert(node + NODE_LENGTH <= n);
    proof {
        lemma_tag_is_sum(target);
    }
    let raw = target + SENTINEL;
    write_u64_le(index, node + d * 8, raw);
}

/// A slot whose eight bytes are untouched between two images of the index
/// holds the same pointer in both.
pub proof fn lemma_slot_frame(s1: Seq<u8>, s2: Seq<u8>, node: int, d: int)
    requires
        forall|j: int| node + d * 8 <= j < node + d * 8 + 8 ==> s2[j] == s1[j],
    ensures
        slot_ptr(s2, node, d) == slot_ptr(s1, node, d),
{
    crate::bytes::lemma_le64_frame(s1, s2, node + d * 8);
}

} // verus!
