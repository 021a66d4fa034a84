//! The spatial chunk store.
//!
//! The store maps chunk coordinates to fixed-size payload records through a
//! radix tree of index nodes laid out over the byte image of an index file.
//! The Morton key of a coordinate is split into six 8-bit digits, most
//! significant first; the first five digits each select the slot of a child
//! node, starting from the root node at offset zero, and the sixth selects
//! the slot holding the byte offset of the chunk's record in the chunk
//! file's image.  Nodes and chunk records are created lazily, exactly once,
//! the first time a coordinate is requested through the creating lookup, by
//! growing the respective image by one zero-filled record; they are never
//! deleted.
//!
//! The store holds the two file images in memory.  Opening the backing files
//! and writing the images (or just the dirty index nodes) back to disk is
//! the embedding application's part; the images returned by the accessors
//! are exactly what belongs on disk.  Every operation is synchronous and
//! either completes or returns an error; callers on several worker threads
//! share a store by serializing their calls through a lock of their own.

use vstd::prelude::*;

use crate::bytes::{grow_zeroed, read_u16_le, write_u16_le};
use crate::codec;
use crate::codec::morton_key;
use crate::node::{
    digit_of, get_pointer, key_digit, set_pointer, slot_ptr, KEY_DIGITS, NODE_CAPACITY,
    NODE_LENGTH, SENTINEL,
};
use crate::payload::{TerrainChunkData, CHUNK_LENGTH, CHUNK_VOLUME};

verus! {

/// The ways a store operation can fail.
#[derive(Debug, Clone, Copy, PartialEq, Eq, Structural)]
pub enum StorageError {
    /// The backing image cannot grow any further on this machine.
    IoError,
    /// An offset fell outside its fixed bound: a defect in the caller's
    /// bookkeeping, surfaced immediately rather than recovered from.
    OutOfRange,
}

/// The spatial key of a chunk, as stored in the index.
#[derive(Debug, Clone, Copy, PartialEq, Eq, Structural)]
pub struct ChunkKey(pub u64);

/// The first `n` digits of a key, most significant first: the path that a
/// tree walk for this key follows.
pub open spec fn path_prefix(key: u64, n: int) -> Seq<int> {
    Seq::new(n as nat, |j: int| key_digit(key, j) as int)
}

/// Slot `d` of the inner node at prefix `p` agrees with the node map: the
/// slot is set exactly when the child prefix is mapped, and then it points
/// at the child's offset.
pub open spec fn inner_slot_ok(index: Seq<u8>, m: Map<Seq<int>, int>, p: Seq<int>, d: int) -> bool {
    match slot_ptr(index, m[p], d) {
        None => !m.dom().contains(p.push(d)),
        Some(c) => m.dom().contains(p.push(d)) && m[p.push(d)] == c,
    }
}

/// Slot `d` of the leaf node at prefix `p` holds, when set, a valid chunk
/// record offset.
pub open spec fn leaf_slot_ok(
    index: Seq<u8>,
    m: Map<Seq<int>, int>,
    p: Seq<int>,
    d: int,
    chunk_len: int,
) -> bool {
    match slot_ptr(index, m[p], d) {
        None => true,
        Some(c) => 0 <= c && c % (CHUNK_LENGTH as int) == 0 && c + CHUNK_LENGTH <= chunk_len,
    }
}

/// The node map `m` describes the index image: it assigns to every digit
/// prefix in use the offset of its node, starting with the root at offset
/// zero, distinct nodes for distinct prefixes, and slot contents that agree
/// with the map level by level.
pub open spec fn map_ok(index: Seq<u8>, m: Map<Seq<int>, int>, chunk_len: int) -> bool {
    &&& m.dom().contains(Seq::<int>::empty())
    &&& m[Seq::<int>::empty()] == 0
    &&& index.len() >= NODE_LENGTH
    &&& index.len() as int % (NODE_LENGTH as int) == 0
    &&& forall|p: Seq<int>|
        #[trigger] m.dom().contains(p) ==> p.len() < KEY_DIGITS && 0 <= m[p] && m[p] % (
        NODE_LENGTH as int) == 0 && m[p] + NODE_LENGTH <= index.len()
    &&& forall|p1: Seq<int>, p2: Seq<int>|
        m.dom().contains(p1) && m.dom().contains(p2) && p1 != p2 ==> m[p1] != m[p2]
    &&& forall|p: Seq<int>|
        #[trigger] m.dom().contains(p) && p.len() > 0 ==> m.dom().contains(p.drop_last())
    &&& forall|p: Seq<int>, d: int|
        m.dom().contains(p) && p.len() < KEY_DIGITS - 1 && 0 <= d < NODE_CAPACITY
            ==> #[trigger] inner_slot_ok(index, m, p, d)
    &&& forall|p: Seq<int>, d: int|
        m.dom().contains(p) && p.len() == KEY_DIGITS - 1 && 0 <= d < NODE_CAPACITY
            ==> #[trigger] leaf_slot_ok(index, m, p, d, chunk_len)
}

/// An index image is well formed when some node map describes it; a chunk
/// image when it is a whole number of chunk records.  Both images must leave
/// the top bit of every offset free for the sentinel.
pub open spec fn bytes_wf(index: Seq<u8>, chunk: Seq<u8>) -> bool {
    &&& exists|m: Map<Seq<int>, int>| map_ok(index, m, chunk.len() as int)
    &&& index.len() < SENTINEL
    &&& chunk.len() < SENTINEL
    &&& chunk.len() as int % (CHUNK_LENGTH as int) == 0
}

/// The walk for `key` from the node at `node`, with digits `i` and beyond
/// still to consume: follows one slot per digit and returns the chunk
/// offset found behind the final digit, or `None` at the first unset slot.
pub closed spec fn walk(index: Seq<u8>, node: int, key: u64, i: int) -> Option<int>
    decreases KEY_DIGITS - i,
{
    if i >= KEY_DIGITS - 1 {
        slot_ptr(index, node, key_digit(key, KEY_DIGITS - 1) as int)
    } else {
        match slot_ptr(index, node, key_digit(key, i) as int) {
            None => None,
            Some(c) => walk(index, c, key, i + 1),
        }
    }
}

/// How deep the walk for `key` gets from the node at `node` before meeting
/// an unset slot; `KEY_DIGITS - 1` means the leaf node was reached.
pub closed spec fn depth_from(index: Seq<u8>, node: int, key: u64, i: int) -> int
    decreases KEY_DIGITS - i,
{
    if i >= KEY_DIGITS - 1 {
        i
    } else {
        match slot_ptr(index, node, key_digit(key, i) as int) {
            None => i,
            Some(c) => depth_from(index, c, key, i + 1),
        }
    }
}

/// The chunk record at byte offset `addr` of a chunk image, as a sequence
/// of 16-bit little-endian block values.
pub open spec fn record_words(chunk: Seq<u8>, addr: int) -> Seq<u16> {
    Seq::new(CHUNK_VOLUME as nat, |i: int| crate::bytes::le16_at(chunk, addr + 2 * i))
}

/// A struct that stores and fetches chunks.  It creates a chunk the first
/// time its coordinate is asked for through [`Self::get_or_create_chunk`],
/// but does not fill it with content.
pub struct TerrainDiskStorage {
    index_memory: Vec<u8>,
    chunk_memory: Vec<u8>,
    dirty: Vec<bool>,
    nodes: Ghost<Map<Seq<int>, int>>,
}

impl TerrainDiskStorage {
    /// The byte image of the index file.
    pub closed spec fn index_bytes(self) -> Seq<u8> {
        self.index_memory@
    }

    /// The byte image of the chunk-payload file.
    pub closed spec fn chunk_bytes(self) -> Seq<u8> {
        self.chunk_memory@
    }

    /// The per-node dirty flags: true for nodes whose bytes changed since
    /// the last flush (or since the store was built).
    pub closed spec fn dirty_flags(self) -> Seq<bool> {
        self.dirty@
    }

    /// The store's structural invariant.
    pub closed spec fn wf(self) -> bool {
        &&& map_ok(self.index_memory@, self.nodes@, self.chunk_memory@.len() as int)
        &&& self.index_memory@.len() < SENTINEL
        &&& self.chunk_memory@.len() < SENTINEL
        &&& self.chunk_memory@.len() as int % (CHUNK_LENGTH as int) == 0
        &&& self.dirty@.len() * NODE_LENGTH == self.index_memory@.len()
    }

    /// The chunk-record offset the index assigns to `key`, or `None` when
    /// any link of the key's digit chain is unset.
    pub closed spec fn spec_lookup(self, key: u64) -> Option<int> {
        walk(self.index_memory@, 0, key, 0)
    }

    /// How many digits of `key` resolve to existing nodes.
    pub closed spec fn reach_depth(self, key: u64) -> int {
        depth_from(self.index_memory@, 0, key, 0)
    }

    /// The block values of the chunk record at `addr`.
    pub open spec fn chunk_words_at(self, addr: int) -> Seq<u16> {
        record_words(self.chunk_bytes(), addr)
    }

    /// Whether the images can grow by what one creating lookup for `key`
    /// may need: one node record per missing level and one chunk record.
    pub open spec fn can_grow(self, key: u64) -> bool {
        &&& self.index_bytes().len() + (KEY_DIGITS - 1 - self.reach_depth(key)) * NODE_LENGTH
            < SENTINEL
        &&& self.index_bytes().len() + (KEY_DIGITS - 1 - self.reach_depth(key)) * NODE_LENGTH
            <= usize::MAX
        &&& self.chunk_bytes().len() + CHUNK_LENGTH < SENTINEL
        &&& self.chunk_bytes().len() + CHUNK_LENGTH <= usize::MAX
    }

    /// Generates the spatial key for a chunk coordinate; needed to fetch a
    /// chunk from the index.
    pub fn create_chunk_key(x: i16, y: i16, z: i16) -> (key: ChunkKey)
        ensures
            key.0 == morton_key(x, y, z),
    {
        ChunkKey(codec::encode(x, y, z))
    }

    /// Builds a store over the byte images of the index file and the chunk
    /// file.  If the index image is empty, exactly one zero-filled node is
    /// allocated as the root; a store reopened this way over previously
    /// saved images answers every lookup as it did before.
    pub fn initialize(index_memory: Vec<u8>, chunk_memory: Vec<u8>) -> (s: Self)
        requires
            index_memory@.len() == 0 || bytes_wf(index_memory@, chunk_memory@),
            chunk_memory@.len() < SENTINEL,
            chunk_memory@.len() as int % (CHUNK_LENGTH as int) == 0,
        ensures
            s.wf(),
            s.chunk_bytes() == chunk_memory@,
            index_memory@.len() == 0 ==> s.index_bytes() =~= Seq::new(
                NODE_LENGTH as nat,
                |j: int| 0u8,
            ) && (forall|key: u64| s.spec_lookup(key) is None) && (forall|key: u64|
                s.reach_depth(key) == 0) && s.dirty_flags() =~= seq![true],
            index_memory@.len() != 0 ==> s.index_bytes() == index_memory@ && (forall|i: int|
                0 <= i < s.dirty_flags().len() ==> !s.dirty_flags()[i]),
            s.dirty_flags().len() * NODE_LENGTH == s.index_bytes().len(),
    {
        if index_memory.len() == 0 {
            let mut index_memory = index_memory;
            grow_zeroed(&mut index_memory, NODE_LENGTH);
            let mut dirty: Vec<bool> = Vec::new();
            dirty.push(true);
            let ghost m = Map::<Seq<int>, int>::empty().insert(Seq::empty(), 0);
            let s = TerrainDiskStorage { index_memory, chunk_memory, dirty, nodes: Ghost(m) };
            proof {
                lemma_fresh_root_ok(s.index_memory@, m, s.chunk_memory@.len() as int);
                assert forall|key: u64| s.spec_lookup(key) is None by {
                    crate::node::lemma_digit_bound(key);
                    let d = key_digit(key, 0) as int;
                    lemma_zero_node_slots(s.index_memory@, 0, d);
                }
                assert forall|key: u64| s.reach_depth(key) == 0 by {
                    crate::node::lemma_digit_bound(key);
                    let d = key_digit(key, 0) as int;
                    lemma_zero_node_slots(s.index_memory@, 0, d);
                }
            }
            s
        } else {
            let node_count = index_memory.len() / NODE_LENGTH;
            let mut dirty: Vec<bool> = Vec::new();
            while dirty.len() < node_count
                invariant
                    dirty@.len() <= node_count,
                    forall|i: int| 0 <= i < dirty@.len() ==> !dirty@[i],
                decreases node_count - dirty@.len(),
            {
                dirty.push(false);
            }
            let ghost m = choose|m: Map<Seq<int>, int>|
                map_ok(index_memory@, m, chunk_memory@.len() as int);
            let s = TerrainDiskStorage { index_memory, chunk_memory, dirty, nodes: Ghost(m) };
            s
        }
    }

    /// Returns the length of the index file image in bytes.
    pub fn get_index_file_length(&self) -> (n: u64)
        requires
            self.wf(),
        ensures
            n == self.index_bytes().len(),
    {
        self.index_memory.len() as u64
    }

    /// Returns the length of the chunk file image in bytes.
    pub fn get_chunk_file_length(&self) -> (n: u64)
        requires
            self.wf(),
        ensures
            n == self.chunk_bytes().len(),
    {
        self.chunk_memory.len() as u64
    }

    /// The index file image, exactly as it belongs on disk.
    pub fn index_image(&self) -> (r: &Vec<u8>)
        requires
            self.wf(),
        ensures
            r@ == self.index_bytes(),
            bytes_wf(self.index_bytes(), self.chunk_bytes()),
    {
        proof {
            let m = self.nodes@;
            assert(map_ok(self.index_memory@, m, self.chunk_memory@.len() as int));
        }
        &self.index_memory
    }

    /// The chunk file image, exactly as it belongs on disk.
    pub fn chunk_image(&self) -> (r: &Vec<u8>)
        requires
            self.wf(),
        ensures
            r@ == self.chunk_bytes(),
    {
        &self.chunk_memory
    }

    /// Walks the index for `key` as far as nodes exist: returns the level
    /// reached and the offset of the node there.
    fn probe(&self, key: u64) -> (r: (usize, usize))
        requires
            self.wf(),
        ensures
            r.0 <= KEY_DIGITS - 1,
            self.nodes@.dom().contains(path_prefix(key, r.0 as int)),
            r.1 == self.nodes@[path_prefix(key, r.0 as int)],
            walk(self.index_memory@, 0, key, 0) == walk(self.index_memory@, r.1 as int, key, r.0 as int),
            self.reach_depth(key) == r.0,
            r.0 < KEY_DIGITS - 1 ==> slot_ptr(
                self.index_memory@,
                r.1 as int,
                key_digit(key, r.0 as int) as int,
            ) is None,
    {
        let ghost m = self.nodes@;
        let ghost index = self.index_memory@;
        let il = self.index_memory.len();
        let mut i: usize = 0;
        let mut node: usize = 0;
        proof {
            assert(path_prefix(key, 0) =~= Seq::<int>::empty());
            assert(m.dom().contains(Seq::<int>::empty()));
        }
        while i < KEY_DIGITS - 1
            invariant
                self.wf(),
                m == self.nodes@,
                index == self.index_memory@,
                i <= KEY_DIGITS - 1,
                m.dom().contains(path_prefix(key, i as int)),
                node == m[path_prefix(key, i as int)],
                walk(index, 0, key, 0) == walk(index, node as int, key, i as int),
                depth_from(index, 0, key, 0) == depth_from(index, node as int, key, i as int),
                index.len() <= usize::MAX,
            decreases KEY_DIGITS - i,
        {
            let ghost p = path_prefix(key, i as int);
            let d = digit_of(key, i);
            match get_pointer(&self.index_memory, node, d) {
                Some(c) => {
                    proof {
                        assert(inner_slot_ok(index, m, p, d as int));
                        assert(path_prefix(key, i as int).push(key_digit(key, i as int) as int)
                            =~= path_prefix(key, i + 1));
                        assert(m.dom().contains(path_prefix(key, i + 1)));
                        assert(c as int + NODE_LENGTH <= index.len());
                    }
                    node = c as usize;
                    i = i + 1;
                }
                None => {
                    return (i, node);
                }
            }
        }
        (i, node)
    }

    /// Returns the chunk-record offset of `key`, or `None` when the key has
    /// no chunk yet.
    fn get_chunk_address(&self, key: u64) -> (r: Option<usize>)
        requires
            self.wf(),
        ensures
            match r {
                None => self.spec_lookup(key) is None,
                Some(a) => self.spec_lookup(key) == Some(a as int) && a as int % (CHUNK_LENGTH as int)
                    == 0 && a + CHUNK_LENGTH <= self.chunk_bytes().len(),
            },
    {
        let ghost m = self.nodes@;
        let ghost index = self.index_memory@;
        let cl = self.chunk_memory.len();
        let (depth, node) = self.probe(key);
        if depth < KEY_DIGITS - 1 {
            return None;
        }
        let ghost p = path_prefix(key, (KEY_DIGITS - 1) as int);
        let d = digit_of(key, KEY_DIGITS - 1);
        match get_pointer(&self.index_memory, node, d) {
            Some(a) => {
                proof {
                    assert(leaf_slot_ok(index, m, p, d as int, self.chunk_memory@.len() as int));
                    assert(a as int + CHUNK_LENGTH <= cl);
                }
                Some(a as usize)
            }
            None => None,
        }
    }

    /// Builds a payload for the chunk record at `addr`, filled from the
    /// chunk image.
    fn load_payload(&self, x: i16, y: i16, z: i16, addr: usize) -> (c: TerrainChunkData)
        requires
            self.wf(),
            addr + CHUNK_LENGTH <= self.chunk_bytes().len(),
        ensures
            c.wf(),
            c.blocks() =~= self.chunk_words_at(addr as int),
            c.spec_address() == addr,
            c.spec_coords() == (x, y, z),
    {
        let mut c = TerrainChunkData::create(x, y, z, addr);
        let n = self.chunk_memory.len();
        assert(addr + CHUNK_LENGTH <= n);
        let mut i: usize = 0;
        while i < CHUNK_VOLUME
            invariant
                self.wf(),
                c.wf(),
                i <= CHUNK_VOLUME,
                addr + CHUNK_LENGTH <= self.chunk_memory@.len(),
                self.chunk_memory@.len() <= usize::MAX,
                c.spec_address() == addr,
                c.spec_coords() == (x, y, z),
                forall|j: int|
                    0 <= j < i ==> c.blocks()[j] == crate::bytes::le16_at(
                        self.chunk_memory@,
                        addr + 2 * j,
                    ),
            decreases CHUNK_VOLUME - i,
        {
            let w = read_u16_le(&self.chunk_memory, addr + 2 * i);
            c.set_block(i, w);
            i = i + 1;
        }
        c
    }

    /// Gets a single chunk's data at the given chunk coordinate.  If the
    /// chunk does not exist in the index, `None` is returned; the store is
    /// purely read and never fails.
    pub fn get_chunk(&self, x: i16, y: i16, z: i16) -> (r: Result<
        Option<TerrainChunkData>,
        StorageError,
    >)
        requires
            self.wf(),
        ensures
            match r {
                Ok(None) => self.spec_lookup(morton_key(x, y, z)) is None,
                Ok(Some(c)) => {
                    &&& self.spec_lookup(morton_key(x, y, z)) == Some(c.spec_address())
                    &&& 0 <= c.spec_address()
                    &&& c.spec_address() % (CHUNK_LENGTH as int) == 0
                    &&& c.spec_address() + CHUNK_LENGTH <= self.chunk_bytes().len()
                    &&& c.wf()
                    &&& c.blocks() == self.chunk_words_at(c.spec_address())
                    &&& c.spec_coords() == (x, y, z)
                },
                Err(_) => false,
            },
    {
        let key = codec::encode(x, y, z);
        match self.get_chunk_address(key) {
            Some(addr) => Ok(Some(self.load_payload(x, y, z, addr))),
            None => Ok(None),
        }
    }

    /// Grows the index image by one zero-filled node record, marked dirty,
    /// and returns the new node's byte offset.  The node map is untouched:
    /// the caller records the node in a parent slot.
    fn new_node(&mut self) -> (c: usize)
        requires
            old(self).wf(),
            old(self).index_bytes().len() + NODE_LENGTH < SENTINEL,
            old(self).index_bytes().len() + NODE_LENGTH <= usize::MAX,
        ensures
            final(self).wf(),
            final(self).nodes@ == old(self).nodes@,
            c == old(self).index_bytes().len(),
            final(self).index_bytes().len() == old(self).index_bytes().len() + NODE_LENGTH,
            forall|j: int|
                0 <= j < old(self).index_bytes().len() ==> final(self).index_bytes()[j] == old(self).index_bytes()[j],
            final(self).chunk_bytes() == old(self).chunk_bytes(),
            final(self).dirty_flags() == old(self).dirty_flags().push(true),
            forall|q: Seq<int>, d: int|
                old(self).nodes@.dom().contains(q) && 0 <= d < NODE_CAPACITY ==> #[trigger]
                slot_ptr(final(self).index_bytes(), old(self).nodes@[q], d) == slot_ptr(
                    old(self).index_bytes(),
                    old(self).nodes@[q],
                    d,
                ),
            forall|d: int|
                0 <= d < NODE_CAPACITY ==> slot_ptr(final(self).index_bytes(), c as int, d) is None,
    {
        let ghost m = self.nodes@;
        let ghost index1 = self.index_memory@;
        let c = self.index_memory.len();
        grow_zeroed(&mut self.index_memory, c + NODE_LENGTH);
        self.dirty.push(true);
        proof {
            let index2 = self.index_memory@;
            assert forall|q: Seq<int>, d: int|
                m.dom().contains(q) && 0 <= d < NODE_CAPACITY implies #[trigger] slot_ptr(
                index2,
                m[q],
                d,
            ) == slot_ptr(index1, m[q], d) by {
                assert(m[q] + NODE_LENGTH <= index1.len());
                assert forall|j: int| m[q] + d * 8 <= j < m[q] + d * 8 + 8 implies index2[j]
                    == index1[j] by {
                    assert(0 <= j < index1.len());
                }
                crate::node::lemma_slot_frame(index1, index2, m[q], d);
            }
            assert forall|d: int| 0 <= d < NODE_CAPACITY implies slot_ptr(
                index2,
                c as int,
                d,
            ) is None by {
                lemma_zero_node_slots(index2, c as int, d);
            }
            assert forall|p: Seq<int>, d: int|
                m.dom().contains(p) && p.len() < KEY_DIGITS - 1 && 0 <= d
                    < NODE_CAPACITY implies #[trigger] inner_slot_ok(index2, m, p, d) by {
                assert(slot_ptr(index2, m[p], d) == slot_ptr(index1, m[p], d));
                assert(inner_slot_ok(index1, m, p, d));
            }
            assert forall|p: Seq<int>, d: int|
                m.dom().contains(p) && p.len() == KEY_DIGITS - 1 && 0 <= d
                    < NODE_CAPACITY implies #[trigger] leaf_slot_ok(
                index2,
                m,
                p,
                d,
                self.chunk_memory@.len() as int,
            ) by {
                assert(slot_ptr(index2, m[p], d) == slot_ptr(index1, m[p], d));
                assert(leaf_slot_ok(index1, m, p, d, self.chunk_memory@.len() as int));
            }
            assert(map_ok(index2, m, self.chunk_memory@.len() as int));
        }
        c
    }

    /// Grows the chunk image by one zero-filled chunk record and returns the
    /// record's byte offset.
    fn new_chunk(&mut self) -> (c: usize)
        requires
            old(self).wf(),
            old(self).chunk_bytes().len() + CHUNK_LENGTH < SENTINEL,
            old(self).chunk_bytes().len() + CHUNK_LENGTH <= usize::MAX,
        ensures
            final(self).wf(),
            final(self).nodes@ == old(self).nodes@,
            final(self).index_bytes() == old(self).index_bytes(),
            final(self).dirty_flags() == old(self).dirty_flags(),
            c == old(self).chunk_bytes().len(),
            final(self).chunk_bytes().len() == old(self).chunk_bytes().len() + CHUNK_LENGTH,
            forall|j: int|
                0 <= j < old(self).chunk_bytes().len() ==> final(self).chunk_bytes()[j] == old(self).chunk_bytes()[j],
            forall|j: int|
                old(self).chunk_bytes().len() <= j < final(self).chunk_bytes().len() ==> final(self).chunk_bytes()[j] == 0u8,
            c as int % (CHUNK_LENGTH as int) == 0,
    {
        let ghost m = self.nodes@;
        let ghost chunk1 = self.chunk_memory@;
        let c = self.chunk_memory.len();
        grow_zeroed(&mut self.chunk_memory, c + CHUNK_LENGTH);
        proof {
            let len2 = self.chunk_memory@.len() as int;
            assert forall|p: Seq<int>, d: int|
                m.dom().contains(p) && p.len() == KEY_DIGITS - 1 && 0 <= d
                    < NODE_CAPACITY implies #[trigger] leaf_slot_ok(
                self.index_memory@,
                m,
                p,
                d,
                len2,
            ) by {
                assert(leaf_slot_ok(self.index_memory@, m, p, d, chunk1.len() as int));
            }
            assert(map_ok(self.index_memory@, m, len2));
        }
        c
    }

    /// Returns the chunk-record offset for `key`, creating the key's whole
    /// digit chain if any of it is missing: one fresh node per missing
    /// level, then one fresh zero-filled chunk record, each recorded in its
    /// parent slot only after it fully exists.  The boolean is true exactly
    /// when the chunk was created by this call.
    fn get_or_create_chunk_address(&mut self, key: u64) -> (r: Result<(bool, usize), StorageError>)
        requires
            old(self).wf(),
            key < 0x1_0000_0000_0000,
        ensures
            final(self).wf(),
            final(self).dirty_flags().len() >= old(self).dirty_flags().len(),
            forall|j: int|
                0 <= j < old(self).dirty_flags().len() && old(self).dirty_flags()[j] ==> final(self).dirty_flags()[j],
            match r {
                Err(e) => e == StorageError::IoError && *final(self) == *old(self) && old(self).spec_lookup(key) is None && !old(self).can_grow(key),
                Ok((created, a)) => {
                    &&& created == (old(self).spec_lookup(key) is None)
                    &&& final(self).spec_lookup(key) == Some(a as int)
                    &&& a as int % (CHUNK_LENGTH as int) == 0
                    &&& a + CHUNK_LENGTH <= final(self).chunk_bytes().len()
                    &&& !created ==> *final(self) == *old(self)
                    &&& created ==> old(self).can_grow(key) && a == old(self).chunk_bytes().len()
                        && final(self).index_bytes().len() == old(self).index_bytes().len() + (
                    KEY_DIGITS - 1 - old(self).reach_depth(key)) * NODE_LENGTH && final(self).chunk_bytes().len() == old(self).chunk_bytes().len() + CHUNK_LENGTH && (
                    forall|j: int|
                        0 <= j < old(self).chunk_bytes().len() ==> final(self).chunk_bytes()[j]
                            == old(self).chunk_bytes()[j]) && (forall|j: int|
                        old(self).chunk_bytes().len() <= j < final(self).chunk_bytes().len()
                            ==> final(self).chunk_bytes()[j] == 0u8) && (forall|k2: u64|
                        k2 < 0x1_0000_0000_0000 && k2 != key ==> final(self).spec_lookup(k2) == old(self).spec_lookup(k2))
                },
            },
    {
        let ghost m0 = self.nodes@;
        let ghost index0 = self.index_memory@;
        let ghost chunk0 = self.chunk_memory@;
        let il = self.index_memory.len();
        let cl = self.chunk_memory.len();
        let (depth0, node0) = self.probe(key);
        if depth0 == KEY_DIGITS - 1 {
            let d5 = digit_of(key, KEY_DIGITS - 1);
            let ghost p5 = path_prefix(key, (KEY_DIGITS - 1) as int);
            match get_pointer(&self.index_memory, node0, d5) {
                Some(a) => {
                    proof {
                        assert(leaf_slot_ok(index0, m0, p5, d5 as int, chunk0.len() as int));
                        assert(a as int + CHUNK_LENGTH <= cl);
                    }
                    return Ok((false, a as usize));
                }
                None => {}
            }
        }
        proof {
            assert(self.spec_lookup(key) is None);
        }
        let missing = KEY_DIGITS - 1 - depth0;
        let need_index: u64 = (missing as u64) * (NODE_LENGTH as u64);
        let new_index_len: u64 = il as u64 + need_index;
        if new_index_len >= SENTINEL || new_index_len > usize::MAX as u64 {
            return Err(StorageError::IoError);
        }
        let new_chunk_len: u64 = cl as u64 + CHUNK_LENGTH as u64;
        if new_chunk_len >= SENTINEL || new_chunk_len > usize::MAX as u64 {
            return Err(StorageError::IoError);
        }
        assert(old(self).can_grow(key));
        let mut i = depth0;
        let mut node = node0;
        while i < KEY_DIGITS - 1
            invariant
                self.wf(),
                key < 0x1_0000_0000_0000,
                depth0 <= i <= KEY_DIGITS - 1,
                self.nodes@.dom().contains(path_prefix(key, i as int)),
                node == self.nodes@[path_prefix(key, i as int)],
                slot_ptr(
                    self.index_memory@,
                    node as int,
                    key_digit(key, i as int) as int,
                ) is None,
                self.index_memory@.len() == il + (i - depth0) * NODE_LENGTH,
                il + (KEY_DIGITS - 1 - depth0) * NODE_LENGTH < SENTINEL,
                il + (KEY_DIGITS - 1 - depth0) * NODE_LENGTH <= usize::MAX,
                self.chunk_memory@ == chunk0,
                chunk0.len() + CHUNK_LENGTH < SENTINEL,
                chunk0.len() + CHUNK_LENGTH <= usize::MAX,
                chunk0.len() == cl,
                self.dirty@.len() >= old(self).dirty_flags().len(),
                forall|j: int|
                    0 <= j < old(self).dirty_flags().len() && old(self).dirty_flags()[j]
                        ==> self.dirty@[j],
                forall|k2: u64|
                    walk(self.index_memory@, 0, k2, 0) == #[trigger] walk(index0, 0, k2, 0),
            decreases KEY_DIGITS - 1 - i,
        {
            let d = digit_of(key, i);
            let ghost p = path_prefix(key, i as int);
            let ghost m1 = self.nodes@;
            let ghost index1 = self.index_memory@;
            let c = self.new_node();
            let ghost index2 = self.index_memory@;
            proof {
                assert(m1.dom().contains(p));
                assert(slot_ptr(index2, m1[p], d as int) == slot_ptr(index1, m1[p], d as int));
                assert(slot_ptr(index2, node as int, d as int) is None);
            }
            set_pointer(&mut self.index_memory, node, d, c as u64);
            let di = node / NODE_LENGTH;
            proof {
                assert(node as int + NODE_LENGTH <= self.dirty@.len() * NODE_LENGTH);
                assert(di < self.dirty@.len()) by (nonlinear_arith)
                    requires
                        di == node / NODE_LENGTH,
                        NODE_LENGTH == 2048,
                        node as int + NODE_LENGTH <= self.dirty@.len() * NODE_LENGTH,
                ;
            }
            self.dirty.set(di, true);
            proof {
                let index3 = self.index_memory@;
                let cl_now = self.chunk_memory@.len() as int;
                lemma_other_slots_unchanged(index2, index3, m1, cl_now, p, d as int);
                assert forall|d2: int| 0 <= d2 < NODE_CAPACITY implies slot_ptr(
                    index3,
                    c as int,
                    d2,
                ) is None by {
                    assert(m1[p] + NODE_LENGTH <= c as int);
                    assert forall|j: int| c + d2 * 8 <= j < c + d2 * 8 + 8 implies index3[j]
                        == index2[j] by {
                        assert(0 <= j < index2.len());
                    }
                    crate::node::lemma_slot_frame(index2, index3, c as int, d2);
                }
                assert forall|q: Seq<int>| #[trigger] m1.dom().contains(q) implies m1[q] != c
                    as int by {
                    assert(m1[q] + NODE_LENGTH <= index1.len());
                }
                lemma_install_node(index2, index3, m1, cl_now, p, d as int, c as int);
            }
            self.nodes = Ghost(m1.insert(p.push(d as int), c as int));
            proof {
                let index3 = self.index_memory@;
                let cl_now = self.chunk_memory@.len() as int;
                let m2 = self.nodes@;
                assert(map_ok(index3, m2, cl_now));
                assert(p.push(d as int) =~= path_prefix(key, i + 1));
                assert(m2[path_prefix(key, i + 1)] == c as int);
                crate::node::lemma_digit_bound(key);
                assert(slot_ptr(index3, c as int, key_digit(key, i + 1) as int) is None);
                assert forall|k2: u64| walk(index3, 0, k2, 0) == #[trigger] walk(
                    index0,
                    0,
                    k2,
                    0,
                ) by {
                    assert(path_prefix(k2, 0) =~= Seq::<int>::empty());
                    lemma_walk_frame(index1, index2, m1, cl_now, k2, 0);
                    assert(walk(index2, 0, k2, 0) == walk(index1, 0, k2, 0));
                    if p == path_prefix(k2, p.len() as int) && (d as int) == key_digit(
                        k2,
                        p.len() as int,
                    ) {
                        lemma_walk_to_prefix(index2, m1, cl_now, k2, i as int);
                        assert(walk(index2, m1[p], k2, i as int) is None);
                        lemma_walk_to_prefix(index3, m2, cl_now, k2, i as int);
                        assert(m2[p] == m1[p]);
                        assert(slot_ptr(index3, m2[p], d as int) == Some(c as int));
                        lemma_walk_from_empty(index3, c as int, k2, i + 1);
                        assert(walk(index3, m2[p], k2, i as int) is None);
                    } else {
                        lemma_walk_frame_except(index2, index3, m1, cl_now, k2, 0, p, d as int);
                    }
                }
            }
            node = c;
            i = i + 1;
        }
        let ghost m5 = self.nodes@;
        let ghost p5 = path_prefix(key, (KEY_DIGITS - 1) as int);
        let ghost index5 = self.index_memory@;
        let caddr = self.new_chunk();
        let ghost index6 = self.index_memory@;
        let d5 = digit_of(key, KEY_DIGITS - 1);
        proof {
            assert(index6 == index5);
            assert(slot_ptr(index6, node as int, d5 as int) is None);
            assert(m5.dom().contains(p5));
        }
        set_pointer(&mut self.index_memory, node, d5, caddr as u64);
        let di = node / NODE_LENGTH;
        proof {
            assert(node as int + NODE_LENGTH <= self.dirty@.len() * NODE_LENGTH);
            assert(di < self.dirty@.len()) by (nonlinear_arith)
                requires
                    di == node / NODE_LENGTH,
                    NODE_LENGTH == 2048,
                    node as int + NODE_LENGTH <= self.dirty@.len() * NODE_LENGTH,
            ;
        }
        self.dirty.set(di, true);
        proof {
            let index7 = self.index_memory@;
            let cl_new = self.chunk_memory@.len() as int;
            lemma_other_slots_unchanged(index6, index7, m5, cl_new, p5, d5 as int);
            lemma_install_chunk(index6, index7, m5, cl_new, cl_new, p5, d5 as int, caddr as int);
            assert(map_ok(index7, m5, cl_new));
            lemma_walk_to_prefix(index7, m5, cl_new, key, (KEY_DIGITS - 1) as int);
            assert(walk(index7, 0, key, 0) == Some(caddr as int));
            assert forall|k2: u64|
                k2 < 0x1_0000_0000_0000 && k2 != key implies #[trigger] walk(index7, 0, k2, 0)
                == walk(index0, 0, k2, 0) by {
                crate::node::lemma_digit_bound(k2);
                if p5 == path_prefix(k2, (KEY_DIGITS - 1) as int) && (d5 as int) == key_digit(
                    k2,
                    (KEY_DIGITS - 1) as int,
                ) {
                    assert(path_prefix(key, 5)[0] == key_digit(key, 0));
                    assert(path_prefix(key, 5)[1] == key_digit(key, 1));
                    assert(path_prefix(key, 5)[2] == key_digit(key, 2));
                    assert(path_prefix(key, 5)[3] == key_digit(key, 3));
                    assert(path_prefix(key, 5)[4] == key_digit(key, 4));
                    assert((k2 >> 40) & 0xFF == (key >> 40) & 0xFF);
                    assert((k2 >> 32) & 0xFF == (key >> 32) & 0xFF);
                    assert((k2 >> 24) & 0xFF == (key >> 24) & 0xFF);
                    assert((k2 >> 16) & 0xFF == (key >> 16) & 0xFF);
                    assert((k2 >> 8) & 0xFF == (key >> 8) & 0xFF);
                    assert(k2 & 0xFF == key & 0xFF);
                    crate::node::lemma_digits_determine_key(k2, key);
                    assert(false);
                } else {
                    assert(path_prefix(k2, 0) =~= Seq::<int>::empty());
                    lemma_walk_frame_except(index6, index7, m5, cl_new, k2, 0, p5, d5 as int);
                }
            }
        }
        Ok((true, caddr))
    }

    /// Gets a single chunk's data at the given chunk coordinate, creating
    /// the chunk (zero-filled) if it does not exist in the index.  The
    /// returned boolean is true exactly when the chunk was just created; the
    /// payload is always valid.  Creation for one coordinate never touches
    /// what any other coordinate resolves to.
    pub fn get_or_create_chunk(&mut self, x: i16, y: i16, z: i16) -> (r: Result<
        (bool, TerrainChunkData),
        StorageError,
    >)
        requires
            old(self).wf(),
        ensures
            final(self).wf(),
            final(self).dirty_flags().len() >= old(self).dirty_flags().len(),
            forall|j: int|
                0 <= j < old(self).dirty_flags().len() && old(self).dirty_flags()[j] ==> final(self).dirty_flags()[j],
            match r {
                Err(e) => e == StorageError::IoError && *final(self) == *old(self) && old(self).spec_lookup(morton_key(x, y, z)) is None && !old(self).can_grow(
                    morton_key(x, y, z),
                ),
                Ok((created, c)) => {
                    &&& created == (old(self).spec_lookup(morton_key(x, y, z)) is None)
                    &&& final(self).spec_lookup(morton_key(x, y, z)) == Some(c.spec_address())
                    &&& 0 <= c.spec_address()
                    &&& c.spec_address() % (CHUNK_LENGTH as int) == 0
                    &&& c.spec_address() + CHUNK_LENGTH <= final(self).chunk_bytes().len()
                    &&& c.wf()
                    &&& c.spec_coords() == (x, y, z)
                    &&& c.blocks() == final(self).chunk_words_at(c.spec_address())
                    &&& !created ==> *final(self) == *old(self)
                    &&& created ==> old(self).can_grow(morton_key(x, y, z)) && c.spec_address()
                        == old(self).chunk_bytes().len() && c.blocks() == Seq::new(
                        CHUNK_VOLUME as nat,
                        |i: int| 0u16,
                    ) && final(self).index_bytes().len() == old(self).index_bytes().len() + (
                    KEY_DIGITS - 1 - old(self).reach_depth(morton_key(x, y, z))) * NODE_LENGTH
                        && final(self).chunk_bytes().len() == old(self).chunk_bytes().len()
                        + CHUNK_LENGTH && final(self).chunk_bytes().subrange(
                        0,
                        old(self).chunk_bytes().len() as int,
                    ) == old(self).chunk_bytes() && (forall|k2: u64|
                        k2 < 0x1_0000_0000_0000 && k2 != morton_key(x, y, z) ==> final(self).spec_lookup(k2) == old(self).spec_lookup(k2))
                },
            },
    {
        let key = codec::encode(x, y, z);
        match self.get_or_create_chunk_address(key) {
            Ok((created, addr)) => {
                let c = self.load_payload(x, y, z, addr);
                proof {
                    if created {
                        assert forall|w: int| 0 <= w < CHUNK_VOLUME implies self.chunk_words_at(
                            addr as int,
                        )[w] == 0u16 by {
                            assert(self.chunk_memory@[addr + 2 * w] == 0u8);
                            assert(self.chunk_memory@[addr + 2 * w + 1] == 0u8);
                        }
                        assert(c.blocks() =~= Seq::new(CHUNK_VOLUME as nat, |i: int| 0u16));
                        assert(final(self).chunk_bytes().subrange(
                            0,
                            old(self).chunk_bytes().len() as int,
                        ) =~= old(self).chunk_bytes());
                    }
                }
                Ok((created, c))
            }
            Err(e) => Err(e),
        }
    }

    /// What holds of entry `t` of a finished range visit: a valid payload
    /// for the `t`-th coordinate of the box, registered in the index and
    /// byte-identical with its backing record.
    pub open spec fn range_entry_ok(
        self,
        low: (i16, i16, i16),
        high: (i16, i16, i16),
        t: int,
        c: TerrainChunkData,
    ) -> bool {
        &&& c.wf()
        &&& in_box(low, high, c.spec_coords().0, c.spec_coords().1, c.spec_coords().2)
        &&& box_index(low, high, c.spec_coords().0, c.spec_coords().1, c.spec_coords().2) == t
        &&& 0 <= c.spec_address()
        &&& c.spec_address() % (CHUNK_LENGTH as int) == 0
        &&& c.spec_address() + CHUNK_LENGTH <= self.chunk_bytes().len()
        &&& self.spec_lookup(
            morton_key(c.spec_coords().0, c.spec_coords().1, c.spec_coords().2),
        ) == Some(c.spec_address())
        &&& c.blocks() == self.chunk_words_at(c.spec_address())
    }

    /// Visits the box with its corners already ordered, low to high on
    /// every axis, x fastest, then z, then y.
    fn visit_box(&mut self, low: (i16, i16, i16), high: (i16, i16, i16)) -> (r: Result<
        Vec<TerrainChunkData>,
        StorageError,
    >)
        requires
            old(self).wf(),
        ensures
            final(self).wf(),
            final(self).dirty_flags().len() >= old(self).dirty_flags().len(),
            forall|j: int|
                0 <= j < old(self).dirty_flags().len() && old(self).dirty_flags()[j]
                    ==> final(self).dirty_flags()[j],
            forall|x2: i16, y2: i16, z2: i16|
                !in_box(low, high, x2, y2, z2) ==> final(self).spec_lookup(
                    #[trigger] morton_key(x2, y2, z2),
                ) == old(self).spec_lookup(morton_key(x2, y2, z2)),
            match r {
                Ok(v) => v@.len() == box_volume(low, high) && forall|t: int|
                    0 <= t < v@.len() ==> final(self).range_entry_ok(low, high, t, #[trigger] v@[t]),
                Err(e) => e == StorageError::IoError && exists|x2: i16, y2: i16, z2: i16|
                    in_box(low, high, x2, y2, z2) && final(self).spec_lookup(
                        #[trigger] morton_key(x2, y2, z2),
                    ) is None && !final(self).can_grow(morton_key(x2, y2, z2)),
            },
    {
        let mut r: Vec<TerrainChunkData> = Vec::new();
        if high.0 < low.0 || high.1 < low.1 || high.2 < low.2 {
            return Ok(r);
        }
        let ghost nx = high.0 - low.0 + 1int;
        let ghost nzz = high.2 - low.2 + 1int;
        let mut y: i32 = low.1 as i32;
        while y <= high.1 as i32
            invariant
                self.wf(),
                low.0 <= high.0,
                low.1 <= high.1,
                low.2 <= high.2,
                nx == high.0 - low.0 + 1,
                nzz == high.2 - low.2 + 1,
                low.1 <= y <= high.1 + 1,
                r@.len() == (y - low.1) * (nzz * nx),
                forall|t: int|
                    0 <= t < r@.len() ==> self.range_entry_ok(low, high, t, #[trigger] r@[t]),
                self.dirty@.len() >= old(self).dirty_flags().len(),
                forall|j: int|
                    0 <= j < old(self).dirty_flags().len() && old(self).dirty_flags()[j]
                        ==> self.dirty@[j],
                forall|x2: i16, y2: i16, z2: i16|
                    !in_box(low, high, x2, y2, z2) ==> self.spec_lookup(
                        #[trigger] morton_key(x2, y2, z2),
                    ) == old(self).spec_lookup(morton_key(x2, y2, z2)),
            decreases high.1 + 1 - y,
        {
            let mut z: i32 = low.2 as i32;
            proof {
                let g = y - low.1;
                assert((g * nzz) * nx == g * (nzz * nx)) by (nonlinear_arith);
            }
            while z <= high.2 as i32
                invariant
                    self.wf(),
                    low.0 <= high.0,
                    low.1 <= high.1,
                    low.2 <= high.2,
                    nx == high.0 - low.0 + 1,
                    nzz == high.2 - low.2 + 1,
                    low.1 <= y <= high.1,
                    low.2 <= z <= high.2 + 1,
                    r@.len() == ((y - low.1) * nzz + (z - low.2)) * nx,
                    forall|t: int|
                        0 <= t < r@.len() ==> self.range_entry_ok(low, high, t, #[trigger] r@[t]),
                    self.dirty@.len() >= old(self).dirty_flags().len(),
                    forall|j: int|
                        0 <= j < old(self).dirty_flags().len() && old(self).dirty_flags()[j]
                            ==> self.dirty@[j],
                    forall|x2: i16, y2: i16, z2: i16|
                        !in_box(low, high, x2, y2, z2) ==> self.spec_lookup(
                            #[trigger] morton_key(x2, y2, z2),
                        ) == old(self).spec_lookup(morton_key(x2, y2, z2)),
                decreases high.2 + 1 - z,
            {
                let mut x: i32 = low.0 as i32;
                while x <= high.0 as i32
                    invariant
                        self.wf(),
                        low.0 <= high.0,
                        low.1 <= high.1,
                        low.2 <= high.2,
                        nx == high.0 - low.0 + 1,
                        nzz == high.2 - low.2 + 1,
                        low.1 <= y <= high.1,
                        low.2 <= z <= high.2,
                        low.0 <= x <= high.0 + 1,
                        r@.len() == ((y - low.1) * nzz + (z - low.2)) * nx + (x - low.0),
                        forall|t: int|
                            0 <= t < r@.len() ==> self.range_entry_ok(
                                low,
                                high,
                                t,
                                #[trigger] r@[t],
                            ),
                        self.dirty@.len() >= old(self).dirty_flags().len(),
                        forall|j: int|
                            0 <= j < old(self).dirty_flags().len() && old(self).dirty_flags()[j]
                                ==> self.dirty@[j],
                        forall|x2: i16, y2: i16, z2: i16|
                            !in_box(low, high, x2, y2, z2) ==> self.spec_lookup(
                                #[trigger] morton_key(x2, y2, z2),
                            ) == old(self).spec_lookup(morton_key(x2, y2, z2)),
                    decreases high.0 + 1 - x,
                {
                    let xi: i16 = x as i16;
                    let yi: i16 = y as i16;
                    let zi: i16 = z as i16;
                    let ghost pre = *self;
                    let ghost len0 = r@.len() as int;
                    proof {
                        assert(xi == x && yi == y && zi == z);
                        assert(box_index(low, high, xi, yi, zi) == len0);
                    }
                    match self.get_or_create_chunk(xi, yi, zi) {
                        Ok((created, c)) => {
                            proof {
                                codec::lemma_encode_bound(xi, yi, zi);
                                if created {
                                    assert forall|j: int|
                                        0 <= j < pre.chunk_bytes().len() implies self
                                        .chunk_bytes()[j] == pre.chunk_bytes()[j] by {
                                        assert(self.chunk_bytes().subrange(
                                            0,
                                            pre.chunk_bytes().len() as int,
                                        )[j] == self.chunk_bytes()[j]);
                                    }
                                }
                                assert forall|t: int| 0 <= t < r@.len() implies self
                                    .range_entry_ok(low, high, t, r@[t]) by {
                                    let e = r@[t];
                                    let ex = e.spec_coords().0;
                                    let ey = e.spec_coords().1;
                                    let ez = e.spec_coords().2;
                                    assert(pre.range_entry_ok(low, high, t, e));
                                    assert(box_index(low, high, ex, ey, ez) == t);
                                    assert(!(ex == xi && ey == yi && ez == zi));
                                    codec::lemma_encode_injective(ex, ey, ez, xi, yi, zi);
                                    codec::lemma_encode_bound(ex, ey, ez);
                                    assert(morton_key(ex, ey, ez) != morton_key(xi, yi, zi));
                                    if created {
                                        assert forall|w: int|
                                            0 <= w < CHUNK_VOLUME implies #[trigger]
                                        crate::bytes::le16_at(
                                            self.chunk_bytes(),
                                            e.spec_address() + 2 * w,
                                        ) == crate::bytes::le16_at(
                                            pre.chunk_bytes(),
                                            e.spec_address() + 2 * w,
                                        ) by {
                                            crate::bytes::lemma_le16_frame(
                                                pre.chunk_bytes(),
                                                self.chunk_bytes(),
                                                e.spec_address() + 2 * w,
                                            );
                                        }
                                        assert(self.chunk_words_at(e.spec_address())
                                            =~= pre.chunk_words_at(e.spec_address()));
                                    }
                                }
                                assert forall|x2: i16, y2: i16, z2: i16|
                                    !in_box(low, high, x2, y2, z2) implies self.spec_lookup(
                                    morton_key(x2, y2, z2),
                                ) == old(self).spec_lookup(morton_key(x2, y2, z2)) by {
                                    assert(!(x2 == xi && y2 == yi && z2 == zi));
                                    codec::lemma_encode_injective(x2, y2, z2, xi, yi, zi);
                                    codec::lemma_encode_bound(x2, y2, z2);
                                    assert(pre.spec_lookup(morton_key(x2, y2, z2)) == old(
                                        self,
                                    ).spec_lookup(morton_key(x2, y2, z2)));
                                }
                            }
                            r.push(c);
                        }
                        Err(_) => {
                            proof {
                                assert(in_box(low, high, xi, yi, zi));
                                assert(self.spec_lookup(morton_key(xi, yi, zi)) is None);
                                assert(!self.can_grow(morton_key(xi, yi, zi)));
                            }
                            return Err(StorageError::IoError);
                        }
                    }
                    x = x + 1;
                }
                proof {
                    let aa = (y - low.1) * nzz + (z - low.2);
                    assert((aa + 1) * nx == aa * nx + nx) by (nonlinear_arith);
                }
                z = z + 1;
            }
            proof {
                let g = y - low.1;
                assert(((g * nzz) + nzz) * nx == (g * nzz) * nx + nzz * nx) by (nonlinear_arith);
                assert((g * nzz) * nx == g * (nzz * nx)) by (nonlinear_arith);
                assert((g + 1) * (nzz * nx) == g * (nzz * nx) + nzz * nx) by (nonlinear_arith);
            }
            y = y + 1;
        }
        proof {
            let g = high.1 - low.1 + 1;
            assert(r@.len() == g * (nzz * nx));
            assert(box_volume(low, high) == g * (nzz * nx));
        }
        Ok(r)
    }

    /// Visits every coordinate of the inclusive axis-aligned box spanned by
    /// the two corners, creating each chunk that is absent, and returns the
    /// payloads in visiting order (x fastest, then z, then y): one per
    /// coordinate of the box.  The corners are taken in either order, each
    /// axis between its smaller and larger endpoint.  Coordinates outside
    /// the box are left exactly as they were, whether the call completes or
    /// stops at an image that cannot grow; failure comes only from such a
    /// growth limit, and names a box coordinate left uncreated.
    pub fn get_chunks_in_range(&mut self, low: (i16, i16, i16), high: (i16, i16, i16)) -> (r:
        Result<Vec<TerrainChunkData>, StorageError>)
        requires
            old(self).wf(),
        ensures
            final(self).wf(),
            final(self).dirty_flags().len() >= old(self).dirty_flags().len(),
            forall|j: int|
                0 <= j < old(self).dirty_flags().len() && old(self).dirty_flags()[j]
                    ==> final(self).dirty_flags()[j],
            forall|x2: i16, y2: i16, z2: i16|
                !in_box(box_corner_low(low, high), box_corner_high(low, high), x2, y2, z2)
                    ==> final(self).spec_lookup(#[trigger] morton_key(x2, y2, z2)) == old(
                    self,
                ).spec_lookup(morton_key(x2, y2, z2)),
            match r {
                Ok(v) => v@.len() == box_volume(box_corner_low(low, high), box_corner_high(low, high))
                    && forall|t: int|
                    0 <= t < v@.len() ==> final(self).range_entry_ok(
                        box_corner_low(low, high),
                        box_corner_high(low, high),
                        t,
                        #[trigger] v@[t],
                    ),
                Err(e) => e == StorageError::IoError && exists|x2: i16, y2: i16, z2: i16|
                    in_box(box_corner_low(low, high), box_corner_high(low, high), x2, y2, z2)
                        && final(self).spec_lookup(#[trigger] morton_key(x2, y2, z2)) is None
                        && !final(self).can_grow(morton_key(x2, y2, z2)),
            },
    {
        let lx: i16 = if low.0 <= high.0 { low.0 } else { high.0 };
        let ly: i16 = if low.1 <= high.1 { low.1 } else { high.1 };
        let lz: i16 = if low.2 <= high.2 { low.2 } else { high.2 };
        let hx: i16 = if low.0 <= high.0 { high.0 } else { low.0 };
        let hy: i16 = if low.1 <= high.1 { high.1 } else { low.1 };
        let hz: i16 = if low.2 <= high.2 { high.2 } else { low.2 };
        self.visit_box((lx, ly, lz), (hx, hy, hz))
    }

    /// Copies the payload's in-memory blocks into its backing region of the
    /// chunk image, as little-endian pairs of bytes.  A payload whose
    /// backing address does not name a whole record inside the image is a
    /// defect of the caller's bookkeeping and is rejected outright.
    pub fn save_chunk(&mut self, chunk: &TerrainChunkData) -> (r: Result<(), StorageError>)
        requires
            old(self).wf(),
            chunk.wf(),
        ensures
            final(self).wf(),
            match r {
                Ok(()) => {
                    &&& chunk.spec_address() % (CHUNK_LENGTH as int) == 0
                    &&& chunk.spec_address() + CHUNK_LENGTH <= old(self).chunk_bytes().len()
                    &&& final(self).index_bytes() == old(self).index_bytes()
                    &&& final(self).dirty_flags() == old(self).dirty_flags()
                    &&& final(self).chunk_bytes().len() == old(self).chunk_bytes().len()
                    &&& forall|j: int|
                        0 <= j < old(self).chunk_bytes().len() && !(chunk.spec_address() <= j
                            < chunk.spec_address() + CHUNK_LENGTH) ==> final(self).chunk_bytes()[j]
                            == old(self).chunk_bytes()[j]
                    &&& final(self).chunk_words_at(chunk.spec_address()) == chunk.blocks()
                    &&& forall|k2: u64| final(self).spec_lookup(k2) == old(self).spec_lookup(k2)
                },
                Err(e) => {
                    &&& e == StorageError::OutOfRange
                    &&& *final(self) == *old(self)
                    &&& !(chunk.spec_address() % (CHUNK_LENGTH as int) == 0 && chunk.spec_address()
                        + CHUNK_LENGTH <= old(self).chunk_bytes().len())
                },
            },
    {
        let addr = chunk.get_address_in_file();
        let n = self.chunk_memory.len();
        if addr % CHUNK_LENGTH != 0 || n < CHUNK_LENGTH || addr > n - CHUNK_LENGTH {
            return Err(StorageError::OutOfRange);
        }
        let ghost chunk0 = self.chunk_memory@;
        let mut i: usize = 0;
        while i < CHUNK_VOLUME
            invariant
                chunk.wf(),
                i <= CHUNK_VOLUME,
                chunk.spec_address() == addr,
                chunk0 == old(self).chunk_memory@,
                self.index_memory@ == old(self).index_memory@,
                self.nodes@ == old(self).nodes@,
                self.dirty@ == old(self).dirty_flags(),
                old(self).wf(),
                addr + CHUNK_LENGTH <= self.chunk_memory@.len(),
                self.chunk_memory@.len() <= usize::MAX,
                self.chunk_memory@.len() == chunk0.len(),
                forall|j: int|
                    0 <= j < chunk0.len() && !(addr <= j < addr + CHUNK_LENGTH)
                        ==> self.chunk_memory@[j] == chunk0[j],
                forall|w: int|
                    0 <= w < i ==> crate::bytes::le16_at(self.chunk_memory@, addr + 2 * w)
                        == chunk.blocks()[w],
            decreases CHUNK_VOLUME - i,
        {
            let b = chunk.get_block(i);
            let ghost before = self.chunk_memory@;
            write_u16_le(&mut self.chunk_memory, addr + 2 * i, b);
            proof {
                assert forall|w: int|
                    0 <= w < i implies crate::bytes::le16_at(self.chunk_memory@, addr + 2 * w)
                    == chunk.blocks()[w] by {
                    assert forall|j: int| addr + 2 * w <= j < addr + 2 * w + 2 implies self
                        .chunk_memory@[j] == before[j] by {
                        assert(!(addr + 2 * i <= j < addr + 2 * i + 2));
                    }
                    crate::bytes::lemma_le16_frame(before, self.chunk_memory@, addr + 2 * w);
                }
            }
            i = i + 1;
        }
        proof {
            let m = self.nodes@;
            assert(self.index_memory@ == old(self).index_memory@);
            assert(map_ok(self.index_memory@, m, self.chunk_memory@.len() as int));
            assert(self.chunk_words_at(addr as int) =~= chunk.blocks());
        }
        Ok(())
    }

    /// Forces the index image's dirty bookkeeping to a flushed state: every
    /// dirty flag is cleared, and the byte offsets of exactly the nodes that
    /// were dirty are returned, in increasing order, for the caller to
    /// persist.  Chunk data is not covered: its durability is the caller's
    /// responsibility through [`Self::save_chunk`] and an explicit write of
    /// the chunk image.
    pub fn flush_index(&mut self) -> (r: Vec<u64>)
        requires
            old(self).wf(),
        ensures
            final(self).wf(),
            r@ == dirty_node_offsets(old(self).dirty_flags(), old(self).dirty_flags().len() as int),
            final(self).dirty_flags().len() == old(self).dirty_flags().len(),
            forall|j: int| 0 <= j < final(self).dirty_flags().len() ==> !final(self).dirty_flags()[j],
            final(self).index_bytes() == old(self).index_bytes(),
            final(self).chunk_bytes() == old(self).chunk_bytes(),
            forall|key: u64| final(self).spec_lookup(key) == old(self).spec_lookup(key),
    {
        let n = self.dirty.len();
        let mut r: Vec<u64> = Vec::new();
        let mut i: usize = 0;
        while i < n
            invariant
                i <= n,
                n == self.dirty@.len(),
                self.dirty@.len() * NODE_LENGTH == self.index_memory@.len(),
                self.index_memory@.len() < SENTINEL,
                forall|j: int| i <= j < n ==> self.dirty@[j] == old(self).dirty_flags()[j],
                forall|j: int| 0 <= j < i ==> !self.dirty@[j],
                r@ == dirty_node_offsets(old(self).dirty_flags(), i as int),
                self.index_memory@ == old(self).index_memory@,
                self.chunk_memory@ == old(self).chunk_memory@,
                self.nodes@ == old(self).nodes@,
            decreases n - i,
        {
            proof {
                assert((i + 1) * NODE_LENGTH <= n * NODE_LENGTH) by (nonlinear_arith)
                    requires
                        i < n,
                        NODE_LENGTH == 2048,
                ;
            }
            if self.dirty[i] {
                r.push((i as u64) * (NODE_LENGTH as u64));
            }
            self.dirty.set(i, false);
            i = i + 1;
        }
        r
    }
}

/// Whether a coordinate lies in the inclusive axis-aligned box from `low`
/// to `high`.
pub open spec fn in_box(low: (i16, i16, i16), high: (i16, i16, i16), x: i16, y: i16, z: i16) -> bool {
    low.0 <= x <= high.0 && low.1 <= y <= high.1 && low.2 <= z <= high.2
}

/// The componentwise smaller of two box corners.
pub open spec fn box_corner_low(a: (i16, i16, i16), b: (i16, i16, i16)) -> (i16, i16, i16) {
    (
        if a.0 <= b.0 { a.0 } else { b.0 },
        if a.1 <= b.1 { a.1 } else { b.1 },
        if a.2 <= b.2 { a.2 } else { b.2 },
    )
}

/// The componentwise larger of two box corners.
pub open spec fn box_corner_high(a: (i16, i16, i16), b: (i16, i16, i16)) -> (i16, i16, i16) {
    (
        if a.0 <= b.0 { b.0 } else { a.0 },
        if a.1 <= b.1 { b.1 } else { a.1 },
        if a.2 <= b.2 { b.2 } else { a.2 },
    )
}

/// The position of a coordinate in the box's visiting order: x fastest,
/// then z, then y.
pub open spec fn box_index(low: (i16, i16, i16), high: (i16, i16, i16), x: i16, y: i16, z: i16) -> int {
    ((y - low.1) * (high.2 - low.2 + 1) + (z - low.2)) * (high.0 - low.0 + 1) + (x - low.0)
}

/// How many coordinates the inclusive box holds.
pub open spec fn box_volume(low: (i16, i16, i16), high: (i16, i16, i16)) -> int {
    if high.0 < low.0 || high.1 < low.1 || high.2 < low.2 {
        0
    } else {
        (high.1 - low.1 + 1) * ((high.2 - low.2 + 1) * (high.0 - low.0 + 1))
    }
}

/// The byte offsets of the nodes flagged dirty among the first `n` flags,
/// in increasing order.
pub open spec fn dirty_node_offsets(d: Seq<bool>, n: int) -> Seq<u64>
    decreases n,
{
    if n <= 0 {
        Seq::empty()
    } else if d[n - 1] {
        dirty_node_offsets(d, n - 1).push(((n - 1) * NODE_LENGTH) as u64)
    } else {
        dirty_node_offsets(d, n - 1)
    }
}

/// From level `i`, a walk reaches at least level `i` and at most the leaf
/// level.
proof fn lemma_depth_from_bounds(index: Seq<u8>, node: int, key: u64, i: int)
    requires
        0 <= i <= KEY_DIGITS - 1,
    ensures
        i <= depth_from(index, node, key, i) <= KEY_DIGITS - 1,
    decreases KEY_DIGITS - i,
{
    if i < KEY_DIGITS - 1 {
        match slot_ptr(index, node, key_digit(key, i) as int) {
            None => {}
            Some(c) => {
                lemma_depth_from_bounds(index, c, key, i + 1);
            }
        }
    }
}

/// A key resolves through at least zero and at most all five node levels,
/// so a creating lookup never needs more than five fresh nodes and one
/// fresh chunk record: with the store's image lengths in hand, a caller can
/// settle [`TerrainDiskStorage::can_grow`] outright.
pub proof fn lemma_reach_depth_bounds(s: TerrainDiskStorage, key: u64)
    ensures
        0 <= s.reach_depth(key) <= KEY_DIGITS - 1,
{
    lemma_depth_from_bounds(s.index_bytes(), 0, key, 0);
}

/// Two stores over identical file images answer every lookup identically
/// and hold identical chunk records: what a store says is a function of its
/// bytes alone, so saving the images and reopening them preserves every
/// chunk byte for byte.
pub proof fn lemma_store_determined_by_bytes(a: TerrainDiskStorage, b: TerrainDiskStorage)
    requires
        a.index_bytes() == b.index_bytes(),
        a.chunk_bytes() == b.chunk_bytes(),
    ensures
        forall|key: u64| a.spec_lookup(key) == b.spec_lookup(key),
        forall|addr: int| a.chunk_words_at(addr) == b.chunk_words_at(addr),
{
}

/// A walk that starts at a mapped prefix of its key's path computes the same
/// result as the walk from the root.
proof fn lemma_walk_to_prefix(
    index: Seq<u8>,
    m: Map<Seq<int>, int>,
    chunk_len: int,
    key: u64,
    i: int,
)
    requires
        map_ok(index, m, chunk_len),
        0 <= i <= KEY_DIGITS - 1,
        m.dom().contains(path_prefix(key, i)),
    ensures
        walk(index, 0, key, 0) == walk(index, m[path_prefix(key, i)], key, i),
    decreases i,
{
    if i == 0 {
        assert(path_prefix(key, 0) =~= Seq::<int>::empty());
    } else {
        let p = path_prefix(key, i);
        let pp = path_prefix(key, i - 1);
        assert(p.drop_last() =~= pp);
        assert(m.dom().contains(pp));
        crate::node::lemma_digit_bound(key);
        let d = key_digit(key, i - 1) as int;
        assert(pp.push(d) =~= p);
        assert(inner_slot_ok(index, m, pp, d));
        match slot_ptr(index, m[pp], d) {
            None => {
                assert(!m.dom().contains(p));
                assert(false);
            }
            Some(c) => {
                assert(c == m[p]);
            }
        }
        lemma_walk_to_prefix(index, m, chunk_len, key, i - 1);
    }
}

/// A walk entering a node with no set slots finds nothing.
proof fn lemma_walk_from_empty(index: Seq<u8>, node: int, key: u64, i: int)
    requires
        forall|d: int| 0 <= d < NODE_CAPACITY ==> slot_ptr(index, node, d) is None,
    ensures
        walk(index, node, key, i) is None,
{
    crate::node::lemma_digit_bound(key);
    if i >= KEY_DIGITS - 1 {
        assert(slot_ptr(index, node, key_digit(key, (KEY_DIGITS - 1) as int) as int) is None);
    } else {
        assert(slot_ptr(index, node, key_digit(key, i) as int) is None);
    }
}

/// Two distinct node offsets, both aligned to the node length, carve out
/// disjoint byte regions.
proof fn lemma_aligned_disjoint(a: int, b: int)
    requires
        a % (NODE_LENGTH as int) == 0,
        b % (NODE_LENGTH as int) == 0,
        a < b,
    ensures
        a + NODE_LENGTH <= b,
{
    let nl = NODE_LENGTH as int;
    assert((b - a) % nl == 0) by (nonlinear_arith)
        requires
            a % nl == 0,
            b % nl == 0,
            nl == 2048,
    ;
    if b - a < nl {
        assert((b - a) % nl == b - a) by (nonlinear_arith)
            requires
                0 < b - a < nl,
                nl == 2048,
        ;
        assert(false);
    }
}

/// After one slot of one mapped node is rewritten, every other slot of
/// every mapped node reads as before.
proof fn lemma_other_slots_unchanged(
    index2: Seq<u8>,
    index3: Seq<u8>,
    m: Map<Seq<int>, int>,
    chunk_len: int,
    p0: Seq<int>,
    d0: int,
)
    requires
        map_ok(index2, m, chunk_len),
        index3.len() == index2.len(),
        m.dom().contains(p0),
        0 <= d0 < NODE_CAPACITY,
        forall|j: int|
            0 <= j < index2.len() && !(m[p0] + d0 * 8 <= j < m[p0] + d0 * 8 + 8) ==> index3[j]
                == index2[j],
    ensures
        forall|q: Seq<int>, d: int|
            m.dom().contains(q) && 0 <= d < NODE_CAPACITY && !(q == p0 && d == d0)
                ==> #[trigger] slot_ptr(index3, m[q], d) == slot_ptr(index2, m[q], d),
{
    assert forall|q: Seq<int>, d: int|
        m.dom().contains(q) && 0 <= d < NODE_CAPACITY && !(q == p0 && d == d0) implies #[trigger]
    slot_ptr(index3, m[q], d) == slot_ptr(index2, m[q], d) by {
        let cell = m[q] + d * 8;
        let hole = m[p0] + d0 * 8;
        if q == p0 {
            assert(d != d0);
            assert(cell + 8 <= hole || hole + 8 <= cell);
        } else {
            assert(m[q] != m[p0]);
            if m[q] < m[p0] {
                lemma_aligned_disjoint(m[q], m[p0]);
                assert(cell + 8 <= m[q] + NODE_LENGTH <= m[p0] <= hole);
            } else {
                lemma_aligned_disjoint(m[p0], m[q]);
                assert(hole + 8 <= m[p0] + NODE_LENGTH <= m[q] <= cell);
            }
        }
        assert forall|j: int| cell <= j < cell + 8 implies index3[j] == index2[j] by {
            assert(0 <= j < index2.len());
        }
        crate::node::lemma_slot_frame(index2, index3, m[q], d);
    }
}

/// A walk sees only the slots of the nodes on its path, so it is unmoved by
/// an index change that leaves every mapped node's slots as they were.
proof fn lemma_walk_frame(
    index1: Seq<u8>,
    index2: Seq<u8>,
    m: Map<Seq<int>, int>,
    chunk_len: int,
    key: u64,
    i: int,
)
    requires
        map_ok(index1, m, chunk_len),
        0 <= i <= KEY_DIGITS - 1,
        m.dom().contains(path_prefix(key, i)),
        forall|q: Seq<int>, d: int|
            m.dom().contains(q) && 0 <= d < NODE_CAPACITY ==> #[trigger] slot_ptr(index2, m[q], d)
                == slot_ptr(index1, m[q], d),
    ensures
        walk(index2, m[path_prefix(key, i)], key, i) == walk(index1, m[path_prefix(key, i)], key, i),
    decreases KEY_DIGITS - i,
{
    let p = path_prefix(key, i);
    let node = m[p];
    crate::node::lemma_digit_bound(key);
    if i >= KEY_DIGITS - 1 {
        let d = key_digit(key, (KEY_DIGITS - 1) as int) as int;
        assert(slot_ptr(index2, m[p], d) == slot_ptr(index1, m[p], d));
    } else {
        let d = key_digit(key, i) as int;
        assert(slot_ptr(index2, m[p], d) == slot_ptr(index1, m[p], d));
        match slot_ptr(index1, node, d) {
            None => {}
            Some(c) => {
                assert(inner_slot_ok(index1, m, p, d));
                assert(p.push(d) =~= path_prefix(key, i + 1));
                lemma_walk_frame(index1, index2, m, chunk_len, key, i + 1);
            }
        }
    }
}

/// A walk whose key never passes through slot `d0` of the node at prefix
/// `p0` is unmoved by a change to that slot alone.
proof fn lemma_walk_frame_except(
    index1: Seq<u8>,
    index2: Seq<u8>,
    m: Map<Seq<int>, int>,
    chunk_len: int,
    key: u64,
    i: int,
    p0: Seq<int>,
    d0: int,
)
    requires
        map_ok(index1, m, chunk_len),
        0 <= i <= KEY_DIGITS - 1,
        m.dom().contains(path_prefix(key, i)),
        m.dom().contains(p0),
        0 <= d0 < NODE_CAPACITY,
        forall|q: Seq<int>, d: int|
            m.dom().contains(q) && 0 <= d < NODE_CAPACITY && !(q == p0 && d == d0)
                ==> #[trigger] slot_ptr(index2, m[q], d) == slot_ptr(index1, m[q], d),
        !(p0 == path_prefix(key, p0.len() as int) && d0 == key_digit(key, p0.len() as int)),
    ensures
        walk(index2, m[path_prefix(key, i)], key, i) == walk(index1, m[path_prefix(key, i)], key, i),
    decreases KEY_DIGITS - i,
{
    let p = path_prefix(key, i);
    let node = m[p];
    crate::node::lemma_digit_bound(key);
    assert(p.len() == i);
    if i >= KEY_DIGITS - 1 {
        let d = key_digit(key, (KEY_DIGITS - 1) as int) as int;
        assert(!(p == p0 && d == d0));
        assert(slot_ptr(index2, m[p], d) == slot_ptr(index1, m[p], d));
    } else {
        let d = key_digit(key, i) as int;
        assert(!(p == p0 && d == d0));
        assert(slot_ptr(index2, m[p], d) == slot_ptr(index1, m[p], d));
        match slot_ptr(index1, node, d) {
            None => {}
            Some(c) => {
                assert(inner_slot_ok(index1, m, p, d));
                assert(p.push(d) =~= path_prefix(key, i + 1));
                lemma_walk_frame_except(index1, index2, m, chunk_len, key, i + 1, p0, d0);
            }
        }
    }
}

/// Pushing distinct digits, or pushing onto distinct prefixes, yields
/// distinct prefixes.
proof fn lemma_push_injective(p: Seq<int>, d: int, q: Seq<int>, e: int)
    requires
        p.push(d) == q.push(e),
    ensures
        p == q && d == e,
{
    assert(p.push(d).drop_last() =~= p);
    assert(q.push(e).drop_last() =~= q);
    assert(p.push(d)[p.len() as int] == d);
    assert(q.push(e)[q.len() as int] == e);
}

/// Installing a fresh, empty node behind a previously unset inner slot
/// extends the node map by exactly the new prefix.
proof fn lemma_install_node(
    index1: Seq<u8>,
    index2: Seq<u8>,
    m: Map<Seq<int>, int>,
    chunk_len: int,
    p0: Seq<int>,
    d0: int,
    c: int,
)
    requires
        map_ok(index1, m, chunk_len),
        m.dom().contains(p0),
        p0.len() < KEY_DIGITS - 1,
        0 <= d0 < NODE_CAPACITY,
        slot_ptr(index1, m[p0], d0) is None,
        index2.len() == index1.len(),
        0 <= c,
        c % (NODE_LENGTH as int) == 0,
        c + NODE_LENGTH <= index2.len(),
        forall|q: Seq<int>| #[trigger] m.dom().contains(q) ==> m[q] != c,
        forall|d: int| 0 <= d < NODE_CAPACITY ==> slot_ptr(index2, c, d) is None,
        slot_ptr(index2, m[p0], d0) == Some(c),
        forall|q: Seq<int>, d: int|
            m.dom().contains(q) && 0 <= d < NODE_CAPACITY && !(q == p0 && d == d0)
                ==> #[trigger] slot_ptr(index2, m[q], d) == slot_ptr(index1, m[q], d),
    ensures
        map_ok(index2, m.insert(p0.push(d0), c), chunk_len),
{
    let p1 = p0.push(d0);
    let m2 = m.insert(p1, c);
    assert(inner_slot_ok(index1, m, p0, d0));
    assert(!m.dom().contains(p1));
    assert(p1.len() == p0.len() + 1);
    assert(p1.drop_last() =~= p0);
    assert(m2.dom().contains(Seq::<int>::empty()));
    assert(m2[Seq::<int>::empty()] == 0);
    assert forall|p: Seq<int>| #[trigger] m2.dom().contains(p) implies p.len() < KEY_DIGITS && 0
        <= m2[p] && m2[p] % (NODE_LENGTH as int) == 0 && m2[p] + NODE_LENGTH <= index2.len() by {
        if p == p1 {
        } else {
            assert(m.dom().contains(p));
        }
    }
    assert forall|pa: Seq<int>, pb: Seq<int>|
        m2.dom().contains(pa) && m2.dom().contains(pb) && pa != pb implies m2[pa] != m2[pb] by {
        if pa == p1 {
            assert(m.dom().contains(pb));
        } else if pb == p1 {
            assert(m.dom().contains(pa));
        } else {
            assert(m.dom().contains(pa));
            assert(m.dom().contains(pb));
        }
    }
    assert forall|p: Seq<int>| #[trigger] m2.dom().contains(p) && p.len() > 0 implies m2
        .dom()
        .contains(p.drop_last()) by {
        if p == p1 {
            assert(p.drop_last() =~= p0);
        } else {
            assert(m.dom().contains(p));
        }
    }
    assert forall|p: Seq<int>, d: int|
        m2.dom().contains(p) && p.len() < KEY_DIGITS - 1 && 0 <= d
            < NODE_CAPACITY implies #[trigger] inner_slot_ok(index2, m2, p, d) by {
        if p == p1 {
            assert(slot_ptr(index2, c, d) is None);
            if m2.dom().contains(p1.push(d)) {
                assert(m.dom().contains(p1.push(d)));
                assert(m.dom().contains(p1.push(d).drop_last()));
                assert(p1.push(d).drop_last() =~= p1);
                assert(false);
            }
        } else {
            assert(m.dom().contains(p));
            if p == p0 && d == d0 {
                assert(slot_ptr(index2, m2[p0], d0) == Some(c));
                assert(m2.dom().contains(p1));
                assert(m2[p1] == c);
            } else {
                assert(slot_ptr(index2, m[p], d) == slot_ptr(index1, m[p], d));
                assert(inner_slot_ok(index1, m, p, d));
                if p.push(d) == p1 {
                    lemma_push_injective(p, d, p0, d0);
                    assert(false);
                }
                assert(m2.dom().contains(p.push(d)) == m.dom().contains(p.push(d)));
            }
        }
    }
    assert forall|p: Seq<int>, d: int|
        m2.dom().contains(p) && p.len() == KEY_DIGITS - 1 && 0 <= d
            < NODE_CAPACITY implies #[trigger] leaf_slot_ok(index2, m2, p, d, chunk_len) by {
        if p == p1 {
            assert(slot_ptr(index2, c, d) is None);
        } else {
            assert(m.dom().contains(p));
            assert(!(p == p0 && d == d0));
            assert(slot_ptr(index2, m[p], d) == slot_ptr(index1, m[p], d));
            assert(leaf_slot_ok(index1, m, p, d, chunk_len));
        }
    }
}

/// Installing a chunk offset behind a previously unset leaf slot leaves the
/// node map itself untouched.
proof fn lemma_install_chunk(
    index1: Seq<u8>,
    index2: Seq<u8>,
    m: Map<Seq<int>, int>,
    chunk_len1: int,
    chunk_len2: int,
    p0: Seq<int>,
    d0: int,
    caddr: int,
)
    requires
        map_ok(index1, m, chunk_len1),
        m.dom().contains(p0),
        p0.len() == KEY_DIGITS - 1,
        0 <= d0 < NODE_CAPACITY,
        index2.len() == index1.len(),
        chunk_len1 <= chunk_len2,
        0 <= caddr,
        caddr % (CHUNK_LENGTH as int) == 0,
        caddr + CHUNK_LENGTH <= chunk_len2,
        slot_ptr(index2, m[p0], d0) == Some(caddr),
        forall|q: Seq<int>, d: int|
            m.dom().contains(q) && 0 <= d < NODE_CAPACITY && !(q == p0 && d == d0)
                ==> #[trigger] slot_ptr(index2, m[q], d) == slot_ptr(index1, m[q], d),
    ensures
        map_ok(index2, m, chunk_len2),
{
    assert forall|p: Seq<int>, d: int|
        m.dom().contains(p) && p.len() < KEY_DIGITS - 1 && 0 <= d
            < NODE_CAPACITY implies #[trigger] inner_slot_ok(index2, m, p, d) by {
        assert(!(p == p0 && d == d0));
        assert(slot_ptr(index2, m[p], d) == slot_ptr(index1, m[p], d));
        assert(inner_slot_ok(index1, m, p, d));
    }
    assert forall|p: Seq<int>, d: int|
        m.dom().contains(p) && p.len() == KEY_DIGITS - 1 && 0 <= d
            < NODE_CAPACITY implies #[trigger] leaf_slot_ok(index2, m, p, d, chunk_len2) by {
        if p == p0 && d == d0 {
            assert(slot_ptr(index2, m[p0], d0) == Some(caddr));
        } else {
            assert(slot_ptr(index2, m[p], d) == slot_ptr(index1, m[p], d));
            assert(leaf_slot_ok(index1, m, p, d, chunk_len1));
        }
    }
}

/// A node whose bytes are all zero has every slot unset.
proof fn lemma_zero_node_slots(index: Seq<u8>, node: int, d: int)
    requires
        0 <= node,
        0 <= d < NODE_CAPACITY,
        node + NODE_LENGTH <= index.len(),
        forall|j: int| node <= j < node + NODE_LENGTH ==> index[j] == 0u8,
    ensures
        slot_ptr(index, node, d) is None,
{
    let off = node + d * 8;
    assert(index[off] == 0);
    assert(index[off + 1] == 0);
    assert(index[off + 2] == 0);
    assert(index[off + 3] == 0);
    assert(index[off + 4] == 0);
    assert(index[off + 5] == 0);
    assert(index[off + 6] == 0);
    assert(index[off + 7] == 0);
}

/// A single zero-filled root node is described by the singleton node map.
proof fn lemma_fresh_root_ok(index: Seq<u8>, m: Map<Seq<int>, int>, chunk_len: int)
    requires
        index.len() == NODE_LENGTH,
        forall|j: int| 0 <= j < index.len() ==> index[j] == 0u8,
        m == Map::<Seq<int>, int>::empty().insert(Seq::<int>::empty(), 0),
    ensures
        map_ok(index, m, chunk_len),
{
    let empty = Seq::<int>::empty();
    assert(m.dom().contains(empty));
    assert forall|p: Seq<int>| #[trigger] m.dom().contains(p) implies p.len() < KEY_DIGITS && 0
        <= m[p] && m[p] % (NODE_LENGTH as int) == 0 && m[p] + NODE_LENGTH <= index.len() by {
        assert(p == empty);
    }
    assert forall|p: Seq<int>, d: int|
        m.dom().contains(p) && p.len() < KEY_DIGITS - 1 && 0 <= d
            < NODE_CAPACITY implies #[trigger] inner_slot_ok(index, m, p, d) by {
        assert(p == empty);
        lemma_zero_node_slots(index, 0, d);
        assert(!m.dom().contains(p.push(d)));
    }
    assert forall|p: Seq<int>, d: int|
        m.dom().contains(p) && p.len() == KEY_DIGITS - 1 && 0 <= d
            < NODE_CAPACITY implies #[trigger] leaf_slot_ok(index, m, p, d, chunk_len) by {
        assert(p == empty);
        assert(p.len() == 0);
    }
}

} // verus!
