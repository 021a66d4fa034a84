//! Terrain block identity: the block registry and block identifiers.
//!
//! A block identifier is a non-zero 16-bit value; zero is reserved in every
//! chunk payload to mean "no block present".  The registry assigns
//! identifiers densely in registration order, starting at one, and maps
//! block names to identifiers and identifiers to block metadata.  Removing
//! blocks is not supported: it would require rewriting every stored chunk.

use vstd::prelude::*;

verus! {

/// Errors revolving around registries.
#[derive(Debug, Clone, Copy, PartialEq, Eq, Structural)]
pub enum RegistryError {
    /// An item with the same key is already in the registry.
    KeyAlreadyExists,
}

/// Represents the ID of a single block in a terrain chunk.  The value is
/// never zero, so an absent block (`None`) and a present block can share
/// the 16-bit slot of a chunk payload.
#[derive(Debug, Clone, Copy, PartialEq, Eq, PartialOrd, Ord, Structural)]
pub struct BlockID {
    id: u16,
}

impl BlockID {
    /// The raw identifier value.
    pub closed spec fn spec_value(self) -> u16 {
        self.id
    }

    /// Creates a block ID directly from a non-zero 16-bit value.  Mostly
    /// useful when loading terrain from a file; ordinarily IDs come from
    /// the registry.
    pub fn new(id: u16) -> (r: BlockID)
        requires
            id != 0,
        ensures
            r.spec_value() == id,
    {
        BlockID { id }
    }

    /// The identifier as a plain integer.
    pub fn value(&self) -> (v: u16)
        ensures
            v == self.spec_value(),
    {
        self.id
    }
}

/// The 16-bit value that stands for a possibly absent block in a chunk
/// payload: zero for `None`, the identifier itself otherwise.
pub fn block_id_to_raw(block: Option<BlockID>) -> (r: u16)
    ensures
        match block {
            None => r == 0,
            Some(b) => r == b.spec_value(),
        },
{
    match block {
        None => 0,
        Some(b) => b.value(),
    }
}

/// The possibly absent block named by a raw 16-bit payload value: `None`
/// for zero, the identifier otherwise.
pub fn block_id_from_raw(raw: u16) -> (r: Option<BlockID>)
    ensures
        match r {
            None => raw == 0,
            Some(b) => raw != 0 && b.spec_value() == raw,
        },
{
    if raw == 0 {
        None
    } else {
        Some(BlockID { id: raw })
    }
}

/// Metadata used to describe a block.
#[derive(Debug)]
pub struct BlockData {
    name: String,
    id: BlockID,
    display_text: String,
}

impl BlockData {
    /// The block's registry name.
    pub closed spec fn spec_name(self) -> Seq<char> {
        self.name@
    }

    /// The block's identifier.
    pub closed spec fn spec_id(self) -> BlockID {
        self.id
    }

    /// The block's displayed text.
    pub closed spec fn spec_display_text(self) -> Seq<char> {
        self.display_text@
    }

    /// The block's registry name.
    pub fn name(&self) -> (r: &String)
        ensures
            r@ == self.spec_name(),
    {
        &self.name
    }

    /// The block's identifier.
    pub fn id(&self) -> (r: BlockID)
        ensures
            r == self.spec_id(),
    {
        self.id
    }

    /// The block's displayed text.
    pub fn display_text(&self) -> (r: &String)
        ensures
            r@ == self.spec_display_text(),
    {
        &self.display_text
    }
}

/// A registry of data about blocks.  Identifiers are handed out densely in
/// registration order, offset by one so that zero stays free for "absent".
#[derive(Debug)]
pub struct BlockRegistry {
    block_data: Vec<BlockData>,
}

impl BlockRegistry {
    /// The registered blocks, in registration order.
    pub closed spec fn spec_blocks(self) -> Seq<BlockData> {
        self.block_data@
    }

    /// Whether some registered block carries this name.
    pub open spec fn contains_name(self, name: Seq<char>) -> bool {
        exists|i: int|
            0 <= i < self.spec_blocks().len() && #[trigger] self.spec_blocks()[i].spec_name()
                == name
    }

    /// Identifiers are the one-based registration positions, names are
    /// never registered twice, and the identifier space is not exhausted.
    pub open spec fn wf(self) -> bool {
        &&& self.spec_blocks().len() <= 0xFFFF
        &&& forall|i: int|
            0 <= i < self.spec_blocks().len() ==> #[trigger] self.spec_blocks()[i].spec_id().spec_value()
                == i + 1
        &&& forall|i: int, j: int|
            0 <= i < j < self.spec_blocks().len() ==> #[trigger] self.spec_blocks()[i].spec_name()
                != #[trigger] self.spec_blocks()[j].spec_name()
    }

    /// Construct a new block registry.
    pub fn new() -> (r: BlockRegistry)
        ensures
            r.wf(),
            r.spec_blocks().len() == 0,
    {
        BlockRegistry { block_data: Vec::new() }
    }

    /// Add a block to the block registry.  The new block's identifier is
    /// one more than the number of blocks already registered, so it is
    /// never zero; a name that is already registered is rejected.
    pub fn add_block(&mut self, name: String, display_text: String) -> (r: Result<
        (),
        RegistryError,
    >)
        requires
            old(self).wf(),
            old(self).spec_blocks().len() < 0xFFFF,
        ensures
            final(self).wf(),
            match r {
                Ok(()) => {
                    &&& !old(self).contains_name(name@)
                    &&& final(self).spec_blocks().len() == old(self).spec_blocks().len() + 1
                    &&& forall|i: int|
                        0 <= i < old(self).spec_blocks().len() ==> final(self).spec_blocks()[i]
                            == old(self).spec_blocks()[i]
                    &&& final(self).spec_blocks().last().spec_name() == name@
                    &&& final(self).spec_blocks().last().spec_display_text() == display_text@
                    &&& final(self).spec_blocks().last().spec_id().spec_value() == old(
                        self,
                    ).spec_blocks().len() + 1
                },
                Err(e) => e == RegistryError::KeyAlreadyExists && old(self).contains_name(name@)
                    && *final(self) == *old(self),
            },
    {
        if self.get_block_id_from_name(name.as_str()).is_some() {
            return Err(RegistryError::KeyAlreadyExists);
        }
        let id = BlockID { id: (self.block_data.len() + 1) as u16 };
        self.block_data.push(BlockData { name, id, display_text });
        Ok(())
    }

    /// Get a block's data from its ID: the entry whose one-based position
    /// matches the identifier, if the identifier is in range.
    pub fn get_block_data_from_id(&self, id: BlockID) -> (r: Option<&BlockData>)
        requires
            self.wf(),
        ensures
            match r {
                Some(b) => 1 <= id.spec_value() <= self.spec_blocks().len() && *b
                    == self.spec_blocks()[id.spec_value() - 1],
                None => id.spec_value() == 0 || id.spec_value() > self.spec_blocks().len(),
            },
    {
        let v = id.value();
        if v >= 1 && (v as usize) <= self.block_data.len() {
            Some(&self.block_data[(v - 1) as usize])
        } else {
            None
        }
    }

    /// Get the ID of a block from its name.
    pub fn get_block_id_from_name(&self, name: &str) -> (r: Option<&BlockID>)
        requires
            self.wf(),
        ensures
            match r {
                Some(b) => exists|i: int|
                    0 <= i < self.spec_blocks().len() && #[trigger] self.spec_blocks()[i].spec_name()
                        == name@ && *b == self.spec_blocks()[i].spec_id(),
                None => !self.contains_name(name@),
            },
    {
        let owned: String = name.to_owned();
        let n = self.block_data.len();
        let mut i: usize = 0;
        while i < n
            invariant
                self.wf(),
                n == self.spec_blocks().len(),
                i <= n,
                owned@ == name@,
                forall|j: int| 0 <= j < i ==> #[trigger] self.spec_blocks()[j].spec_name() != name@,
            decreases n - i,
        {
            if self.block_data[i].name == owned {
                proof {
                    assert(self.spec_blocks()[i as int].spec_name() == name@);
                    assert(self.spec_blocks()[i as int].spec_id() == self.block_data@[i as int].id);
                }
                return Some(&self.block_data[i].id);
            }
            i = i + 1;
        }
        None
    }

    /// Get a block's data from its name.
    pub fn get_block_data_from_name(&self, name: &str) -> (r: Option<&BlockData>)
        requires
            self.wf(),
        ensures
            match r {
                Some(b) => exists|i: int|
                    0 <= i < self.spec_blocks().len() && #[trigger] self.spec_blocks()[i].spec_name()
                        == name@ && *b == self.spec_blocks()[i],
                None => !self.contains_name(name@),
            },
    {
        let id = match self.get_block_id_from_name(name) {
            Some(id) => *id,
            None => {
                return None;
            }
        };
        self.get_block_data_from_id(id)
    }

    /// Get the number of different types of blocks.
    pub fn num_block_types(&self) -> (n: u16)
        requires
            self.wf(),
        ensures
            n == self.spec_blocks().len(),
    {
        self.block_data.len() as u16
    }
}

} // verus!
