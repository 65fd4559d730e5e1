//! Backing memory: a sparse store of 32-bit words at 8-bit addresses, each
//! occupied address tagged as holding an instruction or data.

use std::collections::HashMap;
use vstd::prelude::*;

verus! {

/// Cost of one access to backing memory, in cycles, for front ends that
/// account for time.
pub const MEMORY_ACCESS_COST: u32 = 10;

/// What the word at an address is meant to be.
#[derive(Clone, Copy, Debug, PartialEq, Eq, Structural)]
pub enum WordKind {
    Instruction,
    Data,
}

/// Backing memory.
pub struct Memory {
    /// The word at each occupied address.
    pub data: HashMap<u8, u32>,
    /// The kind of the word at each address that was tagged.
    pub kinds: HashMap<u8, WordKind>,
}

/// Mathematical view of a [`Memory`].
#[verifier::ext_equal]
pub struct MemoryModel {
    pub data: Map<u8, u32>,
    pub kinds: Map<u8, WordKind>,
}

impl MemoryModel {
    /// The memory in which no address is occupied.
    pub open spec fn empty() -> MemoryModel {
        MemoryModel { data: Map::empty(), kinds: Map::empty() }
    }

    /// The word that a fetch from `address` yields: the word stored there,
    /// and 0 where nothing is.
    pub open spec fn word_or_zero(self, address: u8) -> u32 {
        if self.data.contains_key(address) {
            self.data[address]
        } else {
            0
        }
    }

    /// The memory after `word` was put at `address` under the tag `kind`.
    pub open spec fn store(self, address: u8, word: u32, kind: WordKind) -> MemoryModel {
        MemoryModel {
            data: self.data.insert(address, word),
            kinds: self.kinds.insert(address, kind),
        }
    }
}

impl View for Memory {
    type V = MemoryModel;

    open spec fn view(&self) -> MemoryModel {
        MemoryModel { data: self.data@, kinds: self.kinds@ }
    }
}

impl Memory {
    /// An empty memory.
    pub fn new() -> (memory: Memory)
        ensures
            memory@ == MemoryModel::empty(),
    {
        Memory { data: HashMap::new(), kinds: HashMap::new() }
    }

    /// Puts `word` at `address` and tags the address as `kind`. What was
    /// there before is overwritten.
    pub fn store(&mut self, address: u8, word: u32, kind: WordKind)
        ensures
            final(self)@ == old(self)@.store(address, word, kind),
    {
        self.data.insert(address, word);
        self.kinds.insert(address, kind);
    }
}

} // verus!
