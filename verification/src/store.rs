//! An in-memory content-addressed block store.
//!
//! Blocks are arbitrary byte strings keyed by their content identifier.
//! The store itself does not compute identifiers; callers put blocks
//! under the identifiers they computed.

use vstd::prelude::*;

use crate::kvlist::{kv_get, kv_map, kv_set, kv_unique};

verus! {

/// A content-addressed block store held in memory.
pub struct MemoryStore {
    blocks: Vec<(Vec<u8>, Vec<u8>)>,
}

impl MemoryStore {
    /// The blocks the store holds, as a map from key to block.
    pub closed spec fn contents(&self) -> Map<Seq<u8>, Seq<u8>> {
        kv_map(self.blocks@)
    }

    /// The store's keys are pairwise distinct.
    pub closed spec fn wf(&self) -> bool {
        kv_unique(self.blocks@)
    }

    /// Creates an empty store.
    pub fn new() -> (r: Self)
        ensures
            r.wf(),
            r.contents() == Map::<Seq<u8>, Seq<u8>>::empty(),
    {
        MemoryStore { blocks: Vec::new() }
    }

    /// Stores a block under a key, replacing any block stored earlier
    /// under the same key.
    pub fn put(&mut self, key: Vec<u8>, block: Vec<u8>)
        requires
            old(self).wf(),
        ensures
            final(self).wf(),
            final(self).contents() == old(self).contents().insert(key@, block@),
    {
        kv_set(&mut self.blocks, key, block);
    }

    /// Retrieves the block stored under a key, if any.
    pub fn get(&self, key: &Vec<u8>) -> (r: Option<&Vec<u8>>)
        requires
            self.wf(),
        ensures
            match r {
                Some(block) => self.contents().contains_key(key@) && block@ == self.contents()[key@],
                None => !self.contents().contains_key(key@),
            },
    {
        kv_get(&self.blocks, key)
    }
}

} // verus!
