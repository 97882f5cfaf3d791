//! A cursor over the entries of one block.
use vstd::prelude::*;
use std::sync::Arc;
use crate::block::Block;
use crate::keys::{Entry, seek_from};
use crate::codec::bytes_of;

verus! {

/// Iterates on a block.
pub struct BlockIterator {
    block: Arc<Block>,
    /// The current key; empty when the cursor is past the end.
    key: Vec<u8>,
    value: Vec<u8>,
    /// Index of the current entry.
    idx: usize,
}

impl BlockIterator {
    /// The block that the cursor walks.
    pub closed spec fn block_view(&self) -> Seq<Entry> {
        self.block@
    }

    /// The entries from the cursor to the end of the block.
    pub closed spec fn remaining(&self) -> Seq<Entry> {
        if self.idx < self.block@.len() {
            self.block@.skip(self.idx as int)
        } else {
            Seq::empty()
        }
    }

    pub closed spec fn wf(&self) -> bool {
        &&& self.block.wf()
        &&& self.idx < self.block@.len() ==> self.key@ == self.block@[self.idx as int].0
            && self.value@ == self.block@[self.idx as int].1
        &&& self.idx >= self.block@.len() ==> self.key@.len() == 0 && self.value@.len() == 0
    }

    fn new(block: Arc<Block>) -> (r: BlockIterator)
        requires
            block.wf(),
        ensures
            r.wf(),
            r.block_view() == block@,
    {
        BlockIterator { idx: block.len(), block, key: Vec::new(), value: Vec::new() }
    }

    /// Creates an iterator positioned at the first entry.
    pub fn create_and_seek_to_first(block: Arc<Block>) -> (r: BlockIterator)
        requires
            block.wf(),
        ensures
            r.wf(),
            r.block_view() == block@,
            r.remaining() == block@,
    {
        let mut it = BlockIterator::new(block);
        it.seek_to_first();
        it
    }

    /// Creates an iterator positioned at the first key that is at least `key`.
    pub fn create_and_seek_to_key(block: Arc<Block>, key: &[u8]) -> (r: BlockIterator)
        requires
            block.wf(),
        ensures
            r.wf(),
            r.block_view() == block@,
            r.remaining() == seek_from(block@, key@),
    {
        let mut it = BlockIterator::new(block);
        it.seek_to_key(key);
        it
    }

    /// The key of the current entry; empty once the cursor is past the end.
    pub fn key(&self) -> (r: &[u8])
        requires
            self.wf(),
        ensures
            self.remaining().len() > 0 ==> r@ == self.remaining()[0].0,
            self.remaining().len() == 0 ==> r@.len() == 0,
    {
        self.key.as_slice()
    }

    /// The value of the current entry; empty once the cursor is past the end.
    pub fn value(&self) -> (r: &[u8])
        requires
            self.wf(),
        ensures
            self.remaining().len() > 0 ==> r@ == self.remaining()[0].1,
            self.remaining().len() == 0 ==> r@.len() == 0,
    {
        self.value.as_slice()
    }

    /// Whether the cursor is on an entry.
    pub fn is_valid(&self) -> (r: bool)
        requires
            self.wf(),
        ensures
            r == (self.remaining().len() > 0),
    {
        self.idx < self.block.len()
    }

    /// Moves to the first entry.
    pub fn seek_to_first(&mut self)
        requires
            old(self).wf(),
        ensures
            final(self).wf(),
            final(self).block_view() == old(self).block_view(),
            final(self).remaining() == old(self).block_view(),
    {
        self.seek_to(0);
        assert(self.block@.skip(0) =~= self.block@);
    }

    /// Moves to the next entry; past the last one the cursor becomes invalid.
    pub fn next(&mut self)
        requires
            old(self).wf(),
        ensures
            final(self).wf(),
            final(self).block_view() == old(self).block_view(),
            old(self).remaining().len() > 0 ==> final(self).remaining() == old(self).remaining().drop_first(),
            old(self).remaining().len() == 0 ==> final(self).remaining().len() == 0,
    {
        if self.idx < self.block.len() {
            self.seek_to(self.idx + 1);
            assert(old(self).remaining().drop_first() =~= self.remaining());
        }
    }

    /// Moves to the first entry whose key is at least `key`, or past the end.
    pub fn seek_to_key(&mut self, key: &[u8])
        requires
            old(self).wf(),
        ensures
            final(self).wf(),
            final(self).block_view() == old(self).block_view(),
            final(self).remaining() == seek_from(old(self).block_view(), key@),
    {
        let lo = self.block.lower_bound(key);
        self.seek_to(lo);
        assert(self.remaining() =~= seek_from(self.block@, key@));
    }

    fn seek_to(&mut self, idx: usize)
        requires
            old(self).wf(),
        ensures
            final(self).wf(),
            final(self).block == old(self).block,
            final(self).idx >= old(self).block@.len() || final(self).idx == idx,
            idx < old(self).block@.len() ==> final(self).idx == idx,
            idx >= old(self).block@.len() ==> final(self).idx >= old(self).block@.len(),
    {
        if idx >= self.block.len() {
            self.idx = self.block.len();
            self.key = Vec::new();
            self.value = Vec::new();
            return;
        }
        self.idx = idx;
        self.key = bytes_of(self.block.key_at(idx));
        self.value = bytes_of(self.block.value_at(idx));
    }
}

} // verus!
