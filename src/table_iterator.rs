//! A cursor over all the entries of one table, block after block.
use vstd::prelude::*;
use std::sync::Arc;
use crate::block::Block;
use crate::block_iterator::BlockIterator;
use crate::flat::{flat, lemma_flat_step, lemma_flat_split};
use crate::iterators::StorageIterator;
use crate::keys::{
    Entry, key_lt, key_le, seek_from, count_below, lemma_count_below,
    lemma_count_below_props, lemma_lt_transitive, lemma_lt_asymmetric,
};
use crate::table::{SsTable, table_ok};

verus! {

/// Seeking a table at `k` is seeking the block that `find_block_idx` picks.
pub proof fn lemma_seek_in_table(bs: Seq<Seq<Entry>>, k: Seq<u8>, i: int)
    requires
        table_ok(bs),
        0 <= i < bs.len(),
        i > 0 ==> key_le(bs[i][0].0, k),
        forall|j: int| i < j < bs.len() ==> key_lt(k, (#[trigger] bs[j])[0].0),
    ensures
        count_below(bs[i], k) < bs[i].len() ==> seek_from(flat(bs), k) == seek_from(bs[i], k) + flat(
            bs.skip(i + 1),
        ),
        count_below(bs[i], k) == bs[i].len() ==> seek_from(flat(bs), k) == flat(bs.skip(i + 1)),
{
    let f = flat(bs);
    let b = bs[i];
    let p = flat(bs.take(i)).len() as int;
    let c = count_below(b, k) as int;
    lemma_flat_step(bs, i);
    lemma_flat_split(bs, i);
    lemma_count_below_props(b, k);
    assert(bs[i] == b);
    assert forall|j: int| 0 <= j < p + c implies key_lt((#[trigger] f[j]).0, k) by {
        if j < p {
            assert(f[p] == b[0]);
            if key_lt(b[0].0, k) {
                lemma_lt_transitive(f[j].0, b[0].0, k);
            } else {
                assert(i > 0);
                assert(b[0].0 == k);
            }
        } else {
            assert(f[j] == f.subrange(p, p + b.len())[j - p]);
        }
    }
    if p + c < f.len() {
        if c < b.len() {
            assert(f[p + c] == f.subrange(p, p + b.len())[c]);
        } else {
            lemma_flat_step(bs, i + 1);
            lemma_flat_step(bs.skip(i + 1), 0);
            assert(bs.skip(i + 1).len() > 0);
            assert(bs.skip(i + 1)[0] == bs[i + 1]);
            assert(bs.skip(i + 1).skip(0) =~= bs.skip(i + 1));
            assert(f =~= flat(bs.take(i)) + b + flat(bs.skip(i + 1)));
            assert(f[p + c] == bs[i + 1][0]);
            lemma_lt_asymmetric(k, bs[i + 1][0].0);
        }
    }
    lemma_count_below(f, k, p + c);
    assert(f =~= flat(bs.take(i)) + b + flat(bs.skip(i + 1)));
    assert(f.skip(p + c) =~= b.skip(c) + flat(bs.skip(i + 1)));
}

/// An iterator over the contents of a table.
pub struct SsTableIterator {
    table: Arc<SsTable>,
    block_idx: usize,
    block_iterator: BlockIterator,
}

impl SsTableIterator {
    /// The table being walked.
    pub closed spec fn table_view(&self) -> Seq<Seq<Entry>> {
        self.table@
    }

    fn load(table: &SsTable, idx: usize) -> (r: Arc<Block>)
        requires
            table.wf(),
            idx < table@.len(),
        ensures
            r.wf(),
            r@ == table@[idx as int],
    {
        match table.read_block(idx) {
            Ok(b) => b,
            Err(_) => Arc::new(Block::from_entries(Vec::new())),
        }
    }

    fn empty_block() -> (r: Arc<Block>)
        ensures
            r.wf(),
            r@.len() == 0,
    {
        let b = Block::from_entries(Vec::new());
        proof {
            crate::block::lemma_empty(b@);
            crate::block::lemma_encoded_len(b@);
            assert(b@ =~= Seq::<Entry>::empty());
        }
        Arc::new(b)
    }

    /// Creates an iterator at the first entry of the table.
    pub fn create_and_seek_to_first(table: Arc<SsTable>) -> (r: SsTableIterator)
        requires
            table.wf(),
        ensures
            r.wf(),
            r.table_view() == table@,
            r.remaining() == flat(table@),
    {
        let block = if table.num_of_blocks() > 0 {
            SsTableIterator::load(&table, 0)
        } else {
            SsTableIterator::empty_block()
        };
        let block_iterator = BlockIterator::create_and_seek_to_first(block);
        let r = SsTableIterator { table, block_idx: 0, block_iterator };
        proof {
            let bs = r.table@;
            r.table.lemma_wf();
            if bs.len() > 0 {
                lemma_flat_step(bs, 0);
                assert(bs.skip(0) =~= bs);
            } else {
                assert(flat(bs) =~= Seq::<Entry>::empty());
            }
        }
        r
    }

    /// Moves back to the first entry of the table.
    pub fn seek_to_first(&mut self)
        requires
            old(self).wf(),
        ensures
            final(self).wf(),
            final(self).table_view() == old(self).table_view(),
            final(self).remaining() == flat(old(self).table_view()),
    {
        let table = self.table.clone();
        *self = SsTableIterator::create_and_seek_to_first(table);
    }

    /// Creates an iterator at the first entry whose key is at least `key`.
    pub fn create_and_seek_to_key(table: Arc<SsTable>, key: &[u8]) -> (r: SsTableIterator)
        requires
            table.wf(),
        ensures
            r.wf(),
            r.table_view() == table@,
            r.remaining() == seek_from(flat(table@), key@),
    {
        let ghost bs = table@;
        proof {
            table.lemma_wf();
        }
        if table.num_of_blocks() == 0 {
            let block_iterator = BlockIterator::create_and_seek_to_first(SsTableIterator::empty_block());
            proof {
                assert(flat(bs) =~= Seq::<Entry>::empty());
            }
            return SsTableIterator { table, block_idx: 0, block_iterator };
        }
        let mut block_idx = table.find_block_idx(key);
        let block = SsTableIterator::load(&table, block_idx);
        let mut block_iterator = BlockIterator::create_and_seek_to_key(block, key);
        proof {
            lemma_seek_in_table(bs, key@, block_idx as int);
            lemma_count_below_props(bs[block_idx as int], key@);
        }
        if !block_iterator.is_valid() && block_idx + 1 < table.num_of_blocks() {
            proof {
                lemma_flat_step(bs, block_idx + 1);
                assert(!key_lt(bs[block_idx + 1][0].0, key@)) by {
                    lemma_lt_asymmetric(key@, bs[block_idx + 1][0].0);
                }
                assert(bs[block_idx + 1].len() > 0);
                assert(count_below(bs[block_idx + 1], key@) == 0);
                assert(bs[block_idx + 1].skip(0) =~= bs[block_idx + 1]);
            }
            block_idx = block_idx + 1;
            let block = SsTableIterator::load(&table, block_idx);
            block_iterator = BlockIterator::create_and_seek_to_key(block, key);
        }
        let r = SsTableIterator { table, block_idx, block_iterator };
        proof {
            if r.block_iterator.remaining().len() == 0 {
                assert(bs.skip(block_idx + 1) =~= Seq::<Seq<Entry>>::empty());
                assert(flat(bs.skip(block_idx + 1)) =~= Seq::<Entry>::empty());
                assert(seek_from(bs[block_idx as int], key@) =~= Seq::<Entry>::empty());
            }
        }
        r
    }

    /// Moves to the first entry whose key is at least `key`.
    pub fn seek_to_key(&mut self, key: &[u8])
        requires
            old(self).wf(),
        ensures
            final(self).wf(),
            final(self).table_view() == old(self).table_view(),
            final(self).remaining() == seek_from(flat(old(self).table_view()), key@),
    {
        let table = self.table.clone();
        *self = SsTableIterator::create_and_seek_to_key(table, key);
    }
}

impl StorageIterator for SsTableIterator {
    closed spec fn remaining(&self) -> Seq<Entry> {
        if self.block_idx < self.table@.len() {
            self.block_iterator.remaining() + flat(self.table@.skip(self.block_idx + 1))
        } else {
            Seq::empty()
        }
    }

    closed spec fn wf(&self) -> bool {
        &&& self.table.wf()
        &&& self.block_iterator.wf()
        &&& self.table@.len() == 0 ==> self.block_iterator.remaining().len() == 0 && self.block_idx == 0
        &&& self.table@.len() > 0 ==> {
            &&& self.block_idx < self.table@.len()
            &&& self.block_iterator.block_view() == self.table@[self.block_idx as int]
            &&& self.block_iterator.remaining().len() == 0 ==> self.block_idx + 1 == self.table@.len()
        }
    }

    fn key(&self) -> (r: &[u8]) {
        self.block_iterator.key()
    }

    fn value(&self) -> (r: &[u8]) {
        self.block_iterator.value()
    }

    fn is_valid(&self) -> (r: bool) {
        proof {
            if self.block_iterator.remaining().len() == 0 && self.block_idx < self.table@.len() {
                assert(self.table@.skip(self.block_idx + 1) =~= Seq::<Seq<Entry>>::empty());
                assert(flat(self.table@.skip(self.block_idx + 1)) =~= Seq::<Entry>::empty());
            }
        }
        self.block_iterator.is_valid()
    }

    fn next(&mut self) {
        let ghost old_rem = self.remaining();
        let ghost bs = self.table@;
        proof {
            self.table.lemma_wf();
            if self.block_iterator.remaining().len() == 0 && self.block_idx < bs.len() {
                assert(bs.skip(self.block_idx + 1) =~= Seq::<Seq<Entry>>::empty());
                assert(flat(bs.skip(self.block_idx + 1)) =~= Seq::<Entry>::empty());
            }
        }
        if !self.block_iterator.is_valid() {
            return;
        }
        let ghost bi_rem = self.block_iterator.remaining();
        self.block_iterator.next();
        proof {
            assert(old_rem.len() > 0);
            assert(old_rem.drop_first() =~= bi_rem.drop_first() + flat(bs.skip(self.block_idx + 1)));
        }
        if !self.block_iterator.is_valid() && self.table.num_of_blocks() - self.block_idx > 1 {
            proof {
                lemma_flat_step(bs, self.block_idx + 1);
                assert(bs.skip(self.block_idx + 1).skip(1) =~= bs.skip(self.block_idx + 2));
            }
            self.block_idx = self.block_idx + 1;
            let block = SsTableIterator::load(&self.table, self.block_idx);
            self.block_iterator = BlockIterator::create_and_seek_to_first(block);
            proof {
                assert(self.remaining() =~= old_rem.drop_first());
            }
        } else {
            proof {
                if self.block_iterator.remaining().len() == 0 {
                    assert(bs.skip(self.block_idx + 1) =~= Seq::<Seq<Entry>>::empty());
                    assert(flat(bs.skip(self.block_idx + 1)) =~= Seq::<Entry>::empty());
                }
                assert(self.remaining() =~= old_rem.drop_first());
            }
        }
    }
}

} // verus!
