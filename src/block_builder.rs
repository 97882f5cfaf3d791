//! Building a block from key-value pairs under a size budget.
use vstd::prelude::*;
use crate::block::{
    Block, encode_block, block_ok, lemma_encoded_len, lemma_entries_size_insert,
    lemma_entries_size_update, lemma_fits, lemma_empty,
};
use crate::keys::{Entry, key_lt, pairs_view};
use crate::codec::bytes_of;
use crate::run::{run_map, run_get, run_upsert, lemma_run_map_index, run_index};

verus! {

/// Collects entries in key order until the encoded block would pass its target size.
pub struct BlockBuilder {
    cap: usize,
    size: usize,
    map: Vec<(Vec<u8>, Vec<u8>)>,
}

impl View for BlockBuilder {
    type V = Seq<Entry>;

    closed spec fn view(&self) -> Seq<Entry> {
        pairs_view(self.map@)
    }
}

impl BlockBuilder {
    /// The target size the builder was made with.
    pub closed spec fn target(&self) -> nat {
        self.cap as nat
    }

    pub closed spec fn wf(&self) -> bool {
        &&& block_ok(self@)
        &&& self.size == encode_block(self@).len()
        &&& self.cap <= 65535
        &&& (self@.len() <= 1 || self.size <= self.cap)
    }

    /// Encoded size of the block after adding `(key, value)`.
    pub open spec fn size_after(&self, key: Seq<u8>, value: Seq<u8>) -> int {
        let cur = encode_block(self@).len() as int;
        if run_map(self@).contains_key(key) {
            cur + value.len() - run_map(self@)[key].len()
        } else {
            cur + key.len() + value.len() + 6
        }
    }

    /// Creates an empty builder with the given target block size.
    pub fn new(block_size: usize) -> (r: BlockBuilder)
        requires
            block_size <= 65535,
        ensures
            r.wf(),
            r@ == Seq::<Entry>::empty(),
            r.target() == block_size,
    {
        let r = BlockBuilder { cap: block_size, size: 2, map: Vec::new() };
        proof {
            assert(r@ =~= Seq::<Entry>::empty());
            lemma_empty(r@);
            lemma_encoded_len(r@);
        }
        r
    }

    /// Adds a pair. Returns false, leaving the builder unchanged, when the
    /// builder already holds an entry and the encoded block would pass the
    /// target size. A key added again takes the new value.
    pub fn add(&mut self, key: &[u8], value: &[u8]) -> (r: bool)
        requires
            old(self).wf(),
            key@.len() <= 65535,
            value@.len() <= 65535,
        ensures
            final(self).wf(),
            final(self).target() == old(self).target(),
            r == !(old(self).size_after(key@, value@) > old(self).target() && old(self)@.len() > 0),
            r ==> run_map(final(self)@) == run_map(old(self)@).insert(key@, value@),
            !r ==> final(self)@ == old(self)@,
            r && (old(self)@.len() == 0 || key_lt(old(self)@.last().0, key@)) ==> final(self)@
                == old(self)@.push((key@, value@)),
    {
        let ghost s = self@;
        proof {
            lemma_encoded_len(s);
            if s.len() == 1 {
                reveal_with_fuel(crate::block::entries_size, 2);
                assert(s.drop_last().len() == 0);
                assert(s.last() == s[0]);
                assert(s[0].0.len() <= 65535 && s[0].1.len() <= 65535);
            }
            assert(self.size <= 131080);
            if run_map(s).contains_key(key@) {
                let j = run_index(s, key@);
                lemma_run_map_index(s, j);
                lemma_entries_size_update(s, j, (key@, value@));
            }
        }
        let new_size = match run_get(&self.map, key) {
            Some(old_value) => self.size + value.len() - old_value.len(),
            None => self.size + key.len() + value.len() + 6,
        };
        proof {
            lemma_encoded_len(s);
            if run_map(s).contains_key(key@) {
                let j = run_index(s, key@);
                lemma_run_map_index(s, j);
                lemma_entries_size_update(s, j, (key@, value@));
            }
        }
        if new_size > self.cap && !self.is_empty() {
            return false;
        }
        let (i, found) = run_upsert(&mut self.map, bytes_of(key), bytes_of(value));
        self.size = new_size;
        proof {
            let t = self@;
            let e: Entry = (key@, value@);
            if found {
                lemma_run_map_index(s, i as int);
                lemma_entries_size_update(s, i as int, e);
            } else {
                lemma_entries_size_insert(s, i as int, e);
            }
            lemma_encoded_len(t);
            assert forall|j: int| 0 <= j < t.len() implies (#[trigger] t[j]).0.len() <= 65535
                && t[j].1.len() <= 65535 by {
                if found {
                    if j != i {
                        assert(t[j] == s[j]);
                    }
                } else if j < i {
                    assert(t[j] == s[j]);
                } else if j > i {
                    assert(t[j] == s[j - 1]);
                }
            }
            lemma_fits(t);
        }
        true
    }

    /// Whether the builder holds no entry.
    pub fn is_empty(&self) -> (r: bool)
        ensures
            r == (self@.len() == 0),
    {
        self.map.len() == 0
    }

    /// Finishes the block.
    pub fn build(self) -> (r: Block)
        requires
            self.wf(),
        ensures
            r.wf(),
            r@ == self@,
    {
        Block::from_entries(self.map)
    }

    /// The smallest key in the builder, if any.
    pub fn first_key(&self) -> (r: Option<Vec<u8>>)
        requires
            self.wf(),
        ensures
            r is None <==> self@.len() == 0,
            r matches Some(k) ==> k@ == self@[0].0,
    {
        if self.map.len() == 0 {
            None
        } else {
            Some(self.map[0].0.clone())
        }
    }
}

} // verus!
