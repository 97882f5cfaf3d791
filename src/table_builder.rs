//! Building a sorted table from an ascending stream of entries.
use vstd::prelude::*;
use crate::block::{encode_block, block_ok, entries_size};
use crate::block_builder::BlockBuilder;
use crate::codec::{bytes_of, put_slice, put_u32};
use crate::error::LsmError;
use crate::flat::flat;
use crate::keys::{Entry, sorted, key_lt, lemma_sorted_push};
use crate::table::{
    BlockMeta, FileObject, SsTable, block_images, data_section, block_offset, encode_table,
    table_ok, table_metas, metas_view, lemma_flat_push, lemma_block_offsets,
};

verus! {

/// Builds a table: entries fill blocks of the target size one after another.
pub struct SsTableBuilder {
    data: Vec<u8>,
    meta: Vec<BlockMeta>,
    block_builder: BlockBuilder,
    block_size: usize,
    first_key: Vec<u8>,
    blocks: Ghost<Seq<Seq<Entry>>>,
}

impl SsTableBuilder {
    /// The entries added so far, in order.
    pub closed spec fn entries(&self) -> Seq<Entry> {
        flat(self.blocks@) + self.block_builder@
    }

    /// The blocks finished so far.
    pub closed spec fn finished_blocks(&self) -> Seq<Seq<Entry>> {
        self.blocks@
    }

    /// The blocks the table will hold once built.
    pub closed spec fn final_blocks(&self) -> Seq<Seq<Entry>> {
        if self.block_builder@.len() == 0 {
            self.blocks@
        } else {
            self.blocks@.push(self.block_builder@)
        }
    }

    pub closed spec fn wf(&self) -> bool {
        let bs = self.blocks@;
        &&& forall|i: int| 0 <= i < bs.len() ==> block_ok(#[trigger] bs[i]) && bs[i].len() > 0
        &&& sorted(flat(bs) + self.block_builder@)
        &&& self.data@ == data_section(bs)
        &&& self.meta@.len() == bs.len()
        &&& forall|i: int|
            0 <= i < bs.len() ==> (#[trigger] self.meta@[i]).offset == block_offset(bs, i)
                && self.meta@[i].first_key@ == bs[i][0].0
        &&& self.block_builder.wf()
        &&& self.block_builder.target() == self.block_size
        &&& self.block_size <= 65535
        &&& self.block_builder@.len() > 0 ==> self.first_key@ == self.block_builder@[0].0
    }

    /// Creates a builder with the given target block size.
    pub fn new(block_size: usize) -> (r: SsTableBuilder)
        requires
            block_size <= 65535,
        ensures
            r.wf(),
            r.entries() == Seq::<Entry>::empty(),
    {
        let r = SsTableBuilder {
            data: Vec::new(),
            meta: Vec::new(),
            block_builder: BlockBuilder::new(block_size),
            block_size,
            first_key: Vec::new(),
            blocks: Ghost(Seq::empty()),
        };
        proof {
            assert(flat(Seq::<Seq<Entry>>::empty()) =~= Seq::<Entry>::empty());
            assert(block_images(Seq::<Seq<Entry>>::empty()) =~= Seq::<Seq<u8>>::empty());
            assert(r.data@ =~= data_section(r.blocks@));
            assert(r.entries() =~= Seq::<Entry>::empty());
        }
        r
    }

    /// Closes the block in progress and appends it to the data section.
    fn finish_block(&mut self, next: BlockBuilder)
        requires
            old(self).wf(),
            old(self).block_builder@.len() > 0,
            next.wf(),
            next.target() == old(self).block_size,
        ensures
            final(self).blocks@ == old(self).blocks@.push(old(self).block_builder@),
            final(self).block_builder == next,
            final(self).block_size == old(self).block_size,
            final(self).first_key == old(self).first_key,
            final(self).data@ == data_section(final(self).blocks@),
            final(self).meta@.len() == final(self).blocks@.len(),
            forall|i: int|
                0 <= i < final(self).blocks@.len() ==> (#[trigger] final(self).meta@[i]).offset
                    == block_offset(final(self).blocks@, i) && final(self).meta@[i].first_key@
                    == final(self).blocks@[i][0].0,
            forall|i: int|
                0 <= i < final(self).blocks@.len() ==> block_ok(#[trigger] final(self).blocks@[i])
                    && final(self).blocks@[i].len() > 0,
            flat(final(self).blocks@) == flat(old(self).blocks@) + old(self).block_builder@,
    {
        let ghost bs = self.blocks@;
        let mut finished = next;
        core::mem::swap(&mut self.block_builder, &mut finished);
        let ghost b = finished@;
        let first_key = bytes_of(self.first_key.as_slice());
        let i = self.meta.len();
        self.meta.push(BlockMeta { offset: self.data.len(), first_key });
        let block = finished.build();
        let bytes = block.encode();
        put_slice(&mut self.data, bytes.as_slice());
        proof {
            let nbs = bs.push(b);
            self.blocks = Ghost(nbs);
            lemma_flat_push(bs, b);
            assert(block_images(nbs) =~= block_images(bs).push(encode_block(b)));
            lemma_flat_push(block_images(bs), encode_block(b));
            assert(block_images(nbs).take(i as int) =~= block_images(bs));
            assert forall|j: int| 0 <= j < nbs.len() implies (#[trigger] self.meta@[j]).offset
                == block_offset(nbs, j) && self.meta@[j].first_key@ == nbs[j][0].0 by {
                if j < i {
                    assert(block_images(nbs).take(j) =~= block_images(bs).take(j));
                    assert(nbs[j] == bs[j]);
                }
            }
            assert forall|j: int| 0 <= j < nbs.len() implies block_ok(#[trigger] nbs[j]) && nbs[j].len() > 0 by {
                if j < i {
                    assert(nbs[j] == bs[j]);
                }
            }
        }
    }

    /// Adds an entry whose key is above every key added before.
    pub fn add(&mut self, key: &[u8], value: &[u8])
        requires
            old(self).wf(),
            old(self).entries().len() > 0 ==> key_lt(old(self).entries().last().0, key@),
            key@.len() <= 65535,
            value@.len() <= 65535,
        ensures
            final(self).wf(),
            final(self).entries() == old(self).entries().push((key@, value@)),
    {
        let ghost e: Entry = (key@, value@);
        let ghost old_entries = self.entries();
        if self.block_builder.is_empty() {
            self.first_key = bytes_of(key);
        }
        let ghost bb = self.block_builder@;
        proof {
            if bb.len() > 0 {
                assert(old_entries.last() == bb.last());
            }
        }
        let ok = self.block_builder.add(key, value);
        if !ok {
            let mut next = BlockBuilder::new(self.block_size);
            let added = next.add(key, value);
            proof {
                assert(next@ == Seq::<Entry>::empty().push(e));
            }
            self.finish_block(next);
            self.first_key = bytes_of(key);
            proof {
                assert(self.entries() =~= old_entries.push(e));
                lemma_sorted_push(old_entries, e);
            }
        } else {
            proof {
                assert(self.entries() =~= old_entries.push(e));
                lemma_sorted_push(old_entries, e);
            }
        }
    }

    /// Size of the blocks finished so far, encoded.
    pub fn estimated_size(&self) -> (r: usize)
        requires
            self.wf(),
        ensures
            r == data_section(self.finished_blocks()).len(),
    {
        self.data.len()
    }

    /// Finishes the table with the given id. Fails with `TooLarge` when its
    /// data section cannot be addressed with 32-bit offsets.
    pub fn build(self, id: usize) -> (r: Result<SsTable, LsmError>)
        requires
            self.wf(),
        ensures
            r is Ok <==> data_section(self.final_blocks()).len() <= 0xffff_ffff,
            2 * self.entries().len() + entries_size(self.entries()) <= 0xffff_ffff ==> r is Ok,
            r matches Ok(t) ==> t.wf() && t@ == self.final_blocks() && flat(t@) == self.entries()
                && t.id_view() == id && t.file_view() == encode_table(t@),
            r matches Err(e) ==> e == LsmError::TooLarge,
    {
        let mut this = self;
        let ghost entries = this.entries();
        if !this.block_builder.is_empty() {
            let next = BlockBuilder::new(this.block_size);
            this.finish_block(next);
            proof {
                assert(this.entries() =~= entries);
            }
        } else {
            proof {
                assert(this.entries() =~= flat(this.blocks@));
            }
        }
        let ghost bs = this.blocks@;
        proof {
            assert(bs == self.final_blocks());
            assert(flat(bs) == entries);
            crate::table::lemma_data_section_len(bs);
        }
        let block_meta_offset = this.data.len();
        if block_meta_offset > 0xffff_ffff {
            return Err(LsmError::TooLarge);
        }
        let mut data = this.data;
        proof {
            assert(metas_view(this.meta@) =~= table_metas(bs));
            assert forall|i: int| 0 <= i < table_metas(bs).len() implies (#[trigger] table_metas(bs)[i]).0 <= 0xffff_ffff
                && table_metas(bs)[i].1.len() <= 0xffff_ffff by {
                lemma_block_offsets(bs, i);
                assert(block_ok(bs[i]));
                assert(bs[i][0].0.len() <= 65535);
            }
        }
        BlockMeta::encode_block_meta(this.meta.as_slice(), &mut data);
        put_u32(&mut data, block_meta_offset as u32);
        let ghost fv = data@;
        proof {
            assert(fv =~= encode_table(bs));
            assert(fv.subrange(0, block_meta_offset as int) =~= data_section(bs));
            lemma_table_sorted(bs);
        }
        Ok(SsTable::from_parts(FileObject::new(data), this.meta, block_meta_offset, id, Ghost(bs)))
    }
}

proof fn lemma_table_sorted(bs: Seq<Seq<Entry>>)
    requires
        sorted(flat(bs)),
        forall|i: int| 0 <= i < bs.len() ==> block_ok(#[trigger] bs[i]) && bs[i].len() > 0,
    ensures
        table_ok(bs),
{
}

} // verus!
