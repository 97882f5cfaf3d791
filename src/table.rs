//! Sorted tables: blocks written back to back, a block index, and a footer.
use vstd::prelude::*;
use std::sync::Arc;
use core::cmp::Ordering;
use crate::block::{Block, encode_block, block_ok, entries_size, lemma_encoded_len, lemma_entries_size_concat};
use crate::codec::{be32, u32_at, get_u32, copy_range, put_u32, put_slice, lemma_be32_read, lemma_be32_of_read};
use crate::error::LsmError;
use crate::flat::{flat, lemma_flat_step, lemma_flat_concat, lemma_flat_one};
use crate::keys::{Entry, sorted, key_lt, key_le, compare_keys, lemma_sorted_concat, lemma_lt_transitive};

verus! {

/// The encoded blocks of a table.
pub open spec fn block_images(bs: Seq<Seq<Entry>>) -> Seq<Seq<u8>> {
    bs.map_values(|b: Seq<Entry>| encode_block(b))
}

/// The data section of a table: its blocks, encoded, back to back.
pub open spec fn data_section(bs: Seq<Seq<Entry>>) -> Seq<u8> {
    flat(block_images(bs))
}

/// Where block `i` starts in the table.
pub open spec fn block_offset(bs: Seq<Seq<Entry>>, i: int) -> nat {
    flat(block_images(bs).take(i)).len()
}

/// One record of the block index: `u32 offset | u32 first_key_len | first_key`.
pub open spec fn meta_bytes(offset: nat, first_key: Seq<u8>) -> Seq<u8> {
    be32(offset) + be32(first_key.len()) + first_key
}

/// Encoded records of a block index, one after another.
pub open spec fn index_bytes(ms: Seq<(nat, Seq<u8>)>) -> Seq<u8> {
    flat(Seq::new(ms.len(), |i: int| meta_bytes(ms[i].0, ms[i].1)))
}

/// The offset and first key of each block of a table.
pub open spec fn table_metas(bs: Seq<Seq<Entry>>) -> Seq<(nat, Seq<u8>)> {
    Seq::new(bs.len(), |i: int| (block_offset(bs, i), bs[i][0].0))
}

/// Every offset and key length can be written as a `u32`.
pub open spec fn metas_fit(ms: Seq<(nat, Seq<u8>)>) -> bool {
    forall|i: int| 0 <= i < ms.len() ==> (#[trigger] ms[i]).0 <= 0xffff_ffff && ms[i].1.len() <= 0xffff_ffff
}

/// The block index of a table.
pub open spec fn index_section(bs: Seq<Seq<Entry>>) -> Seq<u8> {
    index_bytes(table_metas(bs))
}

/// A whole table file: data section, block index, and the index's offset.
pub open spec fn encode_table(bs: Seq<Seq<Entry>>) -> Seq<u8> {
    data_section(bs) + index_section(bs) + be32(data_section(bs).len())
}

/// Blocks of a valid table: each valid and non-empty, all keys sorted.
pub open spec fn table_ok(bs: Seq<Seq<Entry>>) -> bool {
    &&& forall|i: int| 0 <= i < bs.len() ==> block_ok(#[trigger] bs[i]) && bs[i].len() > 0
    &&& sorted(flat(bs))
}

/// The first key of each block.
pub open spec fn first_keys(bs: Seq<Seq<Entry>>) -> Seq<Seq<u8>> {
    Seq::new(bs.len(), |i: int| bs[i][0].0)
}

pub proof fn lemma_block_offsets(bs: Seq<Seq<Entry>>, i: int)
    requires
        0 <= i < bs.len(),
    ensures
        block_offset(bs, i + 1) == block_offset(bs, i) + encode_block(bs[i]).len(),
        block_offset(bs, i + 1) <= data_section(bs).len(),
        data_section(bs).subrange(block_offset(bs, i) as int, block_offset(bs, i + 1) as int)
            == encode_block(bs[i]),
{
    lemma_flat_step(block_images(bs), i);
}

pub proof fn lemma_block_offset_end(bs: Seq<Seq<Entry>>)
    ensures
        block_offset(bs, bs.len() as int) == data_section(bs).len(),
{
    assert(block_images(bs).take(bs.len() as int) =~= block_images(bs));
}

/// The data section of non-empty blocks takes two bytes per block besides
/// the entries, so at most two bytes per entry.
pub proof fn lemma_data_section_len(bs: Seq<Seq<Entry>>)
    requires
        forall|i: int| 0 <= i < bs.len() ==> (#[trigger] bs[i]).len() > 0,
    ensures
        data_section(bs).len() == 2 * bs.len() + entries_size(flat(bs)),
        bs.len() <= flat(bs).len(),
    decreases bs.len(),
{
    if bs.len() > 0 {
        let rest = bs.drop_first();
        assert forall|i: int| 0 <= i < rest.len() implies (#[trigger] rest[i]).len() > 0 by {
            assert(rest[i] == bs[i + 1]);
        }
        lemma_data_section_len(rest);
        assert(block_images(bs).drop_first() =~= block_images(rest));
        assert(block_images(bs)[0] == encode_block(bs[0]));
        lemma_encoded_len(bs[0]);
        lemma_entries_size_concat(bs[0], flat(rest));
        assert(bs[0].len() > 0);
    }
}

/// Appending a block to a table's blocks.
pub proof fn lemma_flat_push<T>(ss: Seq<Seq<T>>, x: Seq<T>)
    ensures
        flat(ss.push(x)) == flat(ss) + x,
{
    assert(ss.push(x) =~= ss + seq![x]);
    lemma_flat_concat(ss, seq![x]);
    lemma_flat_one(x);
}

/// Position and first key of one block.
pub struct BlockMeta {
    /// Offset of the block in the table.
    pub offset: usize,
    /// The block's first key.
    pub first_key: Vec<u8>,
}

/// The offsets and first keys held by block metas.
pub open spec fn metas_view(ms: Seq<BlockMeta>) -> Seq<(nat, Seq<u8>)> {
    Seq::new(ms.len(), |i: int| (ms[i].offset as nat, ms[i].first_key@))
}

proof fn lemma_index_bytes_step(ms: Seq<(nat, Seq<u8>)>, i: int)
    requires
        0 <= i < ms.len(),
    ensures
        index_bytes(ms.take(i + 1)) == index_bytes(ms.take(i)) + meta_bytes(ms[i].0, ms[i].1),
        index_bytes(ms.take(i)).len() + meta_bytes(ms[i].0, ms[i].1).len() <= index_bytes(ms).len(),
        index_bytes(ms).subrange(
            index_bytes(ms.take(i)).len() as int,
            (index_bytes(ms.take(i)).len() + meta_bytes(ms[i].0, ms[i].1).len()) as int,
        ) == meta_bytes(ms[i].0, ms[i].1),
{
    let f = Seq::new(ms.len(), |j: int| meta_bytes(ms[j].0, ms[j].1));
    lemma_flat_step(f, i);
    assert(f.take(i) =~= Seq::new(ms.take(i).len(), |j: int| meta_bytes(ms.take(i)[j].0, ms.take(i)[j].1)));
    assert(f.take(i + 1) =~= Seq::new(ms.take(i + 1).len(), |j: int| meta_bytes(ms.take(i + 1)[j].0, ms.take(i + 1)[j].1)));
}

proof fn lemma_index_bytes_whole(ms: Seq<(nat, Seq<u8>)>)
    ensures
        index_bytes(ms.take(ms.len() as int)) == index_bytes(ms),
        index_bytes(ms.take(0)) == Seq::<u8>::empty(),
{
    assert(ms.take(ms.len() as int) =~= ms);
    assert(Seq::new(ms.take(0).len(), |j: int| meta_bytes(ms.take(0)[j].0, ms.take(0)[j].1)) =~= Seq::<Seq<u8>>::empty());
}

/// Where the fields of record `i` stand in an encoded block index.
proof fn lemma_index_read(buf: Seq<u8>, ms: Seq<(nat, Seq<u8>)>, pos: int, i: int)
    requires
        metas_fit(ms),
        index_bytes(ms) == buf,
        0 <= i <= ms.len(),
        pos == index_bytes(ms.take(i)).len(),
        pos < buf.len(),
    ensures
        i < ms.len(),
        pos + 8 + ms[i].1.len() <= buf.len(),
        u32_at(buf, pos) == ms[i].0,
        u32_at(buf, pos + 4) == ms[i].1.len(),
        buf.subrange(pos + 8, pos + 8 + ms[i].1.len()) == ms[i].1,
{
    if i == ms.len() {
        lemma_index_bytes_whole(ms);
    }
    lemma_index_bytes_step(ms, i);
    let mb = meta_bytes(ms[i].0, ms[i].1);
    let w = buf.subrange(pos, pos + mb.len());
    assert(buf.subrange(pos, pos + 4) =~= w.subrange(0, 4));
    assert(buf.subrange(pos + 4, pos + 8) =~= w.subrange(4, 8));
    assert(buf.subrange(pos + 8, pos + 8 + ms[i].1.len()) =~= w.subrange(8, mb.len() as int));
    assert(mb.subrange(0, 4) =~= be32(ms[i].0));
    assert(mb.subrange(4, 8) =~= be32(ms[i].1.len()));
    assert(mb.subrange(8, mb.len() as int) =~= ms[i].1);
    lemma_be32_read(buf, pos, ms[i].0);
    lemma_be32_read(buf, pos + 4, ms[i].1.len());
}

impl BlockMeta {
    /// Appends the encoded records of `block_meta` to `buf`.
    pub fn encode_block_meta(block_meta: &[BlockMeta], buf: &mut Vec<u8>)
        requires
            metas_fit(metas_view(block_meta@)),
        ensures
            final(buf)@ == old(buf)@ + index_bytes(metas_view(block_meta@)),
    {
        let ghost ms = metas_view(block_meta@);
        let mut i: usize = 0;
        proof {
            lemma_index_bytes_whole(ms);
            assert(buf@ =~= old(buf)@ + index_bytes(ms.take(0)));
        }
        while i < block_meta.len()
            invariant
                ms == metas_view(block_meta@),
                metas_fit(ms),
                i <= ms.len(),
                buf@ == old(buf)@ + index_bytes(ms.take(i as int)),
            decreases ms.len() - i,
        {
            proof {
                lemma_index_bytes_step(ms, i as int);
                assert(ms[i as int].0 <= 0xffff_ffff);
            }
            let m = &block_meta[i];
            put_u32(buf, m.offset as u32);
            put_u32(buf, m.first_key.len() as u32);
            put_slice(buf, m.first_key.as_slice());
            i = i + 1;
            proof {
                assert(buf@ =~= old(buf)@ + index_bytes(ms.take(i as int)));
            }
        }
        proof {
            lemma_index_bytes_whole(ms);
        }
    }

    /// Decodes a block index. Returns `None` when the bytes are not a
    /// sequence of encoded records.
    #[verifier::spinoff_prover]
    pub fn decode_block_meta(buf: &[u8]) -> (r: Option<Vec<BlockMeta>>)
        ensures
            r matches Some(v) ==> index_bytes(metas_view(v@)) == buf@,
            forall|ms: Seq<(nat, Seq<u8>)>|
                metas_fit(ms) && #[trigger] index_bytes(ms) == buf@ ==> (r matches Some(v) && metas_view(v@) == ms),
    {
        let end = buf.len();
        let mut v: Vec<BlockMeta> = Vec::new();
        let mut pos: usize = 0;
        proof {
            assert(metas_view(v@) =~= Seq::<(nat, Seq<u8>)>::empty());
            lemma_index_bytes_whole(metas_view(v@));
            assert(metas_view(v@).take(0) =~= metas_view(v@));
            assert(buf@.subrange(0, 0) =~= Seq::<u8>::empty());
            assert forall|ms: Seq<(nat, Seq<u8>)>| metas_fit(ms) && #[trigger] index_bytes(ms) == buf@ implies
                metas_view(v@) == ms.take(0) && pos == index_bytes(ms.take(0)).len() by {
                lemma_index_bytes_whole(ms);
                assert(metas_view(v@) =~= ms.take(0));
            }
        }
        while pos < end
            invariant
                end == buf@.len(),
                pos <= end,
                index_bytes(metas_view(v@)) == buf@.subrange(0, pos as int),
                forall|ms: Seq<(nat, Seq<u8>)>|
                    metas_fit(ms) && #[trigger] index_bytes(ms) == buf@ ==> v@.len() <= ms.len()
                        && metas_view(v@) == ms.take(v@.len() as int) && pos == index_bytes(
                        ms.take(v@.len() as int),
                    ).len(),
            decreases end - pos,
        {
            let ghost i = v@.len() as int;
            proof {
                assert forall|ms: Seq<(nat, Seq<u8>)>| metas_fit(ms) && #[trigger] index_bytes(ms) == buf@ implies ({
                    &&& i < ms.len()
                    &&& pos + 8 + ms[i].1.len() <= end
                    &&& u32_at(buf@, pos as int) == ms[i].0
                    &&& u32_at(buf@, pos + 4) == ms[i].1.len()
                    &&& buf@.subrange(pos + 8, pos + 8 + ms[i].1.len()) == ms[i].1
                }) by {
                    lemma_index_read(buf@, ms, pos as int, i);
                }
            }
            if end - pos < 8 {
                return None;
            }
            let offset = get_u32(buf, pos);
            let klen = get_u32(buf, pos + 4) as usize;
            if klen > end - pos - 8 {
                return None;
            }
            let first_key = copy_range(buf, pos + 8, pos + 8 + klen);
            let ghost before = metas_view(v@);
            v.push(BlockMeta { offset: offset as usize, first_key });
            let ghost new_pos = pos + 8 + klen;
            proof {
                let nv = metas_view(v@);
                assert(nv =~= before.push((offset as nat, first_key@)));
                lemma_index_bytes_step(nv, i);
                assert(nv.take(i) =~= before);
                assert(nv.take(i + 1) =~= nv);
                lemma_be32_of_read(buf@, pos as int);
                lemma_be32_of_read(buf@, pos + 4);
                assert(buf@.subrange(pos as int, new_pos) =~= meta_bytes(offset as nat, first_key@));
                assert(buf@.subrange(0, new_pos) =~= buf@.subrange(0, pos as int) + buf@.subrange(pos as int, new_pos));
                assert forall|ms: Seq<(nat, Seq<u8>)>| metas_fit(ms) && #[trigger] index_bytes(ms) == buf@ implies
                    nv == ms.take(i + 1) && new_pos == index_bytes(ms.take(i + 1)).len() by {
                    lemma_index_bytes_step(ms, i);
                    assert(ms.take(i + 1) =~= ms.take(i).push(ms[i]));
                }
            }
            pos = pos + 8 + klen;
        }
        proof {
            assert(buf@.subrange(0, end as int) =~= buf@);
            assert forall|ms: Seq<(nat, Seq<u8>)>| metas_fit(ms) && #[trigger] index_bytes(ms) == buf@ implies
                metas_view(v@) == ms by {
                lemma_index_bytes_whole(ms);
                if v@.len() < ms.len() {
                    lemma_index_bytes_step(ms, v@.len() as int);
                    let mb = meta_bytes(ms[v@.len() as int].0, ms[v@.len() as int].1);
                    assert(mb.len() >= 8);
                    assert(index_bytes(ms.take(v@.len() as int + 1)).len() <= index_bytes(ms).len());
                }
            }
        }
        Some(v)
    }
}

/// What a valid table file shows of block `i` to the reader that opens it.
proof fn lemma_open_step(file: Seq<u8>, ms: Seq<(nat, Seq<u8>)>, meta_offset: int, tb: Seq<Seq<Entry>>, i: int)
    requires
        table_ok(tb),
        encode_table(tb) == file,
        meta_offset == data_section(tb).len(),
        ms == table_metas(tb),
        0 <= i < tb.len(),
    ensures
        ms[i].0 == block_offset(tb, i),
        i + 1 < tb.len() ==> ms[i + 1].0 == block_offset(tb, i + 1),
        i + 1 == tb.len() ==> meta_offset == block_offset(tb, i + 1),
        block_offset(tb, i + 1) <= meta_offset,
        block_offset(tb, i) <= block_offset(tb, i + 1),
        file.subrange(block_offset(tb, i) as int, block_offset(tb, i + 1) as int) == encode_block(tb[i]),
        block_ok(tb[i]),
        tb[i].len() > 0,
        ms[i].1 == tb[i][0].0,
        i > 0 ==> key_lt(flat(tb.take(i)).last().0, tb[i][0].0),
{
    lemma_block_offsets(tb, i);
    lemma_block_offset_end(tb);
    assert(block_ok(tb[i]));
    let lo = block_offset(tb, i) as int;
    let hi = block_offset(tb, i + 1) as int;
    let d = data_section(tb);
    assert(file.subrange(lo, hi) =~= d.subrange(lo, hi)) by {
        assert forall|t: int| 0 <= t < hi - lo implies #[trigger] file.subrange(lo, hi)[t] == d.subrange(lo, hi)[t] by {
            assert(file[lo + t] == d[lo + t]);
        }
    }
    if i > 0 {
        crate::flat::lemma_flat_split(tb, i);
        lemma_flat_step(tb, i);
        let f = flat(tb);
        let pre = flat(tb.take(i));
        let p = pre.len() as int;
        lemma_flat_step(tb.take(i), i - 1);
        assert(tb.take(i).take(i) =~= tb.take(i));
        assert(tb.take(i)[i - 1] == tb[i - 1]);
        assert(tb[i - 1].len() > 0);
        assert(p > 0);
        assert(f[p - 1] == pre.last());
        assert(f[p] == tb[i][0]);
    }
}

/// The bytes of a table file, held in memory.
pub struct FileObject(Vec<u8>);

impl View for FileObject {
    type V = Seq<u8>;

    closed spec fn view(&self) -> Seq<u8> {
        self.0@
    }
}

impl FileObject {
    /// Wraps the bytes of a file.
    pub fn new(data: Vec<u8>) -> (r: FileObject)
        ensures
            r@ == data@,
    {
        FileObject(data)
    }

    /// The file's bytes.
    pub fn as_bytes(&self) -> (r: &[u8])
        ensures
            r@ == self@,
    {
        self.0.as_slice()
    }

    /// Reads `len` bytes at `offset`.
    pub fn read(&self, offset: usize, len: usize) -> (r: Result<Vec<u8>, LsmError>)
        ensures
            offset + len <= self@.len() <==> r is Ok,
            r matches Ok(v) ==> v@ == self@.subrange(offset as int, offset + len),
            r matches Err(e) ==> e == LsmError::Corruption,
    {
        if offset > self.0.len() || len > self.0.len() - offset {
            return Err(LsmError::Corruption);
        }
        Ok(copy_range(self.0.as_slice(), offset, offset + len))
    }

    /// Size of the file in bytes.
    pub fn size(&self) -> (r: usize)
        ensures
            r == self@.len(),
    {
        self.0.len()
    }
}

/// An immutable table of sorted blocks.
pub struct SsTable {
    file: FileObject,
    block_metas: Vec<BlockMeta>,
    block_meta_offset: usize,
    id: usize,
    blocks: Ghost<Seq<Seq<Entry>>>,
}

impl View for SsTable {
    type V = Seq<Seq<Entry>>;

    /// The entries of each block.
    closed spec fn view(&self) -> Seq<Seq<Entry>> {
        self.blocks@
    }
}

impl SsTable {
    pub closed spec fn wf(&self) -> bool {
        let bs = self.blocks@;
        &&& table_ok(bs)
        &&& self.block_metas@.len() == bs.len()
        &&& forall|i: int|
            0 <= i < bs.len() ==> (#[trigger] self.block_metas@[i]).offset == block_offset(bs, i)
                && self.block_metas@[i].first_key@ == bs[i][0].0
        &&& self.block_meta_offset == data_section(bs).len()
        &&& self.block_meta_offset <= self.file@.len()
        &&& self.file@.subrange(0, self.block_meta_offset as int) == data_section(bs)
    }

    /// A well-formed table holds valid, non-empty blocks, sorted throughout.
    pub proof fn lemma_wf(&self)
        requires
            self.wf(),
        ensures
            table_ok(self@),
    {
    }

    /// The table's id.
    pub closed spec fn id_view(&self) -> nat {
        self.id as nat
    }

    /// The bytes of the table's file.
    pub closed spec fn file_view(&self) -> Seq<u8> {
        self.file@
    }

    pub(crate) fn from_parts(
        file: FileObject,
        block_metas: Vec<BlockMeta>,
        block_meta_offset: usize,
        id: usize,
        blocks: Ghost<Seq<Seq<Entry>>>,
    ) -> (r: SsTable)
        requires
            table_ok(blocks@),
            block_metas@.len() == blocks@.len(),
            forall|i: int|
                0 <= i < blocks@.len() ==> (#[trigger] block_metas@[i]).offset == block_offset(
                    blocks@,
                    i,
                ) && block_metas@[i].first_key@ == blocks@[i][0].0,
            block_meta_offset == data_section(blocks@).len(),
            block_meta_offset <= file@.len(),
            file@.subrange(0, block_meta_offset as int) == data_section(blocks@),
        ensures
            r.wf(),
            r@ == blocks@,
            r.id_view() == id,
            r.file_view() == file@,
    {
        SsTable { file, block_metas, block_meta_offset, id, blocks }
    }

    /// The table's file.
    pub fn file(&self) -> (r: &FileObject)
        ensures
            r@ == self.file_view(),
    {
        &self.file
    }

    /// The table's id.
    pub fn id(&self) -> (r: usize)
        ensures
            r == self.id_view(),
    {
        self.id
    }

    /// Opens a table from the bytes of its file. Fails with `Corruption` when
    /// the bytes do not hold a valid table.
    #[verifier::rlimit(100)]
    #[verifier::spinoff_prover]
    pub fn open(id: usize, file: FileObject) -> (r: Result<SsTable, LsmError>)
        ensures
            r matches Ok(t) ==> t.wf() && t.id_view() == id && t.file_view() == file@ && encode_table(t@)
                == file@,
            r matches Err(e) ==> e == LsmError::Corruption,
            forall|bs: Seq<Seq<Entry>>|
                table_ok(bs) && data_section(bs).len() <= 0xffff_ffff && #[trigger] encode_table(bs)
                    == file@ ==> (r matches Ok(t) && t@ == bs),
    {
        let size = file.size();
        proof {
            assert forall|bs: Seq<Seq<Entry>>|
                table_ok(bs) && data_section(bs).len() <= 0xffff_ffff && #[trigger] encode_table(bs) == file@ implies ({
                    let d = data_section(bs).len() as int;
                    &&& size >= 4
                    &&& u32_at(file@, size - 4) == d
                    &&& d <= size - 4
                    &&& file@.subrange(d, size - 4) == index_section(bs)
                    &&& file@.subrange(0, d) == data_section(bs)
                    &&& metas_fit(table_metas(bs))
                }) by {
                let d = data_section(bs).len() as int;
                let enc = encode_table(bs);
                assert(enc.subrange(size - 4, size as int) =~= be32(d as nat));
                lemma_be32_read(enc, size - 4, d as nat);
                assert(enc.subrange(d, size - 4) =~= index_section(bs));
                assert(enc.subrange(0, d) =~= data_section(bs));
                assert forall|i: int| 0 <= i < table_metas(bs).len() implies (#[trigger] table_metas(bs)[i]).0 <= 0xffff_ffff
                    && table_metas(bs)[i].1.len() <= 0xffff_ffff by {
                    lemma_block_offsets(bs, i);
                    assert(block_ok(bs[i]));
                    assert(bs[i][0].0.len() <= 65535);
                }
            }
        }
        if size < 4 {
            return Err(LsmError::Corruption);
        }
        let meta_offset = get_u32(file.as_bytes(), size - 4) as usize;
        if meta_offset > size - 4 {
            return Err(LsmError::Corruption);
        }
        let index = copy_range(file.as_bytes(), meta_offset, size - 4);
        proof {
            assert forall|tb: Seq<Seq<Entry>>|
                table_ok(tb) && data_section(tb).len() <= 0xffff_ffff && #[trigger] encode_table(tb) == file@ implies
                metas_fit(table_metas(tb)) && index_bytes(table_metas(tb)) == index@ by {}
        }
        let metas = match BlockMeta::decode_block_meta(index.as_slice()) {
            Some(m) => m,
            None => {
                return Err(LsmError::Corruption);
            },
        };
        let n = metas.len();
        let ghost mut bs: Seq<Seq<Entry>> = Seq::empty();
        let mut cur: usize = 0;
        let mut prev_last: Vec<u8> = Vec::new();
        let mut i: usize = 0;
        proof {
            assert(block_images(bs).take(0) =~= Seq::<Seq<u8>>::empty());
            assert(file@.subrange(0, 0) =~= Seq::<u8>::empty());
            assert(flat(bs) =~= Seq::<Entry>::empty());
            assert forall|tb: Seq<Seq<Entry>>|
                table_ok(tb) && data_section(tb).len() <= 0xffff_ffff && #[trigger] encode_table(tb) == file@ implies
                metas_view(metas@) == table_metas(tb) && bs == tb.take(0) && cur == block_offset(tb, 0) by {
                assert(tb.take(0) =~= bs);
                assert(block_images(tb).take(0) =~= Seq::<Seq<u8>>::empty());
            }
        }
        while i < n
            invariant
                n == metas@.len(),
                i <= n,
                bs.len() == i,
                meta_offset + 4 <= file@.len(),
                meta_offset == u32_at(file@, file@.len() - 4),
                index_bytes(metas_view(metas@)) == file@.subrange(meta_offset as int, file@.len() - 4),
                cur <= meta_offset,
                cur == data_section(bs).len(),
                file@.subrange(0, cur as int) == data_section(bs),
                table_ok(bs),
                i > 0 ==> prev_last@ == flat(bs).last().0,
                forall|j: int|
                    0 <= j < i ==> (#[trigger] metas@[j]).offset == block_offset(bs, j)
                        && metas@[j].first_key@ == bs[j][0].0,
                forall|tb: Seq<Seq<Entry>>|
                    table_ok(tb) && data_section(tb).len() <= 0xffff_ffff && #[trigger] encode_table(tb)
                        == file@ ==> metas_view(metas@) == table_metas(tb) && bs == tb.take(i as int)
                        && cur == block_offset(tb, i as int),
            decreases n - i,
        {
            proof {
                assert forall|tb: Seq<Seq<Entry>>|
                    table_ok(tb) && data_section(tb).len() <= 0xffff_ffff && #[trigger] encode_table(tb) == file@ implies ({
                        &&& metas@[i as int].offset == block_offset(tb, i as int)
                        &&& (i + 1 < n ==> metas@[i + 1].offset == block_offset(tb, i + 1))
                        &&& (i + 1 == n ==> meta_offset == block_offset(tb, i + 1))
                        &&& block_offset(tb, i + 1) <= meta_offset
                        &&& block_offset(tb, i as int) <= block_offset(tb, i + 1)
                        &&& file@.subrange(block_offset(tb, i as int) as int, block_offset(tb, i + 1) as int)
                            == encode_block(tb[i as int])
                        &&& block_ok(tb[i as int])
                        &&& tb[i as int].len() > 0
                        &&& metas@[i as int].first_key@ == tb[i as int][0].0
                        &&& (i > 0 ==> key_lt(flat(tb.take(i as int)).last().0, tb[i as int][0].0))
                    }) by {
                    lemma_open_step(file@, metas_view(metas@), meta_offset as int, tb, i as int);
                    assert(metas_view(metas@)[i as int] == (metas@[i as int].offset as nat, metas@[i as int].first_key@));
                    if i + 1 < n {
                        assert(metas_view(metas@)[i + 1] == (metas@[i + 1].offset as nat, metas@[i + 1].first_key@));
                    }
                }
            }
            if metas[i].offset != cur {
                return Err(LsmError::Corruption);
            }
            let stop = if i + 1 < n {
                metas[i + 1].offset
            } else {
                meta_offset
            };
            if stop < cur || stop > meta_offset {
                return Err(LsmError::Corruption);
            }
            let bytes = copy_range(file.as_bytes(), cur, stop);
            let block = match Block::decode(bytes.as_slice()) {
                Some(b) => b,
                None => {
                    return Err(LsmError::Corruption);
                },
            };
            if block.len() == 0 {
                return Err(LsmError::Corruption);
            }
            match compare_keys(block.key_at(0), metas[i].first_key.as_slice()) {
                Ordering::Equal => {},
                _ => {
                    return Err(LsmError::Corruption);
                },
            }
            if i > 0 {
                match compare_keys(prev_last.as_slice(), block.key_at(0)) {
                    Ordering::Less => {},
                    _ => {
                        return Err(LsmError::Corruption);
                    },
                }
            }
            let ghost b = block@;
            let ghost nbs = bs.push(b);
            proof {
                lemma_flat_push(bs, b);
                lemma_sorted_concat(flat(bs), b);
                assert(block_images(nbs) =~= block_images(bs).push(encode_block(b)));
                lemma_flat_push(block_images(bs), encode_block(b));
                assert(block_images(nbs).take(i as int) =~= block_images(bs));
                assert(block_images(nbs).take(i + 1) =~= block_images(nbs));
                assert(file@.subrange(0, stop as int) =~= file@.subrange(0, cur as int)
                    + file@.subrange(cur as int, stop as int));
                assert forall|j: int| 0 <= j < nbs.len() implies block_ok(#[trigger] nbs[j]) && nbs[j].len() > 0 by {
                    if j < i {
                        assert(nbs[j] == bs[j]);
                    }
                }
                assert forall|j: int| 0 <= j < i + 1 implies (#[trigger] metas@[j]).offset == block_offset(nbs, j)
                    && metas@[j].first_key@ == nbs[j][0].0 by {
                    if j < i {
                        assert(block_images(nbs).take(j) =~= block_images(bs).take(j));
                        assert(nbs[j] == bs[j]);
                    }
                }
                assert(flat(nbs).last() == b.last());
                assert forall|tb: Seq<Seq<Entry>>|
                    table_ok(tb) && data_section(tb).len() <= 0xffff_ffff && #[trigger] encode_table(tb) == file@ implies
                    nbs == tb.take(i + 1) && stop == block_offset(tb, i + 1) by {
                    assert(tb.take(i + 1) =~= tb.take(i as int).push(tb[i as int]));
                }
            }
            let last = block.len() - 1;
            prev_last = crate::codec::bytes_of(block.key_at(last));
            proof {
                bs = nbs;
            }
            cur = stop;
            i = i + 1;
        }
        proof {
            assert forall|tb: Seq<Seq<Entry>>|
                table_ok(tb) && data_section(tb).len() <= 0xffff_ffff && #[trigger] encode_table(tb) == file@ implies
                cur == meta_offset by {
                lemma_block_offset_end(tb);
                assert(metas_view(metas@).len() == tb.len());
            }
        }
        if cur != meta_offset {
            return Err(LsmError::Corruption);
        }
        proof {
            assert forall|tb: Seq<Seq<Entry>>|
                table_ok(tb) && data_section(tb).len() <= 0xffff_ffff && #[trigger] encode_table(tb) == file@ implies
                bs == tb by {
                assert(metas_view(metas@).len() == tb.len());
                assert(tb.take(n as int) =~= tb);
            }
            assert(metas_view(metas@) =~= table_metas(bs));
            lemma_be32_of_read(file@, size - 4);
            assert(file@ =~= file@.subrange(0, meta_offset as int) + file@.subrange(meta_offset as int, size - 4)
                + file@.subrange(size - 4, size as int));
            assert(file@ =~= encode_table(bs));
        }
        Ok(SsTable { file, block_metas: metas, block_meta_offset: meta_offset, id, blocks: Ghost(bs) })
    }

    /// Reads block `block_idx`. Fails with `OutOfRange` past the last block.
    pub fn read_block(&self, block_idx: usize) -> (r: Result<Arc<Block>, LsmError>)
        requires
            self.wf(),
        ensures
            block_idx < self@.len() <==> r is Ok,
            r matches Ok(b) ==> b.wf() && b@ == self@[block_idx as int],
            r matches Err(e) ==> e == LsmError::OutOfRange,
    {
        let ghost bs = self.blocks@;
        if block_idx >= self.block_metas.len() {
            return Err(LsmError::OutOfRange);
        }
        let offset = self.block_metas[block_idx].offset;
        let end = if block_idx + 1 < self.block_metas.len() {
            self.block_metas[block_idx + 1].offset
        } else {
            self.block_meta_offset
        };
        proof {
            lemma_block_offsets(bs, block_idx as int);
            lemma_block_offset_end(bs);
            assert(self.file@.subrange(offset as int, end as int) =~= data_section(bs).subrange(
                offset as int,
                end as int,
            ));
        }
        let data = match self.file.read(offset, end - offset) {
            Ok(d) => d,
            Err(_) => {
                return Err(LsmError::OutOfRange);
            },
        };
        match Block::decode(data.as_slice()) {
            Some(b) => Ok(Arc::new(b)),
            None => Err(LsmError::OutOfRange),
        }
    }

    /// Index of the block that may hold `key`: the last block whose first
    /// key is at most `key`, or 0 when `key` is below every first key.
    pub fn find_block_idx(&self, key: &[u8]) -> (r: usize)
        requires
            self.wf(),
        ensures
            self@.len() == 0 ==> r == 0,
            self@.len() > 0 ==> r < self@.len(),
            r > 0 ==> key_le(self@[r as int][0].0, key@),
            forall|j: int| r < j < self@.len() ==> key_lt(key@, (#[trigger] self@[j])[0].0),
    {
        let ghost fk = first_keys(self.blocks@);
        proof {
            self.lemma_first_keys_sorted();
        }
        let mut lo: usize = 0;
        let mut hi: usize = self.block_metas.len();
        while lo < hi
            invariant
                self.wf(),
                fk == first_keys(self.blocks@),
                lo <= hi <= self@.len(),
                forall|a: int, b: int| 0 <= a < b < fk.len() ==> key_lt(#[trigger] fk[a], #[trigger] fk[b]),
                forall|j: int| 0 <= j < lo ==> key_lt(#[trigger] fk[j], key@),
                forall|j: int| hi <= j < fk.len() ==> key_lt(key@, #[trigger] fk[j]),
            decreases hi - lo,
        {
            let mid = lo + (hi - lo) / 2;
            let c = compare_keys(self.block_metas[mid].first_key.as_slice(), key);
            proof {
                assert(fk[mid as int] == self.block_metas@[mid as int].first_key@);
            }
            match c {
                Ordering::Less => {
                    proof {
                        assert forall|j: int| 0 <= j < mid + 1 implies key_lt(#[trigger] fk[j], key@) by {
                            if j < mid {
                                lemma_lt_transitive(fk[j], fk[mid as int], key@);
                            }
                        }
                    }
                    lo = mid + 1;
                },
                Ordering::Greater => {
                    proof {
                        assert forall|j: int| mid <= j < fk.len() implies key_lt(key@, #[trigger] fk[j]) by {
                            if j > mid {
                                lemma_lt_transitive(key@, fk[mid as int], fk[j]);
                            }
                        }
                    }
                    hi = mid;
                },
                Ordering::Equal => {
                    proof {
                        assert forall|j: int| mid < j < self@.len() implies key_lt(key@, (#[trigger] self@[j])[0].0) by {
                            assert(fk[j] == self@[j][0].0);
                        }
                    }
                    return mid;
                },
            }
        }
        proof {
            assert forall|j: int| hi <= j < self@.len() implies key_lt(key@, (#[trigger] self@[j])[0].0) by {
                assert(fk[j] == self@[j][0].0);
            }
            if hi > 0 {
                assert(fk[hi - 1] == self@[hi - 1][0].0);
            }
        }
        if hi > 0 {
            hi - 1
        } else {
            0
        }
    }

    proof fn lemma_first_keys_sorted(&self)
        requires
            self.wf(),
        ensures
            forall|a: int, b: int|
                0 <= a < b < first_keys(self@).len() ==> key_lt(
                    #[trigger] first_keys(self@)[a],
                    #[trigger] first_keys(self@)[b],
                ),
    {
        let bs = self@;
        assert forall|a: int, b: int| 0 <= a < b < first_keys(bs).len() implies key_lt(
            #[trigger] first_keys(bs)[a],
            #[trigger] first_keys(bs)[b],
        ) by {
            lemma_flat_step(bs, a);
            lemma_flat_step(bs, b);
            let pa = flat(bs.take(a)).len() as int;
            let pb = flat(bs.take(b)).len() as int;
            assert(flat(bs)[pa] == bs[a][0]);
            assert(flat(bs)[pb] == bs[b][0]);
            assert(bs.take(b) =~= bs.take(a + 1) + bs.take(b).skip(a + 1));
            lemma_flat_concat(bs.take(a + 1), bs.take(b).skip(a + 1));
            lemma_flat_step(bs, a);
        }
    }

    /// Number of blocks.
    pub fn num_of_blocks(&self) -> (r: usize)
        requires
            self.wf(),
        ensures
            r == self@.len(),
    {
        self.block_metas.len()
    }
}

} // verus!
