//! Blocks: the unit of storage and caching, and their byte encoding.
use vstd::prelude::*;
use core::cmp::Ordering;
use crate::codec::{be16, u16_at, lemma_be16_read, lemma_be16_of_read, put_u16, put_slice, get_u16, copy_range};
use crate::keys::{Entry, sorted, key_lt, pairs_view, lemma_sorted_push, compare_keys, count_below, lemma_count_below};
use crate::run::lower_bound;

verus! {

/// One encoded entry: `u16 key_len | key | u16 value_len | value`.
pub open spec fn entry_bytes(e: Entry) -> Seq<u8> {
    be16(e.0.len()) + e.0 + be16(e.1.len()) + e.1
}

/// The data section: all entries back to back.
#[verifier::opaque]
pub open spec fn data_bytes(es: Seq<Entry>) -> Seq<u8>
    decreases es.len(),
{
    if es.len() == 0 {
        Seq::empty()
    } else {
        data_bytes(es.drop_last()) + entry_bytes(es.last())
    }
}

/// Where entry `i` starts in the data section.
pub open spec fn entry_start(es: Seq<Entry>, i: int) -> nat {
    data_bytes(es.take(i)).len()
}

/// The offset section: the start of each entry.
#[verifier::opaque]
pub open spec fn offsets_bytes(es: Seq<Entry>) -> Seq<u8>
    decreases es.len(),
{
    if es.len() == 0 {
        Seq::empty()
    } else {
        offsets_bytes(es.drop_last()) + be16(data_bytes(es.drop_last()).len())
    }
}

/// A whole encoded block: data, offsets, then the entry count.
pub open spec fn encode_block(es: Seq<Entry>) -> Seq<u8> {
    data_bytes(es) + offsets_bytes(es) + be16(es.len())
}

/// Every length, offset and the count of `es` can be written as a `u16`.
pub open spec fn fits(es: Seq<Entry>) -> bool {
    &&& es.len() <= 65535
    &&& forall|i: int|
        0 <= i < es.len() ==> (#[trigger] es[i]).0.len() <= 65535 && es[i].1.len() <= 65535
            && entry_start(es, i) <= 65535
}

/// The entries of a valid block: sorted by key and encodable.
pub open spec fn block_ok(es: Seq<Entry>) -> bool {
    sorted(es) && fits(es)
}

pub proof fn lemma_data_step(es: Seq<Entry>, i: int)
    requires
        0 <= i < es.len(),
    ensures
        data_bytes(es.take(i + 1)) == data_bytes(es.take(i)) + entry_bytes(es[i]),
        offsets_bytes(es.take(i + 1)) == offsets_bytes(es.take(i)) + be16(entry_start(es, i)),
        entry_start(es, i + 1) == entry_start(es, i) + 4 + es[i].0.len() + es[i].1.len(),
{
    reveal(data_bytes);
    reveal(offsets_bytes);
    assert(es.take(i + 1).drop_last() =~= es.take(i));
}

pub proof fn lemma_empty(es: Seq<Entry>)
    requires
        es.len() == 0,
    ensures
        data_bytes(es) == Seq::<u8>::empty(),
        offsets_bytes(es) == Seq::<u8>::empty(),
{
    reveal(data_bytes);
    reveal(offsets_bytes);
}

pub proof fn lemma_offsets_len(es: Seq<Entry>)
    ensures
        offsets_bytes(es).len() == 2 * es.len(),
    decreases es.len(),
{
    reveal(offsets_bytes);
    if es.len() > 0 {
        lemma_offsets_len(es.drop_last());
    }
}

pub proof fn lemma_data_prefix(es: Seq<Entry>, i: int)
    requires
        0 <= i <= es.len(),
    ensures
        entry_start(es, i) <= data_bytes(es).len(),
        data_bytes(es.take(i)) == data_bytes(es).subrange(0, entry_start(es, i) as int),
        offsets_bytes(es.take(i)) == offsets_bytes(es).subrange(0, 2 * i),
    decreases es.len(),
{
    reveal(data_bytes);
    reveal(offsets_bytes);
    lemma_offsets_len(es);
    lemma_offsets_len(es.take(i));
    if i == es.len() {
        assert(es.take(i) =~= es);
        assert(data_bytes(es) =~= data_bytes(es).subrange(0, data_bytes(es).len() as int));
        assert(offsets_bytes(es) =~= offsets_bytes(es).subrange(0, 2 * i));
    } else {
        lemma_data_prefix(es.drop_last(), i);
        lemma_offsets_len(es.drop_last());
        assert(es.drop_last().take(i) =~= es.take(i));
        assert(data_bytes(es.take(i)) =~= data_bytes(es).subrange(0, entry_start(es, i) as int));
        assert(offsets_bytes(es.take(i)) =~= offsets_bytes(es).subrange(0, 2 * i));
    }
}

proof fn lemma_subrange_of_concat(x: Seq<u8>, y: Seq<u8>, lo: int, hi: int)
    requires
        0 <= lo <= hi <= x.len(),
    ensures
        (x + y).subrange(lo, hi) == x.subrange(lo, hi),
{
    assert((x + y).subrange(lo, hi) =~= x.subrange(lo, hi));
}

proof fn lemma_subrange_of_prefix(x: Seq<u8>, y: Seq<u8>, p: Seq<u8>)
    requires
        y.len() <= x.len(),
        x.subrange(0, (y.len() + p.len()) as int) == y + p,
        (y.len() + p.len()) as int <= x.len(),
    ensures
        x.subrange(y.len() as int, (y.len() + p.len()) as int) == p,
{
    assert(x.subrange(y.len() as int, (y.len() + p.len()) as int) =~= x.subrange(0, (y.len() + p.len()) as int).subrange(
        y.len() as int,
        (y.len() + p.len()) as int,
    ));
    assert((y + p).subrange(y.len() as int, (y.len() + p.len()) as int) =~= p);
}

/// The fields of an encoded entry found at `s` in `enc`.
pub proof fn lemma_entry_fields(enc: Seq<u8>, s: int, e: Entry)
    requires
        0 <= s,
        s + entry_bytes(e).len() <= enc.len(),
        e.0.len() < 65536,
        e.1.len() < 65536,
        enc.subrange(s, (s + entry_bytes(e).len()) as int) == entry_bytes(e),
    ensures
        u16_at(enc, s) == e.0.len(),
        enc.subrange(s + 2, s + 2 + e.0.len()) == e.0,
        u16_at(enc, s + 2 + e.0.len()) == e.1.len(),
        enc.subrange(s + 4 + e.0.len(), s + 4 + e.0.len() + e.1.len()) == e.1,
{
    let eb = entry_bytes(e);
    let k = e.0.len() as int;
    let v = e.1.len() as int;
    let w = enc.subrange(s, (s + eb.len()) as int);
    assert(enc.subrange(s, s + 2) =~= w.subrange(0, 2));
    assert(eb.subrange(0, 2) =~= be16(k as nat));
    lemma_be16_read(enc, s, k as nat);
    assert(enc.subrange(s + 2, s + 2 + k) =~= w.subrange(2, 2 + k));
    assert(eb.subrange(2, 2 + k) =~= e.0);
    assert(enc.subrange(s + 2 + k, s + 4 + k) =~= w.subrange(2 + k, 4 + k));
    assert(eb.subrange(2 + k, 4 + k) =~= be16(v as nat));
    lemma_be16_read(enc, s + 2 + k, v as nat);
    assert(enc.subrange(s + 4 + k, s + 4 + k + v) =~= w.subrange(4 + k, 4 + k + v));
    assert(eb.subrange(4 + k, 4 + k + v) =~= e.1);
}

proof fn lemma_entry_in_block(es: Seq<Entry>, i: int)
    requires
        0 <= i < es.len(),
    ensures
        entry_start(es, i + 1) <= data_bytes(es).len(),
        encode_block(es).subrange(
            entry_start(es, i) as int,
            (entry_start(es, i) + entry_bytes(es[i]).len()) as int,
        ) == entry_bytes(es[i]),
{
    let db = data_bytes(es);
    lemma_data_step(es, i);
    lemma_data_prefix(es, i + 1);
    let s = entry_start(es, i) as int;
    let eb = entry_bytes(es[i]);
    lemma_subrange_of_prefix(db, data_bytes(es.take(i)), eb);
    lemma_subrange_of_concat(db, offsets_bytes(es) + be16(es.len()), s, (s + eb.len()) as int);
    assert(encode_block(es) =~= db + (offsets_bytes(es) + be16(es.len())));
}

proof fn lemma_offset_in_block(es: Seq<Entry>, i: int)
    requires
        fits(es),
        0 <= i < es.len(),
    ensures
        u16_at(encode_block(es), data_bytes(es).len() + 2 * i) == entry_start(es, i),
{
    let db = data_bytes(es);
    let ob = offsets_bytes(es);
    let enc = encode_block(es);
    let s = entry_start(es, i);
    lemma_data_step(es, i);
    lemma_data_prefix(es, i + 1);
    lemma_offsets_len(es);
    lemma_offsets_len(es.take(i));
    assert(es[i] == es[i]);
    lemma_subrange_of_prefix(ob, offsets_bytes(es.take(i)), be16(s));
    assert(enc =~= db + (ob + be16(es.len())));
    assert(enc.subrange((db.len() + 2 * i) as int, (db.len() + 2 * i + 2) as int) =~= ob.subrange(2 * i, 2 * i + 2));
    lemma_be16_read(enc, (db.len() + 2 * i) as int, s);
}

/// Where each field of entry `i` stands in an encoded block.
pub proof fn lemma_layout(es: Seq<Entry>, i: int)
    requires
        fits(es),
        0 <= i < es.len(),
    ensures
        ({
            let enc = encode_block(es);
            let d = data_bytes(es).len() as int;
            let s = entry_start(es, i) as int;
            let k = es[i].0.len() as int;
            let v = es[i].1.len() as int;
            &&& u16_at(enc, d + 2 * i) == s
            &&& s + 4 + k + v == entry_start(es, i + 1)
            &&& entry_start(es, i + 1) <= d
            &&& u16_at(enc, s) == k
            &&& enc.subrange(s + 2, s + 2 + k) == es[i].0
            &&& u16_at(enc, s + 2 + k) == v
            &&& enc.subrange(s + 4 + k, s + 4 + k + v) == es[i].1
        }),
{
    lemma_data_step(es, i);
    lemma_entry_in_block(es, i);
    lemma_offset_in_block(es, i);
    lemma_entry_fields(encode_block(es), entry_start(es, i) as int, es[i]);
}

/// Encoded bytes taken by each entry: two lengths, one offset, key and value.
pub open spec fn entries_size(es: Seq<Entry>) -> nat
    decreases es.len(),
{
    if es.len() == 0 {
        0
    } else {
        entries_size(es.drop_last()) + 6 + es.last().0.len() + es.last().1.len()
    }
}

pub proof fn lemma_encoded_len(es: Seq<Entry>)
    ensures
        encode_block(es).len() == 2 + entries_size(es),
        data_bytes(es).len() + 2 * es.len() == entries_size(es),
        entries_size(es) >= 6 * es.len(),
    decreases es.len(),
{
    reveal(data_bytes);
    lemma_offsets_len(es);
    if es.len() > 0 {
        lemma_encoded_len(es.drop_last());
    }
}

pub proof fn lemma_entries_size_concat(a: Seq<Entry>, b: Seq<Entry>)
    ensures
        entries_size(a + b) == entries_size(a) + entries_size(b),
    decreases b.len(),
{
    if b.len() == 0 {
        assert(a + b =~= a);
    } else {
        lemma_entries_size_concat(a, b.drop_last());
        assert((a + b).drop_last() =~= a + b.drop_last());
    }
}

pub proof fn lemma_entries_size_insert(s: Seq<Entry>, i: int, e: Entry)
    requires
        0 <= i <= s.len(),
    ensures
        entries_size(s.insert(i, e)) == entries_size(s) + 6 + e.0.len() + e.1.len(),
{
    assert(s.insert(i, e) =~= (s.take(i) + seq![e]) + s.skip(i));
    assert(s =~= s.take(i) + s.skip(i));
    lemma_entries_size_concat(s.take(i) + seq![e], s.skip(i));
    lemma_entries_size_concat(s.take(i), seq![e]);
    lemma_entries_size_concat(s.take(i), s.skip(i));
    assert(seq![e].drop_last() =~= Seq::<Entry>::empty());
    reveal_with_fuel(entries_size, 2);
    assert(seq![e].last() == e);
    assert(entries_size(seq![e]) == 6 + e.0.len() + e.1.len());
}

pub proof fn lemma_entries_size_update(s: Seq<Entry>, i: int, e: Entry)
    requires
        0 <= i < s.len(),
    ensures
        entries_size(s.update(i, e)) + s[i].0.len() + s[i].1.len() == entries_size(s) + e.0.len()
            + e.1.len(),
{
    assert(s.update(i, e) =~= (s.take(i) + seq![e]) + s.skip(i + 1));
    assert(s =~= (s.take(i) + seq![s[i]]) + s.skip(i + 1));
    lemma_entries_size_concat(s.take(i) + seq![e], s.skip(i + 1));
    lemma_entries_size_concat(s.take(i), seq![e]);
    lemma_entries_size_concat(s.take(i) + seq![s[i]], s.skip(i + 1));
    lemma_entries_size_concat(s.take(i), seq![s[i]]);
    assert(seq![e].drop_last() =~= Seq::<Entry>::empty());
    assert(seq![s[i]].drop_last() =~= Seq::<Entry>::empty());
}

/// Small enough blocks are encodable.
pub proof fn lemma_fits(es: Seq<Entry>)
    requires
        forall|i: int| 0 <= i < es.len() ==> (#[trigger] es[i]).0.len() <= 65535 && es[i].1.len() <= 65535,
        es.len() <= 1 || encode_block(es).len() <= 65535,
    ensures
        fits(es),
{
    lemma_encoded_len(es);
    assert forall|i: int| 0 <= i < es.len() implies entry_start(es, i) <= 65535 by {
        if es.len() == 1 {
            lemma_empty(es.take(0));
        } else {
            lemma_data_prefix(es, i);
        }
    }
}

/// An immutable sorted run of key-value entries.
pub struct Block {
    entries: Vec<(Vec<u8>, Vec<u8>)>,
}

impl View for Block {
    type V = Seq<Entry>;

    closed spec fn view(&self) -> Seq<Entry> {
        pairs_view(self.entries@)
    }
}

impl Block {
    /// The block's entries are sorted and encodable.
    pub open spec fn wf(&self) -> bool {
        block_ok(self@)
    }

    pub(crate) fn from_entries(entries: Vec<(Vec<u8>, Vec<u8>)>) -> (r: Block)
        ensures
            r@ == pairs_view(entries@),
    {
        Block { entries }
    }

    /// Number of entries.
    pub fn len(&self) -> (r: usize)
        ensures
            r == self@.len(),
    {
        self.entries.len()
    }

    /// Key of entry `i`.
    pub fn key_at(&self, i: usize) -> (r: &[u8])
        requires
            i < self@.len(),
        ensures
            r@ == self@[i as int].0,
    {
        self.entries[i].0.as_slice()
    }

    /// Value of entry `i`.
    pub fn value_at(&self, i: usize) -> (r: &[u8])
        requires
            i < self@.len(),
        ensures
            r@ == self@[i as int].1,
    {
        self.entries[i].1.as_slice()
    }

    /// Index of the first entry whose key is at least `key`.
    pub fn lower_bound(&self, key: &[u8]) -> (r: usize)
        requires
            self.wf(),
        ensures
            r <= self@.len(),
            r == count_below(self@, key@),
    {
        let r = lower_bound(&self.entries, key);
        proof {
            lemma_count_below(self@, key@, r as int);
        }
        r
    }

    /// Byte length of the encoded block.
    pub fn size(&self) -> (r: usize)
        requires
            self.wf(),
        ensures
            r == encode_block(self@).len(),
    {
        let ghost es = self@;
        let n = self.entries.len();
        let mut d: usize = 0;
        let mut i: usize = 0;
        proof {
            lemma_empty(es.take(0));
        }
        while i < n
            invariant
                es == self@,
                block_ok(es),
                n == es.len(),
                i <= n,
                d == entry_start(es, i as int),
                d <= 200000,
            decreases n - i,
        {
            proof {
                lemma_data_step(es, i as int);
                assert(es[i as int] == (self.entries@[i as int].0@, self.entries@[i as int].1@));
            }
            d = d + 4 + self.entries[i].0.len() + self.entries[i].1.len();
            i = i + 1;
        }
        proof {
            assert(es.take(n as int) =~= es);
            lemma_offsets_len(es);
        }
        d + 2 * n + 2
    }

    /// Encodes the block: data section, offset section, then the entry count.
    pub fn encode(&self) -> (r: Vec<u8>)
        requires
            self.wf(),
        ensures
            r@ == encode_block(self@),
    {
        let ghost es = self@;
        let n = self.entries.len();
        let mut buf: Vec<u8> = Vec::new();
        let mut offsets: Vec<u8> = Vec::new();
        let mut i: usize = 0;
        proof {
            lemma_empty(es.take(0));
            assert(buf@ =~= Seq::<u8>::empty());
            assert(offsets@ =~= Seq::<u8>::empty());
        }
        while i < n
            invariant
                es == self@,
                block_ok(es),
                n == es.len(),
                i <= n,
                buf@ == data_bytes(es.take(i as int)),
                offsets@ == offsets_bytes(es.take(i as int)),
            decreases n - i,
        {
            proof {
                lemma_data_step(es, i as int);
                assert(es[i as int] == (self.entries@[i as int].0@, self.entries@[i as int].1@));
            }
            let start = buf.len();
            put_u16(&mut offsets, start as u16);
            let key = self.entries[i].0.as_slice();
            let value = self.entries[i].1.as_slice();
            put_u16(&mut buf, key.len() as u16);
            put_slice(&mut buf, key);
            put_u16(&mut buf, value.len() as u16);
            put_slice(&mut buf, value);
            i = i + 1;
            proof {
                assert(buf@ =~= data_bytes(es.take(i as int)));
            }
        }
        proof {
            assert(es.take(n as int) =~= es);
        }
        put_slice(&mut buf, offsets.as_slice());
        put_u16(&mut buf, n as u16);
        buf
    }

    /// Decodes an encoded block. Returns `None` when the bytes are not the
    /// encoding of a valid block.
    pub fn decode(data: &[u8]) -> (r: Option<Block>)
        ensures
            r matches Some(b) ==> b.wf() && encode_block(b@) == data@,
            forall|es: Seq<Entry>|
                block_ok(es) && #[trigger] encode_block(es) == data@ ==> (r matches Some(b) && b@
                    == es),
    {
        let len = data.len();
        proof {
            assert forall|es: Seq<Entry>| block_ok(es) && #[trigger] encode_block(es) == data@ implies ({
                &&& u16_at(data@, len - 2) == es.len()
                &&& len == data_bytes(es).len() + 2 * es.len() + 2
            }) by {
                lemma_offsets_len(es);
                let enc = encode_block(es);
                assert(enc.subrange(len - 2, len as int) =~= be16(es.len()));
                lemma_be16_read(enc, len - 2, es.len());
            }
        }
        if len < 2 {
            return None;
        }
        let n = get_u16(data, len - 2) as usize;
        if len - 2 < 2 * n {
            return None;
        }
        let data_end = len - 2 - 2 * n;
        let mut entries: Vec<(Vec<u8>, Vec<u8>)> = Vec::new();
        let mut pos: usize = 0;
        let mut i: usize = 0;
        proof {
            lemma_empty(pairs_view(entries@));
            assert(data@.subrange(0, 0) =~= Seq::<u8>::empty());
            assert(data@.subrange(data_end as int, data_end as int) =~= Seq::<u8>::empty());
            assert forall|es: Seq<Entry>| block_ok(es) && #[trigger] encode_block(es) == data@ implies
                pairs_view(entries@) == es.take(0) && 0 == entry_start(es, 0) by {
                lemma_empty(es.take(0));
                assert(pairs_view(entries@) =~= es.take(0));
            }
        }
        while i < n
            invariant
                len == data@.len(),
                n == u16_at(data@, len - 2),
                data_end + 2 * n + 2 == len,
                i <= n,
                pos <= data_end,
                pairs_view(entries@).len() == i,
                block_ok(pairs_view(entries@)),
                data@.subrange(0, pos as int) == data_bytes(pairs_view(entries@)),
                data@.subrange(data_end as int, data_end + 2 * i) == offsets_bytes(
                    pairs_view(entries@),
                ),
                forall|es: Seq<Entry>|
                    block_ok(es) && #[trigger] encode_block(es) == data@ ==> {
                        &&& n == es.len()
                        &&& data_end == data_bytes(es).len()
                        &&& pairs_view(entries@) == es.take(i as int)
                        &&& pos == entry_start(es, i as int)
                    },
            decreases n - i,
        {
            let ghost old_view = pairs_view(entries@);
            proof {
                assert forall|es: Seq<Entry>| block_ok(es) && #[trigger] encode_block(es) == data@ implies ({
                    let s = entry_start(es, i as int) as int;
                    let k = es[i as int].0.len() as int;
                    let v = es[i as int].1.len() as int;
                    &&& u16_at(data@, data_end + 2 * i) == s
                    &&& s + 4 + k + v == entry_start(es, i + 1)
                    &&& entry_start(es, i + 1) <= data_end
                    &&& u16_at(data@, s) == k
                    &&& data@.subrange(s + 2, s + 2 + k) == es[i as int].0
                    &&& u16_at(data@, s + 2 + k) == v
                    &&& data@.subrange(s + 4 + k, s + 4 + k + v) == es[i as int].1
                }) by {
                    lemma_layout(es, i as int);
                }
            }
            let off = get_u16(data, data_end + 2 * i) as usize;
            if off != pos || data_end - pos < 2 {
                return None;
            }
            let klen = get_u16(data, pos) as usize;
            if data_end - pos - 2 < klen + 2 {
                return None;
            }
            let key = copy_range(data, pos + 2, pos + 2 + klen);
            let vlen = get_u16(data, pos + 2 + klen) as usize;
            if data_end - pos - 4 - klen < vlen {
                return None;
            }
            let value = copy_range(data, pos + 4 + klen, pos + 4 + klen + vlen);
            if i > 0 {
                let c = compare_keys(entries[i - 1].0.as_slice(), key.as_slice());
                proof {
                    assert(old_view[i - 1].0 == entries@[i - 1].0@);
                    assert forall|es: Seq<Entry>| block_ok(es) && #[trigger] encode_block(es) == data@ implies key_lt(
                        old_view[i - 1].0,
                        key@,
                    ) by {
                        assert(es.take(i as int)[i - 1] == es[i - 1]);
                    }
                }
                match c {
                    Ordering::Less => {},
                    _ => {
                        return None;
                    },
                }
            }
            let ghost e: Entry = (key@, value@);
            let ghost new_pos = pos + 4 + klen + vlen;
            proof {
                lemma_be16_of_read(data@, pos as int);
                lemma_be16_of_read(data@, pos + 2 + klen);
                lemma_be16_of_read(data@, data_end + 2 * i);
                assert(data@.subrange(pos as int, new_pos) =~= entry_bytes(e));
                lemma_data_step(old_view.push(e), i as int);
                assert(old_view.push(e).take(i as int) =~= old_view);
                assert(old_view.push(e).take(i + 1) =~= old_view.push(e));
                assert(data@.subrange(0, new_pos) =~= data@.subrange(0, pos as int) + data@.subrange(
                    pos as int,
                    new_pos,
                ));
                assert(data@.subrange(data_end as int, data_end + 2 * i + 2) =~= data@.subrange(
                    data_end as int,
                    data_end + 2 * i,
                ) + data@.subrange(data_end + 2 * i, data_end + 2 * i + 2));
                lemma_sorted_push(old_view, e);
                let nv = old_view.push(e);
                assert forall|j: int| 0 <= j < nv.len() implies (#[trigger] nv[j]).0.len() <= 65535
                    && nv[j].1.len() <= 65535 && entry_start(nv, j) <= 65535 by {
                    if j < i {
                        assert(nv.take(j) =~= old_view.take(j));
                    }
                }
            }
            entries.push((key, value));
            proof {
                assert(pairs_view(entries@) =~= old_view.push(e));
                assert forall|es: Seq<Entry>| block_ok(es) && #[trigger] encode_block(es) == data@ implies
                    pairs_view(entries@) == es.take(i + 1) by {
                    assert(es.take(i + 1) =~= es.take(i as int).push(es[i as int]));
                }
                assert forall|es: Seq<Entry>| block_ok(es) && #[trigger] encode_block(es) == data@ implies
                    new_pos == entry_start(es, i + 1) by {
                    lemma_data_step(es, i as int);
                }
            }
            pos = pos + 4 + klen + vlen;
            i = i + 1;
        }
        proof {
            assert forall|es: Seq<Entry>| block_ok(es) && #[trigger] encode_block(es) == data@ implies
                pos == data_end by {
                assert(es.take(n as int) =~= es);
            }
        }
        if pos != data_end {
            return None;
        }
        let b = Block { entries };
        proof {
            let es = b@;
            lemma_be16_of_read(data@, len - 2);
            lemma_offsets_len(es);
            assert(data@ =~= data@.subrange(0, pos as int) + data@.subrange(data_end as int, data_end + 2 * n)
                + data@.subrange(len - 2, len as int));
            assert forall|es2: Seq<Entry>| block_ok(es2) && #[trigger] encode_block(es2) == data@ implies
                b@ == es2 by {
                assert(es2.take(n as int) =~= es2);
            }
        }
        Some(b)
    }
}

} // verus!
