use std::sync::Arc;

use mini_lsm::block::Block;
use mini_lsm::block_builder::BlockBuilder;
use mini_lsm::block_iterator::BlockIterator;
use mini_lsm::error::LsmError;
use mini_lsm::iterators::{StorageIterator, TwoMergeIterator};
use mini_lsm::lsm_storage::LsmStorageInner;
use mini_lsm::mem_table::{Bound, MemTable, MemTableIterator};
use mini_lsm::merge_iterator::MergeIterator;
use mini_lsm::table::{BlockMeta, FileObject, SsTable};
use mini_lsm::table_builder::SsTableBuilder;
use mini_lsm::table_iterator::SsTableIterator;

fn collect<I: StorageIterator>(mut it: I) -> Vec<(Vec<u8>, Vec<u8>)> {
    let mut out = Vec::new();
    while it.is_valid() {
        out.push((it.key().to_vec(), it.value().to_vec()));
        it.next();
    }
    out
}

fn pairs(items: &[(&str, &str)]) -> Vec<(Vec<u8>, Vec<u8>)> {
    items.iter().map(|(k, v)| (k.as_bytes().to_vec(), v.as_bytes().to_vec())).collect()
}

fn block_of(items: &[(&str, &str)]) -> Block {
    let mut b = BlockBuilder::new(4096);
    for (k, v) in items {
        assert!(b.add(k.as_bytes(), v.as_bytes()));
    }
    b.build()
}

fn block_entries(block: Block) -> Vec<(Vec<u8>, Vec<u8>)> {
    let mut it = BlockIterator::create_and_seek_to_first(Arc::new(block));
    let mut out = Vec::new();
    while it.is_valid() {
        out.push((it.key().to_vec(), it.value().to_vec()));
        it.next();
    }
    out
}

fn mem_of(items: &[(&str, &str)]) -> MemTable {
    let mut m = MemTable::create();
    for (k, v) in items {
        m.put(k.as_bytes(), v.as_bytes());
    }
    m
}

fn engine_get(e: &LsmStorageInner, k: &str) -> Option<Vec<u8>> {
    e.get(k.as_bytes())
}

#[test]
fn block_encoding_is_bit_exact() {
    let block = block_of(&[("a", "xy"), ("bc", "z")]);
    let enc = block.encode();
    assert_eq!(
        enc,
        vec![0, 1, b'a', 0, 2, b'x', b'y', 0, 2, b'b', b'c', 0, 1, b'z', 0, 0, 0, 7, 0, 2]
    );
    assert_eq!(block.size(), enc.len());
}

#[test]
fn block_round_trip_s6() {
    let block = block_of(&[("1", "11"), ("2", "22"), ("3", "33")]);
    let decoded = Block::decode(&block.encode()).expect("valid block");
    assert_eq!(block_entries(decoded), pairs(&[("1", "11"), ("2", "22"), ("3", "33")]));

    let decoded = Arc::new(Block::decode(&block.encode()).unwrap());
    let it = BlockIterator::create_and_seek_to_key(decoded.clone(), b"2");
    assert!(it.is_valid());
    assert_eq!(it.key(), b"2");
    let it = BlockIterator::create_and_seek_to_key(decoded.clone(), b"15");
    assert_eq!(it.key(), b"2");
    assert_eq!(it.value(), b"22");
    let it = BlockIterator::create_and_seek_to_key(decoded, b"9");
    assert!(!it.is_valid());
    assert!(it.key().is_empty());
    assert!(it.value().is_empty());
}

#[test]
fn block_decode_rejects_corrupt_bytes() {
    assert!(Block::decode(&[]).is_none());
    assert!(Block::decode(&[0]).is_none());
    // count of 5 entries but no room for their offsets
    assert!(Block::decode(&[0, 5]).is_none());
    // unsorted keys
    let mut bad = vec![0, 1, b'b', 0, 0, 0, 1, b'a', 0, 0];
    bad.extend_from_slice(&[0, 0, 0, 5, 0, 2]);
    assert!(Block::decode(&bad).is_none());
    // the empty block
    let empty = Block::decode(&[0, 0]).unwrap();
    assert_eq!(empty.len(), 0);
}

#[test]
fn block_builder_capacity() {
    let mut b = BlockBuilder::new(16);
    assert!(b.is_empty());
    assert_eq!(b.first_key(), None);
    // 2 + (1 + 1 + 6) = 10
    assert!(b.add(b"a", b"1"));
    assert_eq!(b.first_key(), Some(b"a".to_vec()));
    // 10 + 8 = 18 > 16 and the builder is not empty
    assert!(!b.add(b"b", b"2"));
    let mut fresh = BlockBuilder::new(16);
    assert!(fresh.add(b"b", b"2"));
    // a first entry is taken whatever its size
    let mut big = BlockBuilder::new(16);
    assert!(big.add(b"key", b"a value much longer than sixteen bytes"));
    assert!(!big.is_empty());
}

#[test]
fn block_builder_replaces_equal_key() {
    let mut b = BlockBuilder::new(20);
    assert!(b.add(b"b", b"1"));
    assert!(b.add(b"a", b"2"));
    // replacing a value corrects the size: 18 + 3 - 1 = 20, within the budget
    assert!(b.add(b"b", b"333"));
    // one byte more would pass it
    assert!(!b.add(b"b", b"4444"));
    let block = b.build();
    assert_eq!(block.size(), 20);
    assert_eq!(block_entries(block), pairs(&[("a", "2"), ("b", "333")]));
}

fn build_table(items: &[(&str, &str)], block_size: usize, id: usize) -> SsTable {
    let mut b = SsTableBuilder::new(block_size);
    for (k, v) in items {
        b.add(k.as_bytes(), v.as_bytes());
    }
    b.build(id).expect("small table")
}

fn ten_pairs() -> Vec<(String, String)> {
    (0..10).map(|i| (format!("k{}", i), format!("v{}", i))).collect()
}

#[test]
fn table_round_trip() {
    let owned = ten_pairs();
    let items: Vec<(&str, &str)> = owned.iter().map(|(k, v)| (k.as_str(), v.as_str())).collect();
    let table = build_table(&items, 16, 3);
    assert!(table.num_of_blocks() > 1);
    assert_eq!(table.id(), 3);
    let t = Arc::new(table);
    assert_eq!(collect(SsTableIterator::create_and_seek_to_first(t.clone())), pairs(&items));

    // the file reopens to the same table
    let bytes = t.file().as_bytes().to_vec();
    let reopened = Arc::new(SsTable::open(7, FileObject::new(bytes)).expect("valid table"));
    assert_eq!(reopened.num_of_blocks(), t.num_of_blocks());
    assert_eq!(collect(SsTableIterator::create_and_seek_to_first(reopened)), pairs(&items));
}

#[test]
fn table_estimated_size_counts_finished_blocks() {
    let mut b = SsTableBuilder::new(16);
    assert_eq!(b.estimated_size(), 0);
    b.add(b"k0", b"v0");
    assert_eq!(b.estimated_size(), 0);
    // k0 and k1 make a block of 2 + 10 + 10 = 22 > 16: k0 alone is finished
    b.add(b"k1", b"v1");
    assert_eq!(b.estimated_size(), 2 + 10);
}

#[test]
fn table_seek_and_find_block() {
    let owned = ten_pairs();
    let items: Vec<(&str, &str)> = owned.iter().map(|(k, v)| (k.as_str(), v.as_str())).collect();
    let t = Arc::new(build_table(&items, 16, 1));
    let n = t.num_of_blocks();
    assert_eq!(n, 10);
    assert_eq!(t.find_block_idx(b"a"), 0);
    assert_eq!(t.find_block_idx(b"k0"), 0);
    assert_eq!(t.find_block_idx(b"k35"), 3);
    assert_eq!(t.find_block_idx(b"k9"), 9);
    assert_eq!(t.find_block_idx(b"z"), 9);

    let it = SsTableIterator::create_and_seek_to_key(t.clone(), b"k35");
    assert_eq!(it.key(), b"k4");
    let it = SsTableIterator::create_and_seek_to_key(t.clone(), b"a");
    assert_eq!(it.key(), b"k0");
    let it = SsTableIterator::create_and_seek_to_key(t.clone(), b"z");
    assert!(!it.is_valid());
    let mut it = SsTableIterator::create_and_seek_to_first(t.clone());
    it.seek_to_key(b"k7");
    assert_eq!(collect(it), pairs(&items[7..]));
}

#[test]
fn table_read_block_out_of_range() {
    let t = build_table(&[("a", "1"), ("b", "2")], 4096, 1);
    assert_eq!(t.num_of_blocks(), 1);
    assert!(t.read_block(0).is_ok());
    assert_eq!(t.read_block(1).err(), Some(LsmError::OutOfRange));
}

#[test]
fn table_open_rejects_corrupt_file() {
    assert_eq!(SsTable::open(1, FileObject::new(vec![1, 2])).err(), Some(LsmError::Corruption));
    let t = build_table(&[("a", "1"), ("b", "2")], 4096, 1);
    let mut bytes = t.file().as_bytes().to_vec();
    bytes[1] = 9; // first key length of the only entry
    assert_eq!(SsTable::open(1, FileObject::new(bytes)).err(), Some(LsmError::Corruption));
    assert_eq!(FileObject::new(vec![1, 2, 3]).read(2, 2).err(), Some(LsmError::Corruption));
}

#[test]
fn two_merge_prefers_a() {
    let a = mem_of(&[("a", "a1"), ("c", "a3"), ("e", "a5")]);
    let b = mem_of(&[("b", "b2"), ("c", "b3"), ("d", "b4"), ("e", "")]);
    let it = TwoMergeIterator::create(a.scan(&Bound::Unbounded), b.scan(&Bound::Unbounded));
    assert_eq!(
        collect(it),
        pairs(&[("a", "a1"), ("b", "b2"), ("c", "a3"), ("d", "b4"), ("e", "a5")])
    );
}

#[test]
fn merge_iterator_lowest_index_wins() {
    let m0 = mem_of(&[("b", "0"), ("d", "0")]);
    let m1 = mem_of(&[("a", "1"), ("b", "1"), ("c", "1")]);
    let m2 = mem_of(&[("b", "2"), ("c", "2"), ("e", "2")]);
    let iters: Vec<MemTableIterator> = vec![
        m0.scan(&Bound::Unbounded),
        m1.scan(&Bound::Unbounded),
        m2.scan(&Bound::Unbounded),
    ];
    let it = MergeIterator::create(iters);
    assert_eq!(
        collect(it),
        pairs(&[("a", "1"), ("b", "0"), ("c", "1"), ("d", "0"), ("e", "2")])
    );
}

#[test]
fn memtable_scan_lower_bounds() {
    let m = mem_of(&[("a", "1"), ("b", "2"), ("c", "3")]);
    assert_eq!(collect(m.scan(&Bound::Included(b"b".to_vec()))), pairs(&[("b", "2"), ("c", "3")]));
    assert_eq!(collect(m.scan(&Bound::Excluded(b"b".to_vec()))), pairs(&[("c", "3")]));
    assert_eq!(collect(m.scan(&Bound::Excluded(b"bb".to_vec()))), pairs(&[("c", "3")]));
    assert_eq!(m.get(b"b"), Some(b"2".to_vec()));
    assert_eq!(m.get(b"d"), None);
}

fn scan_all(e: &LsmStorageInner, lower: Bound, upper: Bound) -> Vec<(Vec<u8>, Vec<u8>)> {
    collect(e.scan(lower, upper))
}

#[test]
fn scenario_s1_flush_then_get() {
    let mut e = LsmStorageInner::create();
    e.put(b"1", b"1");
    e.put(b"2", b"2");
    e.put(b"3", b"3");
    e.sync(16).unwrap();
    assert_eq!(engine_get(&e, "1"), Some(b"1".to_vec()));
    assert_eq!(engine_get(&e, "2"), Some(b"2".to_vec()));
    assert_eq!(engine_get(&e, "3"), Some(b"3".to_vec()));
    assert_eq!(engine_get(&e, "4"), None);
}

#[test]
fn scenario_s2_memtable_shadows_table() {
    let mut e = LsmStorageInner::create();
    e.put(b"a", b"1");
    e.sync(16).unwrap();
    e.put(b"a", b"2");
    assert_eq!(engine_get(&e, "a"), Some(b"2".to_vec()));
}

#[test]
fn scenario_s3_delete_survives_flush() {
    let mut e = LsmStorageInner::create();
    e.put(b"x", b"v");
    e.delete(b"x");
    assert_eq!(engine_get(&e, "x"), None);
    e.sync(16).unwrap();
    assert_eq!(engine_get(&e, "x"), None);
}

#[test]
fn scenario_s4_scan_range() {
    let mut e = LsmStorageInner::create();
    for (k, v) in ten_pairs() {
        e.put(k.as_bytes(), v.as_bytes());
    }
    e.sync(16).unwrap();
    let got = scan_all(&e, Bound::Included(b"k3".to_vec()), Bound::Excluded(b"k7".to_vec()));
    assert_eq!(got, pairs(&[("k3", "v3"), ("k4", "v4"), ("k5", "v5"), ("k6", "v6")]));
}

#[test]
fn scenario_s5_overwrites_across_tables() {
    let mut e = LsmStorageInner::create();
    e.put(b"a", b"1");
    e.sync(16).unwrap();
    e.put(b"a", b"2");
    e.sync(16).unwrap();
    e.put(b"a", b"3");
    assert_eq!(engine_get(&e, "a"), Some(b"3".to_vec()));
    e.delete(b"a");
    assert_eq!(engine_get(&e, "a"), None);
}

#[test]
fn read_your_writes_and_overwrite() {
    let mut e = LsmStorageInner::create();
    e.put(b"k", b"v1");
    assert_eq!(engine_get(&e, "k"), Some(b"v1".to_vec()));
    e.put(b"other", b"x");
    assert_eq!(engine_get(&e, "k"), Some(b"v1".to_vec()));
    e.put(b"k", b"v2");
    assert_eq!(engine_get(&e, "k"), Some(b"v2".to_vec()));
}

#[test]
fn tombstone_hidden_from_scan() {
    let mut e = LsmStorageInner::create();
    e.put(b"a", b"1");
    e.put(b"b", b"2");
    e.put(b"c", b"3");
    e.sync(16).unwrap();
    e.delete(b"b");
    let got = scan_all(&e, Bound::Unbounded, Bound::Unbounded);
    assert_eq!(got, pairs(&[("a", "1"), ("c", "3")]));
    e.sync(16).unwrap();
    let got = scan_all(&e, Bound::Included(b"a".to_vec()), Bound::Included(b"c".to_vec()));
    assert_eq!(got, pairs(&[("a", "1"), ("c", "3")]));
}

#[test]
fn sync_does_not_change_reads() {
    let mut e = LsmStorageInner::create();
    let ops: Vec<(&str, Option<&str>)> = vec![
        ("d", Some("4")),
        ("a", Some("1")),
        ("c", Some("3")),
        ("a", None),
        ("b", Some("2")),
    ];
    let mut flushed = LsmStorageInner::create();
    for (i, (k, v)) in ops.iter().enumerate() {
        match v {
            Some(v) => {
                e.put(k.as_bytes(), v.as_bytes());
                flushed.put(k.as_bytes(), v.as_bytes());
            }
            None => {
                e.delete(k.as_bytes());
                flushed.delete(k.as_bytes());
            }
        }
        if i % 2 == 0 {
            flushed.sync(16).unwrap();
        }
    }
    for k in ["a", "b", "c", "d", "e"] {
        assert_eq!(engine_get(&e, k), engine_get(&flushed, k));
    }
    assert_eq!(
        scan_all(&e, Bound::Unbounded, Bound::Unbounded),
        scan_all(&flushed, Bound::Unbounded, Bound::Unbounded)
    );
    assert_eq!(
        scan_all(&flushed, Bound::Unbounded, Bound::Unbounded),
        pairs(&[("b", "2"), ("c", "3"), ("d", "4")])
    );
}

#[test]
fn scan_bound_kinds() {
    let mut e = LsmStorageInner::create();
    for k in ["a", "b", "c", "d"] {
        e.put(k.as_bytes(), b"v");
    }
    e.sync(16).unwrap();
    e.put(b"e", b"v");
    let keys = |lo: Bound, hi: Bound| -> Vec<Vec<u8>> {
        scan_all(&e, lo, hi).into_iter().map(|(k, _)| k).collect()
    };
    let ks = |s: &[&str]| -> Vec<Vec<u8>> { s.iter().map(|k| k.as_bytes().to_vec()).collect() };
    assert_eq!(keys(Bound::Excluded(b"b".to_vec()), Bound::Included(b"d".to_vec())), ks(&["c", "d"]));
    assert_eq!(keys(Bound::Included(b"b".to_vec()), Bound::Excluded(b"d".to_vec())), ks(&["b", "c"]));
    assert_eq!(keys(Bound::Unbounded, Bound::Excluded(b"b".to_vec())), ks(&["a"]));
    assert_eq!(keys(Bound::Excluded(b"d".to_vec()), Bound::Unbounded), ks(&["e"]));
    assert_eq!(keys(Bound::Unbounded, Bound::Unbounded), ks(&["a", "b", "c", "d", "e"]));
}

#[test]
fn freeze_build_install_by_steps() {
    let mut e = LsmStorageInner::create();
    e.put(b"a", b"1");
    let (frozen, id) = e.freeze();
    assert_eq!(id, 1);
    e.put(b"a", b"2");
    assert_eq!(engine_get(&e, "a"), Some(b"2".to_vec()));
    let table = LsmStorageInner::build_table(&frozen, id, 16).unwrap();
    assert_eq!(table.id(), 1);
    e.install(Arc::new(table));
    assert_eq!(engine_get(&e, "a"), Some(b"2".to_vec()));
    let (_, next) = e.freeze();
    assert_eq!(next, 2);
}

#[test]
fn block_meta_round_trip() {
    let metas = vec![
        BlockMeta { offset: 0, first_key: b"a".to_vec() },
        BlockMeta { offset: 258, first_key: b"bc".to_vec() },
    ];
    let mut buf = vec![9];
    BlockMeta::encode_block_meta(&metas, &mut buf);
    assert_eq!(
        buf,
        vec![9, 0, 0, 0, 0, 0, 0, 0, 1, b'a', 0, 0, 1, 2, 0, 0, 0, 2, b'b', b'c']
    );
    let decoded = BlockMeta::decode_block_meta(&buf[1..]).expect("valid index");
    assert_eq!(decoded.len(), 2);
    assert_eq!(decoded[1].offset, 258);
    assert_eq!(decoded[1].first_key, b"bc".to_vec());
    assert!(BlockMeta::decode_block_meta(&buf[1..buf.len() - 1]).is_none());
    assert!(BlockMeta::decode_block_meta(&[]).unwrap().is_empty());
}

#[test]
fn table_file_layout() {
    let t = build_table(&[("a", "1")], 4096, 1);
    // block: 0 1 'a' 0 1 '1' | offset 0 0 | count 0 1 ; index: 0 0 0 0 | 0 0 0 1 | 'a' ; footer 0 0 0 10
    assert_eq!(
        t.file().as_bytes().to_vec(),
        vec![0, 1, b'a', 0, 1, b'1', 0, 0, 0, 1, 0, 0, 0, 0, 0, 0, 0, 1, b'a', 0, 0, 0, 10]
    );
}

#[test]
fn sync_returns_table_of_flushed_memtable() {
    let mut e = LsmStorageInner::create();
    e.put(b"b", b"2");
    e.put(b"a", b"1");
    e.delete(b"c");
    let t = e.sync(16).unwrap();
    assert_eq!(t.id(), 1);
    assert_eq!(
        collect(SsTableIterator::create_and_seek_to_first(t)),
        pairs(&[("a", "1"), ("b", "2"), ("c", "")])
    );
    assert!(e.oldest_frozen().is_none());
    e.put(b"d", b"4");
    let t2 = e.sync(16).unwrap();
    assert_eq!(t2.id(), 2);
    let (_, next) = e.freeze();
    assert_eq!(next, 3);
    assert!(e.oldest_frozen().is_some());
}

#[test]
fn newest_table_wins_on_get() {
    let mut e = LsmStorageInner::create();
    e.put(b"k", b"old");
    e.sync(16).unwrap();
    e.put(b"k", b"new");
    e.sync(16).unwrap();
    assert_eq!(engine_get(&e, "k"), Some(b"new".to_vec()));
    let got = scan_all(&e, Bound::Unbounded, Bound::Unbounded);
    assert_eq!(got, pairs(&[("k", "new")]));
}
