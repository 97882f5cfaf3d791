//! The storage engine: a memtable, frozen memtables and level-0 tables,
//! read newest first.
use vstd::prelude::*;
use std::sync::Arc;
use crate::error::LsmError;
use crate::block::entries_size;
use crate::flat::flat;
use crate::iterators::{StorageIterator, TwoMergeIterator, merge2};
use crate::keys::{Entry, sorted, key_lt, seek_from, keys_equal, count_below, lemma_count_below_props, lemma_lt_irreflexive};
use crate::lsm_iterator::{LsmIterator, FusedIterator, live};
use crate::mem_table::{Bound, MemTable, MemTableIterator, seek_bound};
use crate::merge_iterator::{MergeIterator, merge_all, runs_of, all_wf};
use crate::run::{run_map, run_index, lemma_run_map_index};
use crate::table::SsTable;
use crate::table_builder::SsTableBuilder;
use crate::table_iterator::SsTableIterator;
use crate::codec::bytes_of;

verus! {

/// What the newest layer holding `k` binds it to; `None` where that binding
/// is a deletion or no layer holds `k`.
pub open spec fn layer_get(ls: Seq<Seq<Entry>>, k: Seq<u8>) -> Option<Seq<u8>>
    decreases ls.len(),
{
    if ls.len() == 0 {
        None
    } else if run_map(ls[0]).contains_key(k) {
        if run_map(ls[0])[k].len() == 0 {
            None
        } else {
            Some(run_map(ls[0])[k])
        }
    } else {
        layer_get(ls.drop_first(), k)
    }
}

/// Each run of `rs` from the lower end `lower` on.
pub open spec fn bounded(rs: Seq<Seq<Entry>>, lower: Bound) -> Seq<Seq<Entry>> {
    Seq::new(rs.len(), |i: int| seek_bound(rs[i], lower))
}

/// What a scan of layers `ls`, newest first, yields: their merge from
/// `lower` on, the newest binding of each key winning, without deleted keys
/// and up to `upper`.
pub open spec fn scan_result(ls: Seq<Seq<Entry>>, lower: Bound, upper: Bound) -> Seq<Entry> {
    live(merge_all(bounded(ls, lower)), upper)
}

/// Seeking a sorted run finds `k` exactly when the run binds it.
pub proof fn lemma_seek_finds(s: Seq<Entry>, k: Seq<u8>)
    requires
        sorted(s),
    ensures
        (seek_from(s, k).len() > 0 && seek_from(s, k)[0].0 == k) <==> run_map(s).contains_key(k),
        run_map(s).contains_key(k) ==> seek_from(s, k)[0].1 == run_map(s)[k],
{
    lemma_count_below_props(s, k);
    let c = count_below(s, k) as int;
    if run_map(s).contains_key(k) {
        let j = run_index(s, k);
        lemma_run_map_index(s, j);
        lemma_lt_irreflexive(k);
        if j < c {
            assert(key_lt(s[j].0, k));
        } else if j > c {
            if key_lt(s[c].0, k) {
            } else {
                assert(key_lt(s[c].0, s[j].0));
                crate::keys::lemma_lt_total(s[c].0, k);
                if key_lt(k, s[c].0) {
                    crate::keys::lemma_lt_asymmetric(s[c].0, s[j].0);
                }
            }
        }
        assert(seek_from(s, k)[0] == s[c]);
    }
    if seek_from(s, k).len() > 0 && seek_from(s, k)[0].0 == k {
        assert(seek_from(s, k)[0] == s[c]);
        assert(run_map(s).contains_key(k));
    }
}

/// A sorted run stays sorted when cut at its lower end.
pub proof fn lemma_seek_bound_sorted(s: Seq<Entry>, lower: Bound)
    requires
        sorted(s),
    ensures
        sorted(seek_bound(s, lower)),
        seek_bound(s, lower).len() <= s.len(),
{
    lemma_skip_sorted(s, 0);
    match lower {
        Bound::Unbounded => {},
        Bound::Included(x) => {
            lemma_count_below_props(s, x@);
            lemma_skip_sorted(s, count_below(s, x@) as int);
        },
        Bound::Excluded(x) => {
            lemma_count_below_props(s, x@);
            let c = count_below(s, x@) as int;
            lemma_skip_sorted(s, c);
            if c < s.len() {
                lemma_skip_sorted(s, c + 1);
                assert(s.skip(c).drop_first() =~= s.skip(c + 1));
            }
        },
    }
}

proof fn lemma_skip_sorted(s: Seq<Entry>, n: int)
    requires
        sorted(s),
        0 <= n <= s.len(),
    ensures
        sorted(s.skip(n)),
{
    assert forall|i: int, j: int| 0 <= i < j < s.skip(n).len() implies key_lt(#[trigger] s.skip(n)[i].0, #[trigger] s.skip(n)[j].0) by {
        assert(s.skip(n)[i] == s[i + n] && s.skip(n)[j] == s[j + n]);
    }
}

/// The state of the engine: the current memtable, frozen memtables and
/// level-0 tables, each list from earliest to latest.
pub struct LsmStorageInner {
    memtable: MemTable,
    imm_memtables: Vec<Arc<MemTable>>,
    l0_sstables: Vec<Arc<SsTable>>,
    next_sst_id: usize,
}

impl LsmStorageInner {
    /// The memtables' entries, newest first: the current one, then the
    /// frozen ones from latest to earliest.
    pub closed spec fn mem_runs(&self) -> Seq<Seq<Entry>> {
        let n = self.imm_memtables@.len();
        Seq::new(n + 1, |i: int| if i == 0 { self.memtable.entries() } else { self.imm_memtables@[n - i].entries() })
    }

    /// The level-0 tables' entries, latest first.
    pub closed spec fn table_runs(&self) -> Seq<Seq<Entry>> {
        let n = self.l0_sstables@.len();
        Seq::new(n, |i: int| flat(self.l0_sstables@[n - 1 - i]@))
    }

    /// All layers, newest first.
    pub open spec fn layers(&self) -> Seq<Seq<Entry>> {
        self.mem_runs() + self.table_runs()
    }

    /// Number of frozen memtables.
    pub closed spec fn frozen_count(&self) -> nat {
        self.imm_memtables@.len()
    }

    /// The id the next table will get.
    pub closed spec fn next_id(&self) -> nat {
        self.next_sst_id as nat
    }

    /// The ids of the level-0 tables, earliest first.
    pub closed spec fn l0_ids(&self) -> Seq<nat> {
        Seq::new(self.l0_sstables@.len(), |i: int| self.l0_sstables@[i].id_view())
    }

    pub closed spec fn wf(&self) -> bool {
        &&& forall|i: int, j: int|
            0 <= i < j < self.l0_sstables@.len() ==> (#[trigger] self.l0_sstables@[i]).id_view()
                < (#[trigger] self.l0_sstables@[j]).id_view()
        &&& self.memtable.wf()
        &&& forall|i: int| 0 <= i < self.imm_memtables@.len() ==> (#[trigger] self.imm_memtables@[i]).wf()
        &&& forall|i: int| 0 <= i < self.l0_sstables@.len() ==> (#[trigger] self.l0_sstables@[i]).wf()
            && self.l0_sstables@[i].id_view() < self.next_sst_id
        &&& self.next_sst_id < usize::MAX
    }

    /// Level-0 table ids are ascending, hence distinct, and below the next id.
    pub proof fn lemma_l0_ids(&self)
        requires
            self.wf(),
        ensures
            forall|i: int, j: int| 0 <= i < j < self.l0_ids().len() ==> #[trigger] self.l0_ids()[i] < #[trigger] self.l0_ids()[j],
            forall|i: int| 0 <= i < self.l0_ids().len() ==> #[trigger] self.l0_ids()[i] < self.next_id(),
            self.layers().len() > 0,
    {
        assert forall|i: int, j: int| 0 <= i < j < self.l0_ids().len() implies #[trigger] self.l0_ids()[i] < #[trigger] self.l0_ids()[j] by {
            assert(self.l0_sstables@[i].id_view() < self.l0_sstables@[j].id_view());
        }
        assert forall|i: int| 0 <= i < self.l0_ids().len() implies #[trigger] self.l0_ids()[i] < self.next_id() by {
            assert(self.l0_sstables@[i].wf());
        }
    }

    /// Every layer of a well-formed state is sorted.
    pub proof fn lemma_layers_sorted(&self)
        requires
            self.wf(),
        ensures
            forall|i: int| 0 <= i < self.mem_runs().len() ==> sorted(#[trigger] self.mem_runs()[i]),
            forall|i: int| 0 <= i < self.table_runs().len() ==> sorted(#[trigger] self.table_runs()[i]),
    {
        let n = self.l0_sstables@.len();
        assert forall|i: int| 0 <= i < self.table_runs().len() implies sorted(#[trigger] self.table_runs()[i]) by {
            self.l0_sstables@[n - 1 - i].lemma_wf();
        }
        assert forall|i: int| 0 <= i < self.mem_runs().len() implies sorted(#[trigger] self.mem_runs()[i]) by {
            if i > 0 {
                self.imm_memtables@[self.imm_memtables@.len() - i].lemma_wf();
            } else {
                self.memtable.lemma_wf();
            }
        }
    }

    proof fn lemma_layer_get_step(ls: Seq<Seq<Entry>>, p: int, k: Seq<u8>)
        requires
            0 <= p < ls.len(),
        ensures
            layer_get(ls.skip(p), k) == (if run_map(ls[p]).contains_key(k) {
                if run_map(ls[p])[k].len() == 0 {
                    None
                } else {
                    Some(run_map(ls[p])[k])
                }
            } else {
                layer_get(ls.skip(p + 1), k)
            }),
    {
        assert(ls.skip(p)[0] == ls[p]);
        assert(ls.skip(p).drop_first() =~= ls.skip(p + 1));
    }

    /// An empty engine state.
    pub fn create() -> (r: LsmStorageInner)
        ensures
            r.wf(),
            r.frozen_count() == 0,
            r.layers() == seq![Seq::<Entry>::empty()],
            r.next_id() == 1,
            r.l0_ids() == Seq::<nat>::empty(),
    {
        let r = LsmStorageInner {
            memtable: MemTable::create(),
            imm_memtables: Vec::new(),
            l0_sstables: Vec::new(),
            next_sst_id: 1,
        };
        proof {
            assert(r.layers() =~= seq![Seq::<Entry>::empty()]);
            assert(r.l0_ids() =~= Seq::<nat>::empty());
        }
        r
    }

    /// Looks `key` up in the memtable, then the frozen memtables from latest
    /// to earliest, then the tables from latest to earliest. A deletion found
    /// first gives `None`.
    pub fn get(&self, key: &[u8]) -> (r: Option<Vec<u8>>)
        requires
            self.wf(),
            key@.len() > 0,
        ensures
            r matches Some(v) ==> layer_get(self.layers(), key@) == Some(v@),
            r is None ==> layer_get(self.layers(), key@) is None,
    {
        let ghost ls = self.layers();
        let n = self.imm_memtables.len();
        let m = self.l0_sstables.len();
        proof {
            self.lemma_layers_sorted();
            self.memtable.lemma_view();
            assert(ls.skip(0) =~= ls);
            LsmStorageInner::lemma_layer_get_step(ls, 0, key@);
            assert(ls[0] == self.memtable.entries());
        }
        match self.memtable.get(key) {
            Some(v) => {
                if v.len() == 0 {
                    return None;
                }
                return Some(v);
            },
            None => {},
        }
        let mut i: usize = n;
        while i > 0
            invariant
                self.wf(),
                ls == self.layers(),
                n == self.imm_memtables@.len(),
                m == self.l0_sstables@.len(),
                ls.len() == n + 1 + m,
                i <= n,
                layer_get(ls, key@) == layer_get(ls.skip(n - i + 1), key@),
            decreases i,
        {
            let t = &self.imm_memtables[i - 1];
            proof {
                let p = n - i + 1;
                assert(ls[p] == self.imm_memtables@[i - 1].entries());
                t.lemma_view();
                LsmStorageInner::lemma_layer_get_step(ls, p, key@);
            }
            match t.get(key) {
                Some(v) => {
                    if v.len() == 0 {
                        return None;
                    }
                    return Some(v);
                },
                None => {},
            }
            i = i - 1;
        }
        let mut j: usize = m;
        while j > 0
            invariant
                self.wf(),
                ls == self.layers(),
                n == self.imm_memtables@.len(),
                m == self.l0_sstables@.len(),
                ls.len() == n + 1 + m,
                j <= m,
                layer_get(ls, key@) == layer_get(ls.skip(n + 1 + m - j), key@),
            decreases j,
        {
            let table = self.l0_sstables[j - 1].clone();
            let ghost p = n + 1 + m - j;
            proof {
                self.lemma_layers_sorted();
                assert(ls[p] == self.table_runs()[m - j]);
                assert(ls[p] == flat(table@));
                assert(sorted(self.table_runs()[m - j]));
                lemma_seek_finds(ls[p], key@);
                LsmStorageInner::lemma_layer_get_step(ls, p, key@);
            }
            let iter = SsTableIterator::create_and_seek_to_key(table, key);
            if iter.is_valid() && keys_equal(iter.key(), key) {
                let v = iter.value();
                if v.len() == 0 {
                    return None;
                }
                return Some(bytes_of(v));
            }
            j = j - 1;
        }
        proof {
            assert(ls.skip(n + 1 + m) =~= Seq::<Seq<Entry>>::empty());
        }
        None
    }

    /// Binds `key` to `value` in the current memtable.
    pub fn put(&mut self, key: &[u8], value: &[u8])
        requires
            old(self).wf(),
            key@.len() > 0,
            value@.len() > 0,
            key@.len() <= 65535,
            value@.len() <= 65535,
        ensures
            final(self).wf(),
            final(self).frozen_count() == old(self).frozen_count(),
            final(self).layers().len() == old(self).layers().len(),
            final(self).layers().len() > 0,
            final(self).next_id() == old(self).next_id(),
            final(self).l0_ids() == old(self).l0_ids(),
            run_map(final(self).layers()[0]) == run_map(old(self).layers()[0]).insert(key@, value@),
            final(self).layers().drop_first() == old(self).layers().drop_first(),
    {
        self.write(key, value);
    }

    /// Deletes `key` by binding it to the empty value.
    pub fn delete(&mut self, key: &[u8])
        requires
            old(self).wf(),
            key@.len() > 0,
            key@.len() <= 65535,
        ensures
            final(self).wf(),
            final(self).frozen_count() == old(self).frozen_count(),
            final(self).layers().len() == old(self).layers().len(),
            final(self).layers().len() > 0,
            final(self).next_id() == old(self).next_id(),
            final(self).l0_ids() == old(self).l0_ids(),
            run_map(final(self).layers()[0]) == run_map(old(self).layers()[0]).insert(key@, Seq::empty()),
            final(self).layers().drop_first() == old(self).layers().drop_first(),
    {
        let empty: Vec<u8> = Vec::new();
        self.write(key, empty.as_slice());
        assert(empty@ =~= Seq::<u8>::empty());
    }

    fn write(&mut self, key: &[u8], value: &[u8])
        requires
            old(self).wf(),
            key@.len() <= 65535,
            value@.len() <= 65535,
        ensures
            final(self).wf(),
            final(self).frozen_count() == old(self).frozen_count(),
            final(self).layers().len() == old(self).layers().len(),
            final(self).layers().len() > 0,
            final(self).next_id() == old(self).next_id(),
            final(self).l0_ids() == old(self).l0_ids(),
            run_map(final(self).layers()[0]) == run_map(old(self).layers()[0]).insert(key@, value@),
            final(self).layers().drop_first() == old(self).layers().drop_first(),
    {
        let ghost before = self.layers();
        proof {
            self.memtable.lemma_view();
        }
        self.memtable.put(key, value);
        proof {
            assert(self.l0_ids() =~= old(self).l0_ids());
            assert(self.mem_runs().len() > 0);
            self.memtable.lemma_view();
            assert(self.layers()[0] == self.memtable.entries());
            assert(before[0] == old(self).memtable.entries());
            assert(self.layers().drop_first() =~= before.drop_first());
        }
    }

    /// Freezes the current memtable and starts an empty one. Returns the
    /// frozen memtable and the id its table will take.
    pub fn freeze(&mut self) -> (r: (Arc<MemTable>, usize))
        requires
            old(self).wf(),
        ensures
            final(self).wf(),
            final(self).frozen_count() == old(self).frozen_count() + 1,
            final(self).next_id() == old(self).next_id(),
            final(self).layers() == seq![Seq::<Entry>::empty()] + old(self).layers(),
            final(self).mem_runs() == seq![Seq::<Entry>::empty()] + old(self).mem_runs(),
            final(self).table_runs() == old(self).table_runs(),
            final(self).l0_ids() == old(self).l0_ids(),
            r.0.wf(),
            r.0.entries() == old(self).layers()[0],
            r.1 == old(self).next_id(),
    {
        let ghost before = self.layers();
        let mut frozen = MemTable::create();
        core::mem::swap(&mut self.memtable, &mut frozen);
        let frozen = Arc::new(frozen);
        self.imm_memtables.push(frozen.clone());
        proof {
            assert(self.mem_runs() =~= seq![Seq::<Entry>::empty()] + old(self).mem_runs());
            assert(self.table_runs() =~= old(self).table_runs());
            assert(self.layers() =~= seq![Seq::<Entry>::empty()] + before);
            assert(self.l0_ids() =~= old(self).l0_ids());
        }
        (frozen, self.next_sst_id)
    }

    /// The earliest frozen memtable, the next one to flush.
    pub fn oldest_frozen(&self) -> (r: Option<Arc<MemTable>>)
        requires
            self.wf(),
        ensures
            r is Some <==> self.frozen_count() > 0,
            r matches Some(m) ==> m.wf() && m.entries() == self.mem_runs().last(),
    {
        if self.imm_memtables.len() == 0 {
            None
        } else {
            Some(self.imm_memtables[0].clone())
        }
    }

    /// Builds the table of a frozen memtable.
    pub fn build_table(memtable: &MemTable, id: usize, block_size: usize) -> (r: Result<SsTable, LsmError>)
        requires
            memtable.wf(),
            block_size <= 65535,
        ensures
            2 * memtable.entries().len() + entries_size(memtable.entries()) <= 0xffff_ffff ==> r is Ok,
            r matches Ok(t) ==> t.wf() && flat(t@) == memtable.entries() && t.id_view() == id,
            r matches Err(e) ==> e == LsmError::TooLarge,
    {
        let mut builder = SsTableBuilder::new(block_size);
        memtable.flush(&mut builder);
        builder.build(id)
    }

    /// Replaces the earliest frozen memtable by its table, which becomes the
    /// latest level-0 table.
    pub fn install(&mut self, table: Arc<SsTable>)
        requires
            old(self).wf(),
            old(self).frozen_count() > 0,
            table.wf(),
            table.id_view() == old(self).next_id(),
            flat(table@) == old(self).mem_runs().last(),
            old(self).next_id() + 1 < usize::MAX,
        ensures
            final(self).wf(),
            final(self).frozen_count() + 1 == old(self).frozen_count(),
            final(self).next_id() == old(self).next_id() + 1,
            final(self).layers() == old(self).layers(),
            final(self).mem_runs() == old(self).mem_runs().drop_last(),
            final(self).table_runs() == seq![flat(table@)] + old(self).table_runs(),
            final(self).l0_ids() == old(self).l0_ids().push(old(self).next_id()),
    {
        let ghost before = self.layers();
        let ghost om = self.mem_runs();
        let ghost ot = self.table_runs();
        let ghost oimm = self.imm_memtables@;
        let _ = self.imm_memtables.remove(0);
        self.l0_sstables.push(table);
        self.next_sst_id = self.next_sst_id + 1;
        proof {
            let n = oimm.len();
            assert(self.imm_memtables@ =~= oimm.skip(1));
            assert(self.mem_runs() =~= om.drop_last());
            assert(self.table_runs() =~= seq![om.last()] + ot);
            assert(om =~= om.drop_last() + seq![om.last()]);
            assert(self.layers() =~= before);
            assert forall|i: int| 0 <= i < self.imm_memtables@.len() implies (#[trigger] self.imm_memtables@[i]).wf() by {
                assert(self.imm_memtables@[i] == oimm[i + 1]);
            }
            assert forall|i: int| 0 <= i < self.l0_sstables@.len() implies (#[trigger] self.l0_sstables@[i]).wf()
                && self.l0_sstables@[i].id_view() < self.next_sst_id by {
                if i < self.l0_sstables@.len() - 1 {
                    assert(self.l0_sstables@[i] == old(self).l0_sstables@[i]);
                }
            }
            let ol = old(self).l0_sstables@;
            assert(self.l0_sstables@ == ol.push(table));
            assert forall|i: int, j: int| 0 <= i < j < self.l0_sstables@.len() implies (#[trigger] self.l0_sstables@[i]).id_view()
                < (#[trigger] self.l0_sstables@[j]).id_view() by {
                assert(self.l0_sstables@[i] == ol[i]);
                if j < ol.len() {
                    assert(self.l0_sstables@[j] == ol[j]);
                } else {
                    assert(ol[i].wf());
                }
            }
            assert(self.l0_ids() =~= old(self).l0_ids().push(old(self).next_id()));
        }
    }

    /// Freezes the current memtable and turns the earliest frozen memtable
    /// into the latest level-0 table, which is returned. The layers gain an
    /// empty memtable in front and are otherwise unchanged. Fails with
    /// `TooLarge`, the state unchanged, once table ids run out, and with
    /// `TooLarge`, the frozen memtable kept, when its table would be too large.
    pub fn sync(&mut self, block_size: usize) -> (r: Result<Arc<SsTable>, LsmError>)
        requires
            old(self).wf(),
            block_size <= 65535,
        ensures
            final(self).wf(),
            old(self).next_id() + 1 < usize::MAX ==> final(self).layers() == seq![Seq::<Entry>::empty()]
                + old(self).layers(),
            old(self).next_id() + 1 >= usize::MAX ==> r is Err && final(self).layers() == old(self).layers(),
            old(self).next_id() + 1 < usize::MAX && 2 * old(self).mem_runs().last().len() + entries_size(
                old(self).mem_runs().last(),
            ) <= 0xffff_ffff ==> r is Ok,
            r matches Ok(t) ==> t.wf() && t.id_view() == old(self).next_id()
                && flat(t@) == old(self).mem_runs().last()
                && final(self).frozen_count() == old(self).frozen_count()
                && final(self).next_id() == old(self).next_id() + 1
                && final(self).mem_runs() == seq![Seq::<Entry>::empty()] + old(self).mem_runs().drop_last()
                && final(self).table_runs() == seq![flat(t@)] + old(self).table_runs()
                && final(self).l0_ids() == old(self).l0_ids().push(old(self).next_id()),
            r is Err ==> final(self).next_id() == old(self).next_id() && final(self).l0_ids() == old(self).l0_ids()
                && final(self).table_runs() == old(self).table_runs(),
            r is Err && old(self).next_id() + 1 < usize::MAX ==> final(self).frozen_count() == old(self).frozen_count() + 1,
            r matches Err(e) ==> e == LsmError::TooLarge,
    {
        if self.next_sst_id + 1 == usize::MAX {
            return Err(LsmError::TooLarge);
        }
        let ghost om = self.mem_runs();
        let (_, id) = self.freeze();
        let oldest = self.imm_memtables[0].clone();
        proof {
            assert(self.mem_runs().last() == self.imm_memtables@[0].entries());
            assert(self.mem_runs().last() == om.last());
            assert((seq![Seq::<Entry>::empty()] + om).drop_last() =~= seq![Seq::<Entry>::empty()] + om.drop_last());
        }
        match LsmStorageInner::build_table(&oldest, id, block_size) {
            Ok(t) => {
                let table = Arc::new(t);
                self.install(table.clone());
                Ok(table)
            },
            Err(e) => Err(e),
        }
    }

    /// Iterates, in key order, over the live entries from `lower` to `upper`.
    pub fn scan(&self, lower: Bound, upper: Bound) -> (r: FusedIterator<
        LsmIterator<TwoMergeIterator<MergeIterator<MemTableIterator>, MergeIterator<SsTableIterator>>>,
    >)
        requires
            self.wf(),
        ensures
            r.wf(),
            r.remaining() == scan_result(self.layers(), lower, upper),
    {
        let ghost mr = bounded(self.mem_runs(), lower);
        let ghost tr = bounded(self.table_runs(), lower);
        let n = self.imm_memtables.len();
        let m = self.l0_sstables.len();
        proof {
            self.lemma_layers_sorted();
            assert forall|t: int| 0 <= t < mr.len() implies sorted(#[trigger] mr[t]) by {
                assert(sorted(self.mem_runs()[t]));
                lemma_seek_bound_sorted(self.mem_runs()[t], lower);
            }
            assert forall|t: int| 0 <= t < tr.len() implies sorted(#[trigger] tr[t]) by {
                assert(sorted(self.table_runs()[t]));
                lemma_seek_bound_sorted(self.table_runs()[t], lower);
            }
        }
        let mut memtable_iters: Vec<MemTableIterator> = Vec::new();
        memtable_iters.push(self.memtable.scan(&lower));
        proof {
            assert(self.mem_runs()[0] == self.memtable.entries());
            assert(mr[0] == seek_bound(self.memtable.entries(), lower));
            assert(memtable_iters@[0].remaining() == mr[0]);
            assert(runs_of(memtable_iters@) =~= mr.take(1));
        }
        let mut i: usize = n;
        while i > 0
            invariant
                self.wf(),
                n == self.imm_memtables@.len(),
                i <= n,
                mr == bounded(self.mem_runs(), lower),
                forall|t: int| 0 <= t < mr.len() ==> sorted(#[trigger] mr[t]),
                runs_of(memtable_iters@) == mr.take(n - i + 1),
                all_wf(memtable_iters@),
            decreases i,
        {
            let it = self.imm_memtables[i - 1].scan(&lower);
            let ghost before = memtable_iters@;
            memtable_iters.push(it);
            proof {
                let p = n - i + 1;
                assert(self.mem_runs()[p] == self.imm_memtables@[i - 1].entries());
                assert(it.remaining() == mr[p]);
                assert(mr.len() == n + 1);
                assert(runs_of(before).len() == before.len());
                assert(before.len() == p);
                assert(memtable_iters@ == before.push(it));
                assert forall|t: int| 0 <= t < p + 1 implies #[trigger] runs_of(memtable_iters@)[t] == mr.take(p + 1)[t] by {
                    if t < p {
                        assert(memtable_iters@[t] == before[t]);
                        assert(runs_of(before)[t] == mr.take(p)[t]);
                    }
                }
                assert(runs_of(memtable_iters@) =~= mr.take(p + 1));
                assert forall|t: int| 0 <= t < memtable_iters@.len() implies (#[trigger] memtable_iters@[t]).wf()
                    && sorted(memtable_iters@[t].remaining()) by {
                    if t < before.len() {
                        assert(memtable_iters@[t] == before[t]);
                    } else {
                        assert(memtable_iters@[t].remaining() == mr[p]);
                    }
                }
            }
            i = i - 1;
        }
        proof {
            assert(mr.take(n + 1) =~= mr);
        }
        let memtable_iter = MergeIterator::create(memtable_iters);
        let mut table_iters: Vec<SsTableIterator> = Vec::new();
        let mut j: usize = m;
        proof {
            assert(runs_of(table_iters@) =~= tr.take(0));
        }
        while j > 0
            invariant
                self.wf(),
                m == self.l0_sstables@.len(),
                j <= m,
                tr == bounded(self.table_runs(), lower),
                forall|t: int| 0 <= t < tr.len() ==> sorted(#[trigger] tr[t]),
                runs_of(table_iters@) == tr.take(m - j),
                all_wf(table_iters@),
            decreases j,
        {
            let table = self.l0_sstables[j - 1].clone();
            let ghost q = m - j;
            proof {
                assert(self.table_runs()[q] == flat(table@));
            }
            let it = match &lower {
                Bound::Included(k) => SsTableIterator::create_and_seek_to_key(table, k.as_slice()),
                Bound::Excluded(k) => {
                    let mut it = SsTableIterator::create_and_seek_to_key(table, k.as_slice());
                    if it.is_valid() && keys_equal(it.key(), k.as_slice()) {
                        it.next();
                    }
                    it
                },
                Bound::Unbounded => SsTableIterator::create_and_seek_to_first(table),
            };
            let ghost before = table_iters@;
            table_iters.push(it);
            proof {
                assert(it.remaining() == tr[q]);
                assert(tr.len() == m);
                assert(runs_of(before).len() == before.len());
                assert(before.len() == q);
                assert(table_iters@ == before.push(it));
                assert forall|t: int| 0 <= t < q + 1 implies #[trigger] runs_of(table_iters@)[t] == tr.take(q + 1)[t] by {
                    if t < q {
                        assert(table_iters@[t] == before[t]);
                        assert(runs_of(before)[t] == tr.take(q)[t]);
                    }
                }
                assert(runs_of(table_iters@) =~= tr.take(q + 1));
                assert forall|t: int| 0 <= t < table_iters@.len() implies (#[trigger] table_iters@[t]).wf()
                    && sorted(table_iters@[t].remaining()) by {
                    if t < before.len() {
                        assert(table_iters@[t] == before[t]);
                    }
                }
            }
            j = j - 1;
        }
        proof {
            assert(tr.take(m as int) =~= tr);
            crate::merge_iterator::lemma_merge_all_sorted(mr);
            crate::merge_iterator::lemma_merge_all_sorted(tr);
            crate::laws::lemma_merge_all_concat(mr, tr);
            assert(bounded(self.layers(), lower) =~= mr + tr);
        }
        let table_iter = MergeIterator::create(table_iters);
        let iter = TwoMergeIterator::create(memtable_iter, table_iter);
        FusedIterator::new(LsmIterator::new(iter, upper))
    }
}

} // verus!
