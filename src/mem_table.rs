//! The memtable: an ordered map of recent writes, and range bounds.
use vstd::prelude::*;
use core::cmp::Ordering;
use crate::codec::bytes_of;
use crate::iterators::{StorageIterator, advance};
use crate::keys::{Entry, sorted, key_lt, pairs_view, seek_from, compare_keys, lemma_count_below};
use crate::run::{run_map, run_get, run_upsert, lower_bound};
use crate::table_builder::SsTableBuilder;

verus! {

/// One end of a key range.
pub enum Bound {
    Included(Vec<u8>),
    Excluded(Vec<u8>),
    Unbounded,
}

/// `k` is not below the lower end `b`.
pub open spec fn admits_lower(b: Bound, k: Seq<u8>) -> bool {
    match b {
        Bound::Included(x) => !key_lt(k, x@),
        Bound::Excluded(x) => key_lt(x@, k),
        Bound::Unbounded => true,
    }
}

/// `k` is not above the upper end `b`.
pub open spec fn admits_upper(b: Bound, k: Seq<u8>) -> bool {
    match b {
        Bound::Included(x) => !key_lt(x@, k),
        Bound::Excluded(x) => key_lt(k, x@),
        Bound::Unbounded => true,
    }
}

/// The entries of a sorted run from the lower end `b` on.
pub open spec fn seek_bound(s: Seq<Entry>, b: Bound) -> Seq<Entry> {
    match b {
        Bound::Included(x) => seek_from(s, x@),
        Bound::Excluded(x) => {
            let t = seek_from(s, x@);
            if t.len() > 0 && t[0].0 == x@ {
                t.drop_first()
            } else {
                t
            }
        },
        Bound::Unbounded => s,
    }
}

/// Whether `key` is not above the upper end `b`.
pub fn within_upper(b: &Bound, key: &[u8]) -> (r: bool)
    ensures
        r == admits_upper(*b, key@),
{
    match b {
        Bound::Included(x) => {
            match compare_keys(x.as_slice(), key) {
                Ordering::Less => false,
                _ => true,
            }
        },
        Bound::Excluded(x) => {
            match compare_keys(key, x.as_slice()) {
                Ordering::Less => true,
                _ => false,
            }
        },
        Bound::Unbounded => true,
    }
}

/// Key and value lengths fit the block format.
pub open spec fn small_entries(s: Seq<Entry>) -> bool {
    forall|i: int| 0 <= i < s.len() ==> (#[trigger] s[i]).0.len() <= 65535 && s[i].1.len() <= 65535
}

/// A mutable ordered map from key to value; an empty value marks a deleted key.
pub struct MemTable {
    map: Vec<(Vec<u8>, Vec<u8>)>,
}

impl View for MemTable {
    type V = Map<Seq<u8>, Seq<u8>>;

    closed spec fn view(&self) -> Map<Seq<u8>, Seq<u8>> {
        run_map(pairs_view(self.map@))
    }
}

impl MemTable {
    /// The bindings in ascending key order.
    pub closed spec fn entries(&self) -> Seq<Entry> {
        pairs_view(self.map@)
    }

    pub closed spec fn wf(&self) -> bool {
        sorted(self.entries()) && small_entries(self.entries())
    }

    /// A well-formed memtable's entries are sorted and small.
    pub proof fn lemma_wf(&self)
        requires
            self.wf(),
        ensures
            sorted(self.entries()),
            small_entries(self.entries()),
    {
    }

    /// A memtable's map is the map of its ordered entries.
    pub proof fn lemma_view(&self)
        ensures
            self@ == run_map(self.entries()),
    {
    }

    /// Creates an empty memtable.
    pub fn create() -> (r: MemTable)
        ensures
            r.wf(),
            r.entries() == Seq::<Entry>::empty(),
    {
        let r = MemTable { map: Vec::new() };
        assert(r.entries() =~= Seq::<Entry>::empty());
        r
    }

    /// The value bound to `key`, if any.
    pub fn get(&self, key: &[u8]) -> (r: Option<Vec<u8>>)
        requires
            self.wf(),
        ensures
            r is Some <==> self@.contains_key(key@),
            r matches Some(v) ==> v@ == self@[key@],
    {
        match run_get(&self.map, key) {
            Some(v) => Some(bytes_of(v.as_slice())),
            None => None,
        }
    }

    /// Binds `key` to `value`, replacing any earlier binding.
    pub fn put(&mut self, key: &[u8], value: &[u8])
        requires
            old(self).wf(),
            key@.len() <= 65535,
            value@.len() <= 65535,
        ensures
            final(self).wf(),
            final(self)@ == old(self)@.insert(key@, value@),
    {
        let ghost s = self.entries();
        let (i, found) = run_upsert(&mut self.map, bytes_of(key), bytes_of(value));
        proof {
            let t = self.entries();
            assert forall|j: int| 0 <= j < t.len() implies (#[trigger] t[j]).0.len() <= 65535 && t[j].1.len() <= 65535 by {
                if found {
                    if j != i {
                        assert(t[j] == s[j]);
                    }
                } else if j < i {
                    assert(t[j] == s[j]);
                } else if j > i {
                    assert(t[j] == s[j - 1]);
                }
            }
        }
    }

    /// An iterator over the entries from the lower end `lower` on.
    pub fn scan(&self, lower: &Bound) -> (r: MemTableIterator)
        requires
            self.wf(),
        ensures
            r.wf(),
            r.remaining() == seek_bound(self.entries(), *lower),
    {
        let ghost s = self.entries();
        let start = match lower {
            Bound::Unbounded => 0,
            Bound::Included(x) => {
                let lo = lower_bound(&self.map, x.as_slice());
                proof {
                    lemma_count_below(s, x@, lo as int);
                }
                lo
            },
            Bound::Excluded(x) => {
                let lo = lower_bound(&self.map, x.as_slice());
                proof {
                    lemma_count_below(s, x@, lo as int);
                }
                if lo < self.map.len() {
                    match compare_keys(self.map[lo].0.as_slice(), x.as_slice()) {
                        Ordering::Equal => {
                            proof {
                                assert(s.skip(lo as int)[0] == s[lo as int]);
                                assert(s.skip(lo as int).drop_first() =~= s.skip(lo + 1));
                            }
                            lo + 1
                        },
                        _ => {
                            proof {
                                assert(s.skip(lo as int)[0] == s[lo as int]);
                            }
                            lo
                        },
                    }
                } else {
                    lo
                }
            },
        };
        let mut entries: Vec<(Vec<u8>, Vec<u8>)> = Vec::new();
        let mut i: usize = start;
        while i < self.map.len()
            invariant
                s == self.entries(),
                start <= i <= s.len(),
                pairs_view(entries@) == s.subrange(start as int, i as int),
            decreases s.len() - i,
        {
            let k = bytes_of(self.map[i].0.as_slice());
            let v = bytes_of(self.map[i].1.as_slice());
            let ghost before = pairs_view(entries@);
            entries.push((k, v));
            proof {
                assert(s[i as int] == (self.map@[i as int].0@, self.map@[i as int].1@));
                assert(pairs_view(entries@) =~= before.push(s[i as int]));
                assert(pairs_view(entries@) =~= s.subrange(start as int, i + 1));
            }
            i = i + 1;
        }
        let r = MemTableIterator { entries, idx: 0 };
        proof {
            assert(r.remaining() =~= s.skip(start as int));
            assert(s.skip(start as int) =~= seek_bound(s, *lower));
            assert forall|a: int, b: int| 0 <= a < b < r.remaining().len() implies key_lt(
                #[trigger] r.remaining()[a].0,
                #[trigger] r.remaining()[b].0,
            ) by {
                assert(r.remaining()[a] == s[a + start] && r.remaining()[b] == s[b + start]);
            }
        }
        r
    }

    /// Feeds every entry, in key order, into an empty table builder.
    pub fn flush(&self, builder: &mut SsTableBuilder)
        requires
            self.wf(),
            old(builder).wf(),
            old(builder).entries() == Seq::<Entry>::empty(),
        ensures
            final(builder).wf(),
            final(builder).entries() == self.entries(),
    {
        let ghost s = self.entries();
        let mut i: usize = 0;
        while i < self.map.len()
            invariant
                s == self.entries(),
                sorted(s),
                small_entries(s),
                i <= s.len(),
                builder.wf(),
                builder.entries() == s.take(i as int),
            decreases s.len() - i,
        {
            proof {
                if i > 0 {
                    assert(s.take(i as int).last() == s[i - 1]);
                }
                assert(s[i as int] == (self.map@[i as int].0@, self.map@[i as int].1@));
            }
            builder.add(self.map[i].0.as_slice(), self.map[i].1.as_slice());
            proof {
                assert(s.take(i + 1) =~= s.take(i as int).push(s[i as int]));
            }
            i = i + 1;
        }
        proof {
            assert(s.take(i as int) =~= s);
        }
    }
}

/// A cursor over entries copied out of a memtable.
pub struct MemTableIterator {
    entries: Vec<(Vec<u8>, Vec<u8>)>,
    idx: usize,
}

impl StorageIterator for MemTableIterator {
    closed spec fn remaining(&self) -> Seq<Entry> {
        pairs_view(self.entries@).skip(self.idx as int)
    }

    closed spec fn wf(&self) -> bool {
        self.idx <= self.entries@.len()
    }

    fn key(&self) -> (r: &[u8]) {
        self.entries[self.idx].0.as_slice()
    }

    fn value(&self) -> (r: &[u8]) {
        self.entries[self.idx].1.as_slice()
    }

    fn is_valid(&self) -> (r: bool) {
        self.idx < self.entries.len()
    }

    fn next(&mut self) {
        if self.idx < self.entries.len() {
            self.idx = self.idx + 1;
            assert(self.remaining() =~= advance(old(self).remaining()));
        }
    }
}

} // verus!
