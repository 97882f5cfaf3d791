//! Sorted runs: vectors of key-value pairs with strictly increasing keys,
//! read as maps from key to value.
use vstd::prelude::*;
use core::cmp::Ordering;
use crate::keys::{
    Entry, sorted, key_lt, pairs_view, compare_keys, lemma_lt_transitive, lemma_lt_irreflexive,
    lemma_lt_total, lemma_lt_asymmetric,
};

verus! {

/// A position of `k` in `s`, where there is one.
pub open spec fn run_index(s: Seq<Entry>, k: Seq<u8>) -> int {
    choose|i: int| 0 <= i < s.len() && (#[trigger] s[i]).0 == k
}

/// The map that a run of entries stands for.
pub open spec fn run_map(s: Seq<Entry>) -> Map<Seq<u8>, Seq<u8>> {
    Map::new(
        |k: Seq<u8>| exists|i: int| 0 <= i < s.len() && (#[trigger] s[i]).0 == k,
        |k: Seq<u8>| s[run_index(s, k)].1,
    )
}

/// Keys of a sorted run are unique.
pub proof fn lemma_sorted_unique(s: Seq<Entry>, i: int, j: int)
    requires
        sorted(s),
        0 <= i < s.len(),
        0 <= j < s.len(),
        s[i].0 == s[j].0,
    ensures
        i == j,
{
    if i < j {
        lemma_lt_irreflexive(s[i].0);
    } else if j < i {
        lemma_lt_irreflexive(s[i].0);
    }
}

/// Each entry of a sorted run is what the map holds for its key.
pub proof fn lemma_run_map_index(s: Seq<Entry>, i: int)
    requires
        sorted(s),
        0 <= i < s.len(),
    ensures
        run_map(s).contains_key(s[i].0),
        run_map(s)[s[i].0] == s[i].1,
{
    let k = s[i].0;
    assert(exists|j: int| 0 <= j < s.len() && (#[trigger] s[j]).0 == k);
    let j = run_index(s, k);
    lemma_sorted_unique(s, i, j);
}

/// Index of the first entry whose key is not below `key`.
pub fn lower_bound(v: &Vec<(Vec<u8>, Vec<u8>)>, key: &[u8]) -> (r: usize)
    requires
        sorted(pairs_view(v@)),
    ensures
        r <= v@.len(),
        forall|j: int| 0 <= j < r ==> key_lt((#[trigger] pairs_view(v@)[j]).0, key@),
        forall|j: int| r <= j < v@.len() ==> !key_lt((#[trigger] pairs_view(v@)[j]).0, key@),
{
    let ghost s = pairs_view(v@);
    let mut lo: usize = 0;
    let mut hi: usize = v.len();
    while lo < hi
        invariant
            s == pairs_view(v@),
            sorted(s),
            lo <= hi <= v@.len(),
            forall|j: int| 0 <= j < lo ==> key_lt((#[trigger] s[j]).0, key@),
            forall|j: int| hi <= j < v@.len() ==> !key_lt((#[trigger] s[j]).0, key@),
        decreases hi - lo,
    {
        let mid = lo + (hi - lo) / 2;
        let c = compare_keys(v[mid].0.as_slice(), key);
        proof {
            assert(s[mid as int].0 == v@[mid as int].0@);
        }
        match c {
            Ordering::Less => {
                proof {
                    assert forall|j: int| 0 <= j < mid + 1 implies key_lt((#[trigger] s[j]).0, key@) by {
                        if j < mid {
                            lemma_lt_transitive(s[j].0, s[mid as int].0, key@);
                        }
                    }
                }
                lo = mid + 1;
            },
            _ => {
                proof {
                    assert forall|j: int| mid <= j < v@.len() implies !key_lt((#[trigger] s[j]).0, key@) by {
                        if j > mid && key_lt(s[j].0, key@) {
                            lemma_lt_transitive(s[mid as int].0, s[j].0, key@);
                            lemma_lt_asymmetric(s[mid as int].0, key@);
                        }
                        if key_lt(s[mid as int].0, key@) {
                            lemma_lt_asymmetric(s[mid as int].0, key@);
                        }
                    }
                }
                hi = mid;
            },
        }
    }
    lo
}

/// Looks up `key` in a sorted run.
pub fn run_get<'a>(v: &'a Vec<(Vec<u8>, Vec<u8>)>, key: &[u8]) -> (r: Option<&'a Vec<u8>>)
    requires
        sorted(pairs_view(v@)),
    ensures
        r is Some <==> run_map(pairs_view(v@)).contains_key(key@),
        r matches Some(x) ==> x@ == run_map(pairs_view(v@))[key@],
{
    let ghost s = pairs_view(v@);
    let i = lower_bound(v, key);
    if i < v.len() {
        let c = compare_keys(v[i].0.as_slice(), key);
        proof {
            assert(s[i as int].0 == v@[i as int].0@);
        }
        match c {
            Ordering::Equal => {
                proof {
                    lemma_run_map_index(s, i as int);
                    assert(s[i as int].1 == v@[i as int].1@);
                }
                return Some(&v[i].1);
            },
            _ => {},
        }
    }
    proof {
        if run_map(s).contains_key(key@) {
            let j = choose|j: int| 0 <= j < s.len() && (#[trigger] s[j]).0 == key@;
            if j < i {
                lemma_lt_irreflexive(key@);
            } else if j > i {
                lemma_lt_total(s[i as int].0, key@);
                lemma_lt_transitive(key@, s[i as int].0, s[j].0);
                lemma_lt_irreflexive(key@);
            }
        }
    }
    None
}

/// Binds `key` to `value` in a sorted run, replacing any earlier binding.
pub fn run_upsert(v: &mut Vec<(Vec<u8>, Vec<u8>)>, key: Vec<u8>, value: Vec<u8>) -> (r: (
    usize,
    bool,
))
    requires
        sorted(pairs_view(old(v)@)),
    ensures
        r.1 == run_map(pairs_view(old(v)@)).contains_key(key@),
        r.1 ==> r.0 < pairs_view(old(v)@).len() && pairs_view(old(v)@)[r.0 as int].0 == key@
            && pairs_view(final(v)@) == pairs_view(old(v)@).update(r.0 as int, (key@, value@)),
        !r.1 ==> r.0 <= pairs_view(old(v)@).len() && pairs_view(final(v)@) == pairs_view(
            old(v)@,
        ).insert(r.0 as int, (key@, value@)),
        sorted(pairs_view(final(v)@)),
        run_map(pairs_view(final(v)@)) == run_map(pairs_view(old(v)@)).insert(key@, value@),
        pairs_view(old(v)@).len() == 0 || key_lt(pairs_view(old(v)@).last().0, key@) ==> pairs_view(
            final(v)@,
        ) == pairs_view(old(v)@).push((key@, value@)),
{
    let ghost s = pairs_view(v@);
    let ghost e: Entry = (key@, value@);
    let i = lower_bound(v, key.as_slice());
    let mut found = false;
    if i < v.len() {
        let c = compare_keys(v[i].0.as_slice(), key.as_slice());
        proof {
            assert(s[i as int].0 == v@[i as int].0@);
        }
        match c {
            Ordering::Equal => {
                found = true;
            },
            _ => {},
        }
    }
    proof {
        if !found && i < s.len() {
            lemma_lt_total(s[i as int].0, key@);
        }
        assert(!found && i < s.len() ==> key_lt(key@, s[i as int].0));
        assert(found ==> i < s.len() && s[i as int].0 == key@);
    }
    let ghost t: Seq<Entry>;
    if found {
        v.set(i, (key, value));
        proof {
            t = s.update(i as int, e);
            assert(pairs_view(v@) =~= t);
        }
    } else {
        v.insert(i, (key, value));
        proof {
            t = s.insert(i as int, e);
            assert(pairs_view(v@) =~= t);
        }
    }
    proof {
        // Every key of `s` other than at `i` differs from `key`; entries after `i` exceed it.
        assert forall|a: int, b: int| 0 <= a < b < t.len() implies key_lt(#[trigger] t[a].0, #[trigger] t[b].0) by {
            if found {
                if a == i {
                    assert(s[a].0 == key@);
                } else if b == i {
                    assert(s[b].0 == key@);
                }
            } else {
                if a == i {
                    if b - 1 > i {
                        lemma_lt_transitive(key@, s[i as int].0, s[b - 1].0);
                    }
                } else if b == i {
                } else if a > i {
                    assert(t[a] == s[a - 1] && t[b] == s[b - 1]);
                } else if b > i {
                    assert(t[b] == s[b - 1]);
                }
            }
        }
        let m = run_map(s).insert(key@, value@);
        assert forall|k: Seq<u8>| #[trigger] run_map(t).contains_key(k) <==> m.contains_key(k) by {
            if run_map(t).contains_key(k) {
                let j = choose|j: int| 0 <= j < t.len() && (#[trigger] t[j]).0 == k;
                if k != key@ {
                    if found {
                        assert(s[j].0 == k);
                    } else if j < i {
                        assert(s[j].0 == k);
                    } else {
                        assert(s[j - 1].0 == k);
                    }
                }
            }
            if m.contains_key(k) && k != key@ {
                let j = choose|j: int| 0 <= j < s.len() && (#[trigger] s[j]).0 == k;
                if found || j < i {
                    assert(t[j].0 == k);
                } else {
                    assert(t[j + 1].0 == k);
                }
            }
            if k == key@ {
                assert(t[i as int].0 == k);
            }
        }
        assert forall|k: Seq<u8>| #[trigger] run_map(t).contains_key(k) implies run_map(t)[k] == m[k] by {
            let j = choose|j: int| 0 <= j < t.len() && (#[trigger] t[j]).0 == k;
            lemma_run_map_index(t, j);
            if k == key@ {
                lemma_run_map_index(t, i as int);
            } else {
                if found || j < i {
                    assert(s[j] == t[j]);
                    lemma_run_map_index(s, j);
                } else {
                    assert(s[j - 1] == t[j]);
                    lemma_run_map_index(s, j - 1);
                }
            }
        }
        assert(run_map(t) =~= m);
        if s.len() == 0 || key_lt(s.last().0, key@) {
            if i < s.len() {
                assert(!key_lt(s[s.len() - 1].0, key@));
            }
            assert(t =~= s.push(e));
        }
        if !found && run_map(s).contains_key(key@) {
            let j = run_index(s, key@);
            if j < i {
                lemma_lt_irreflexive(key@);
            } else if j > i {
                lemma_lt_transitive(key@, s[i as int].0, s[j].0);
                lemma_lt_irreflexive(key@);
            }
        }
    }
    (i, found)
}

} // verus!
