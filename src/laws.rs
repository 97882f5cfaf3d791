//! Properties that relate several operations of the engine.
use vstd::prelude::*;
use crate::block_builder::BlockBuilder;
use crate::block::{block_ok, encode_block, lemma_layout};
use crate::codec::{be16, lemma_be16_read};
use crate::iterators::merge2;
use crate::keys::{Entry, sorted, key_lt, seek_from, count_below, lemma_count_below_props, lemma_lt_transitive, lemma_lt_asymmetric, lemma_lt_total};
use crate::lsm_iterator::{live, lemma_live};
use crate::lsm_storage::{layer_get, bounded, scan_result};
use crate::mem_table::{Bound, admits_lower, admits_upper, seek_bound};
use crate::merge_iterator::{merge_all, all_keys, lemma_merge2_keys, lemma_merge_all_keys};
use crate::run::{run_map, run_index, lemma_run_map_index};
use crate::merge_iterator::lemma_merge2_sorted;

verus! {

/// A block builder refuses an entry only when it already holds one, and an
/// empty builder of the same target size takes any entry.
pub proof fn law_block_builder_capacity(b: BlockBuilder, fresh: BlockBuilder, key: Seq<u8>, value: Seq<u8>)
    requires
        b.wf(),
        fresh.wf(),
        fresh@.len() == 0,
        fresh.target() == b.target(),
        b.size_after(key, value) > b.target() && b@.len() > 0,
    ensures
        b@.len() > 0,
        !(fresh.size_after(key, value) > fresh.target() && fresh@.len() > 0),
{
}

/// After `put(k, v)` the engine reads `v` at `k`.
pub proof fn law_read_your_writes(before: Seq<Seq<Entry>>, after: Seq<Seq<Entry>>, k: Seq<u8>, v: Seq<u8>)
    requires
        before.len() > 0,
        after.len() == before.len(),
        run_map(after[0]) == run_map(before[0]).insert(k, v),
        after.drop_first() == before.drop_first(),
        v.len() > 0,
    ensures
        layer_get(after, k) == Some(v),
{
}

/// A write of another key leaves what the engine reads at `k` unchanged.
pub proof fn law_other_write_keeps(before: Seq<Seq<Entry>>, after: Seq<Seq<Entry>>, k2: Seq<u8>, v: Seq<u8>, k: Seq<u8>)
    requires
        before.len() > 0,
        after.len() == before.len(),
        run_map(after[0]) == run_map(before[0]).insert(k2, v),
        after.drop_first() == before.drop_first(),
        k2 != k,
    ensures
        layer_get(after, k) == layer_get(before, k),
{
    assert(run_map(after[0]).contains_key(k) == run_map(before[0]).contains_key(k));
}

/// After `delete(k)` the engine reads nothing at `k`.
pub proof fn law_delete_hides(before: Seq<Seq<Entry>>, after: Seq<Seq<Entry>>, k: Seq<u8>)
    requires
        before.len() > 0,
        after.len() == before.len(),
        run_map(after[0]) == run_map(before[0]).insert(k, Seq::empty()),
        after.drop_first() == before.drop_first(),
    ensures
        layer_get(after, k) is None,
{
}

/// Putting an empty memtable in front of the layers, as a flush does,
/// changes no read.
pub proof fn law_flush_keeps_get(ls: Seq<Seq<Entry>>, k: Seq<u8>)
    ensures
        layer_get(seq![Seq::<Entry>::empty()] + ls, k) == layer_get(ls, k),
{
    let l2 = seq![Seq::<Entry>::empty()] + ls;
    assert(l2[0] == Seq::<Entry>::empty());
    assert(!run_map(l2[0]).contains_key(k));
    assert(l2.drop_first() =~= ls);
}

/// Putting an empty memtable in front of the layers, as a flush does,
/// changes no scan.
pub proof fn law_flush_keeps_scan(ls: Seq<Seq<Entry>>, lower: Bound, upper: Bound)
    ensures
        scan_result(seq![Seq::<Entry>::empty()] + ls, lower, upper) == scan_result(ls, lower, upper),
{
    let e = Seq::<Entry>::empty();
    let l2 = seq![e] + ls;
    let b2 = bounded(l2, lower);
    assert(seek_bound(e, lower) =~= e);
    assert(b2[0] == e);
    assert(b2.drop_first() =~= bounded(ls, lower));
    assert(merge_all(b2) == merge2(e, merge_all(bounded(ls, lower))));
}

/// Every entry of `seek_bound(s, lower)` is admitted by `lower`.
pub proof fn lemma_seek_bound_keys(s: Seq<Entry>, lower: Bound)
    requires
        sorted(s),
    ensures
        all_keys(seek_bound(s, lower), |k: Seq<u8>| admits_lower(lower, k)),
{
    let p = |k: Seq<u8>| admits_lower(lower, k);
    match lower {
        Bound::Unbounded => {},
        Bound::Included(x) => {
            lemma_count_below_props(s, x@);
            let c = count_below(s, x@) as int;
            let t = seek_from(s, x@);
            assert forall|i: int| 0 <= i < t.len() implies p((#[trigger] t[i]).0) by {
                assert(t[i] == s[c + i]);
                if i > 0 && key_lt(s[c + i].0, x@) {
                    lemma_lt_transitive(s[c].0, s[c + i].0, x@);
                }
            }
        },
        Bound::Excluded(x) => {
            lemma_count_below_props(s, x@);
            let c = count_below(s, x@) as int;
            let t = seek_from(s, x@);
            let r = seek_bound(s, lower);
            assert forall|i: int| 0 <= i < r.len() implies p((#[trigger] r[i]).0) by {
                let j = if t.len() > 0 && t[0].0 == x@ { i + 1 } else { i };
                assert(r[i] == t[j]);
                assert(t[j] == s[c + j]);
                lemma_lt_total(s[c].0, x@);
                if j > 0 {
                    lemma_lt_total(s[c + j].0, x@);
                    if key_lt(s[c + j].0, x@) {
                        lemma_lt_transitive(s[c].0, s[c + j].0, x@);
                    } else if s[c + j].0 == x@ {
                        if key_lt(x@, s[c].0) {
                            lemma_lt_asymmetric(s[c].0, s[c + j].0);
                        }
                    }
                }
            }
        },
    }
}

/// Every entry a scan yields lies within its bounds and is live.
pub proof fn law_scan_bounds(ls: Seq<Seq<Entry>>, lower: Bound, upper: Bound)
    requires
        forall|i: int| 0 <= i < ls.len() ==> sorted(#[trigger] ls[i]),
    ensures
        forall|i: int|
            0 <= i < scan_result(ls, lower, upper).len() ==> admits_lower(
                lower,
                (#[trigger] scan_result(ls, lower, upper)[i]).0,
            ) && admits_upper(upper, scan_result(ls, lower, upper)[i].0)
                && scan_result(ls, lower, upper)[i].1.len() > 0,
{
    let p = |k: Seq<u8>| admits_lower(lower, k);
    let bl = bounded(ls, lower);
    assert forall|i: int| 0 <= i < bl.len() implies all_keys(#[trigger] bl[i], p) by {
        lemma_seek_bound_keys(ls[i], lower);
    }
    lemma_merge_all_keys(bl, p);
    let m = merge_all(bl);
    lemma_live(m, upper);
    let r = scan_result(ls, lower, upper);
    assert forall|i: int| 0 <= i < r.len() implies admits_lower(lower, (#[trigger] r[i]).0) by {
        let j = choose|j: int| 0 <= j < m.len() && m[j] == r[i];
        assert(p(m[j].0));
    }
}

/// A sorted run with an entry in front binds that entry's key to its value
/// and every other key as before.
pub proof fn lemma_run_map_prepend(x: Entry, s: Seq<Entry>)
    requires
        sorted(seq![x] + s),
    ensures
        sorted(s),
        run_map(seq![x] + s) == run_map(s).insert(x.0, x.1),
{
    let t = seq![x] + s;
    assert forall|i: int, j: int| 0 <= i < j < s.len() implies key_lt(#[trigger] s[i].0, #[trigger] s[j].0) by {
        assert(s[i] == t[i + 1] && s[j] == t[j + 1]);
    }
    let m = run_map(s).insert(x.0, x.1);
    assert forall|k: Seq<u8>| #[trigger] run_map(t).contains_key(k) <==> m.contains_key(k) by {
        if run_map(t).contains_key(k) && k != x.0 {
            let j = run_index(t, k);
            assert(s[j - 1] == t[j]);
        }
        if m.contains_key(k) && k != x.0 {
            let j = run_index(s, k);
            assert(t[j + 1] == s[j]);
        }
        if k == x.0 {
            assert(t[0] == x);
        }
    }
    assert forall|k: Seq<u8>| #[trigger] run_map(t).contains_key(k) implies run_map(t)[k] == m[k] by {
        let j = run_index(t, k);
        lemma_run_map_index(t, j);
        if j == 0 {
            assert(t[0] == x);
        } else {
            assert(t[j] == s[j - 1]);
            lemma_run_map_index(s, j - 1);
            if k == x.0 {
                assert(t[0] == x);
                crate::run::lemma_sorted_unique(t, 0, j);
            }
        }
    }
    assert(run_map(t) =~= m);
}

/// Merging two sorted runs gives a sorted run that binds each key as `a`
/// does where `a` binds it, and as `b` does elsewhere.
pub proof fn law_merge2_prefers_a(a: Seq<Entry>, b: Seq<Entry>)
    requires
        sorted(a),
        sorted(b),
    ensures
        sorted(merge2(a, b)),
        run_map(merge2(a, b)) == run_map(b).union_prefer_right(run_map(a)),
    decreases a.len() + b.len(),
{
    lemma_merge2_sorted(a, b);
    if a.len() == 0 {
        assert(run_map(a) =~= Map::<Seq<u8>, Seq<u8>>::empty());
        assert(run_map(b).union_prefer_right(run_map(a)) =~= run_map(b));
    } else if b.len() == 0 {
        assert(run_map(b) =~= Map::<Seq<u8>, Seq<u8>>::empty());
        assert(run_map(b).union_prefer_right(run_map(a)) =~= run_map(a));
    } else {
        let a0 = a[0];
        let b0 = b[0];
        let a1 = a.drop_first();
        let b1 = b.drop_first();
        assert(a =~= seq![a0] + a1);
        assert(b =~= seq![b0] + b1);
        lemma_run_map_prepend(a0, a1);
        lemma_run_map_prepend(b0, b1);
        let m = merge2(a, b);
        if key_lt(a0.0, b0.0) {
            law_merge2_prefers_a(a1, b);
            assert(m == seq![a0] + merge2(a1, b));
            lemma_run_map_prepend(a0, merge2(a1, b));
            assert(run_map(m) =~= run_map(b).union_prefer_right(run_map(a)));
        } else if key_lt(b0.0, a0.0) {
            law_merge2_prefers_a(a, b1);
            assert(m == seq![b0] + merge2(a, b1));
            lemma_run_map_prepend(b0, merge2(a, b1));
            assert(!run_map(a).contains_key(b0.0)) by {
                if run_map(a).contains_key(b0.0) {
                    let j = run_index(a, b0.0);
                    if j > 0 {
                        lemma_lt_transitive(b0.0, a0.0, a[j].0);
                    }
                    crate::keys::lemma_lt_irreflexive(b0.0);
                }
            }
            assert(run_map(m) =~= run_map(b).union_prefer_right(run_map(a)));
        } else {
            lemma_lt_total(a0.0, b0.0);
            law_merge2_prefers_a(a1, b1);
            assert(m == seq![a0] + merge2(a1, b1));
            lemma_run_map_prepend(a0, merge2(a1, b1));
            assert(run_map(m) =~= run_map(b).union_prefer_right(run_map(a)));
        }
    }
}

/// Cutting a sorted run at its lower end keeps the binding of every key the
/// lower end admits.
pub proof fn lemma_seek_bound_keeps(s: Seq<Entry>, lower: Bound, k: Seq<u8>)
    requires
        sorted(s),
        run_map(s).contains_key(k),
        admits_lower(lower, k),
    ensures
        run_map(seek_bound(s, lower)).contains_key(k),
        run_map(seek_bound(s, lower))[k] == run_map(s)[k],
{
    let j = run_index(s, k);
    lemma_run_map_index(s, j);
    crate::lsm_storage::lemma_seek_bound_sorted(s, lower);
    let r = seek_bound(s, lower);
    match lower {
        Bound::Unbounded => {
            lemma_run_map_index(r, j);
        },
        Bound::Included(x) => {
            lemma_count_below_props(s, x@);
            let c = count_below(s, x@) as int;
            if j < c {
                lemma_lt_asymmetric(s[j].0, x@);
            }
            assert(r[j - c] == s[j]);
            lemma_run_map_index(r, j - c);
        },
        Bound::Excluded(x) => {
            lemma_count_below_props(s, x@);
            let c = count_below(s, x@) as int;
            let t = seek_from(s, x@);
            if j < c {
                lemma_lt_asymmetric(x@, s[j].0);
                lemma_lt_transitive(x@, s[j].0, x@);
                crate::keys::lemma_lt_irreflexive(x@);
            }
            if t.len() > 0 && t[0].0 == x@ {
                if j == c {
                    crate::keys::lemma_lt_irreflexive(x@);
                }
                assert(r[j - c - 1] == s[j]);
                lemma_run_map_index(r, j - c - 1);
            } else {
                assert(r[j - c] == s[j]);
                lemma_run_map_index(r, j - c);
            }
        },
    }
}

/// A key the newest layer marks deleted is never yielded by a scan.
pub proof fn law_deleted_key_not_scanned(ls: Seq<Seq<Entry>>, k: Seq<u8>, lower: Bound, upper: Bound)
    requires
        forall|i: int| 0 <= i < ls.len() ==> sorted(#[trigger] ls[i]),
        ls.len() > 0,
        run_map(ls[0]).contains_key(k),
        run_map(ls[0])[k].len() == 0,
    ensures
        forall|i: int|
            0 <= i < scan_result(ls, lower, upper).len() ==> (#[trigger] scan_result(ls, lower, upper)[i]).0
                != k,
{
    let r = scan_result(ls, lower, upper);
    law_scan_bounds(ls, lower, upper);
    if admits_lower(lower, k) {
        let bl = bounded(ls, lower);
        let rest = bl.drop_first();
        assert forall|i: int| 0 <= i < rest.len() implies sorted(#[trigger] rest[i]) by {
            assert(rest[i] == bl[i + 1]);
            crate::lsm_storage::lemma_seek_bound_sorted(ls[i + 1], lower);
        }
        crate::merge_iterator::lemma_merge_all_sorted(rest);
        crate::lsm_storage::lemma_seek_bound_sorted(ls[0], lower);
        lemma_seek_bound_keeps(ls[0], lower, k);
        let mr = merge_all(rest);
        law_merge2_prefers_a(bl[0], mr);
        let m = merge_all(bl);
        assert(m == merge2(bl[0], mr));
        assert(run_map(m).contains_key(k) && run_map(m)[k].len() == 0);
        lemma_live(m, upper);
        assert forall|i: int| 0 <= i < r.len() implies (#[trigger] r[i]).0 != k by {
            let j = choose|j: int| 0 <= j < m.len() && m[j] == r[i];
            if r[i].0 == k {
                lemma_run_map_index(m, j);
            }
        }
    }
}

/// Two sorted runs that bind the same keys to the same values are equal.
pub proof fn lemma_sorted_run_map_injective(x: Seq<Entry>, y: Seq<Entry>)
    requires
        sorted(x),
        sorted(y),
        run_map(x) == run_map(y),
    ensures
        x == y,
    decreases x.len() + y.len(),
{
    if x.len() == 0 || y.len() == 0 {
        if x.len() > 0 {
            lemma_run_map_index(x, 0);
        }
        if y.len() > 0 {
            lemma_run_map_index(y, 0);
        }
        assert(x =~= y);
    } else {
        lemma_run_map_index(x, 0);
        lemma_run_map_index(y, 0);
        let i = run_index(x, y[0].0);
        let j = run_index(y, x[0].0);
        if i > 0 && j > 0 {
            lemma_lt_transitive(x[0].0, x[i].0, y[j].0);
            crate::keys::lemma_lt_irreflexive(x[0].0);
        } else if i > 0 {
            crate::run::lemma_sorted_unique(y, 0, j);
        } else if j > 0 {
            crate::run::lemma_sorted_unique(x, 0, i);
        }
        assert(x[0].0 == y[0].0);
        assert(x[0] == y[0]);
        let x1 = x.drop_first();
        let y1 = y.drop_first();
        assert(x =~= seq![x[0]] + x1);
        assert(y =~= seq![y[0]] + y1);
        lemma_run_map_prepend(x[0], x1);
        lemma_run_map_prepend(y[0], y1);
        assert(!run_map(x1).contains_key(x[0].0)) by {
            if run_map(x1).contains_key(x[0].0) {
                let t = run_index(x1, x[0].0);
                assert(x1[t] == x[t + 1]);
                crate::keys::lemma_lt_irreflexive(x[0].0);
            }
        }
        assert(!run_map(y1).contains_key(y[0].0)) by {
            if run_map(y1).contains_key(y[0].0) {
                let t = run_index(y1, y[0].0);
                assert(y1[t] == y[t + 1]);
                crate::keys::lemma_lt_irreflexive(y[0].0);
            }
        }
        assert(run_map(x1) =~= run_map(x).remove(x[0].0));
        assert(run_map(y1) =~= run_map(y).remove(y[0].0));
        lemma_sorted_run_map_injective(x1, y1);
    }
}

/// Merging is associative.
pub proof fn lemma_merge2_assoc(a: Seq<Entry>, b: Seq<Entry>, c: Seq<Entry>)
    requires
        sorted(a),
        sorted(b),
        sorted(c),
    ensures
        merge2(merge2(a, b), c) == merge2(a, merge2(b, c)),
{
    law_merge2_prefers_a(a, b);
    law_merge2_prefers_a(b, c);
    law_merge2_prefers_a(merge2(a, b), c);
    law_merge2_prefers_a(a, merge2(b, c));
    assert(run_map(merge2(merge2(a, b), c)) =~= run_map(merge2(a, merge2(b, c))));
    lemma_sorted_run_map_injective(merge2(merge2(a, b), c), merge2(a, merge2(b, c)));
}

/// Merging two lists of runs one after the other is merging their concatenation.
pub proof fn lemma_merge_all_concat(xs: Seq<Seq<Entry>>, ys: Seq<Seq<Entry>>)
    requires
        forall|i: int| 0 <= i < xs.len() ==> sorted(#[trigger] xs[i]),
        forall|i: int| 0 <= i < ys.len() ==> sorted(#[trigger] ys[i]),
    ensures
        merge_all(xs + ys) == merge2(merge_all(xs), merge_all(ys)),
    decreases xs.len(),
{
    if xs.len() == 0 {
        assert(xs + ys =~= ys);
        assert(merge2(Seq::<Entry>::empty(), merge_all(ys)) == merge_all(ys));
    } else {
        let x0 = xs[0];
        let rest = xs.drop_first();
        assert((xs + ys).drop_first() =~= rest + ys);
        assert((xs + ys)[0] == x0);
        assert forall|i: int| 0 <= i < rest.len() implies sorted(#[trigger] rest[i]) by {
            assert(rest[i] == xs[i + 1]);
        }
        lemma_merge_all_concat(rest, ys);
        crate::merge_iterator::lemma_merge_all_sorted(rest);
        crate::merge_iterator::lemma_merge_all_sorted(ys);
        lemma_merge2_assoc(x0, merge_all(rest), merge_all(ys));
    }
}

/// Among the layers, the newest one binding `k` decides what the engine reads.
pub proof fn law_newest_layer_wins(ls: Seq<Seq<Entry>>, p: int, k: Seq<u8>)
    requires
        0 <= p < ls.len(),
        forall|i: int| 0 <= i < p ==> !run_map(#[trigger] ls[i]).contains_key(k),
        run_map(ls[p]).contains_key(k),
    ensures
        layer_get(ls, k) == (if run_map(ls[p])[k].len() == 0 {
            None
        } else {
            Some(run_map(ls[p])[k])
        }),
    decreases p,
{
    if p > 0 {
        let rest = ls.drop_first();
        assert(!run_map(ls[0]).contains_key(k));
        assert forall|i: int| 0 <= i < p - 1 implies !run_map(#[trigger] rest[i]).contains_key(k) by {
            assert(rest[i] == ls[i + 1]);
        }
        assert(rest[p - 1] == ls[p]);
        law_newest_layer_wins(rest, p - 1, k);
    }
}

/// The merge of runs binds `k` as the first run that binds it.
pub proof fn lemma_merge_all_first_binding(rs: Seq<Seq<Entry>>, p: int, k: Seq<u8>)
    requires
        forall|i: int| 0 <= i < rs.len() ==> sorted(#[trigger] rs[i]),
        0 <= p < rs.len(),
        forall|i: int| 0 <= i < p ==> !run_map(#[trigger] rs[i]).contains_key(k),
        run_map(rs[p]).contains_key(k),
    ensures
        run_map(merge_all(rs)).contains_key(k),
        run_map(merge_all(rs))[k] == run_map(rs[p])[k],
    decreases p,
{
    let rest = rs.drop_first();
    assert forall|i: int| 0 <= i < rest.len() implies sorted(#[trigger] rest[i]) by {
        assert(rest[i] == rs[i + 1]);
    }
    crate::merge_iterator::lemma_merge_all_sorted(rest);
    law_merge2_prefers_a(rs[0], merge_all(rest));
    if p > 0 {
        assert(!run_map(rs[0]).contains_key(k));
        assert forall|i: int| 0 <= i < p - 1 implies !run_map(#[trigger] rest[i]).contains_key(k) by {
            assert(rest[i] == rs[i + 1]);
        }
        assert(rest[p - 1] == rs[p]);
        lemma_merge_all_first_binding(rest, p - 1, k);
    }
}

/// A key that a run does not bind is not bound once the run is cut at its lower end.
pub proof fn lemma_seek_bound_sub(s: Seq<Entry>, lower: Bound, k: Seq<u8>)
    requires
        run_map(seek_bound(s, lower)).contains_key(k),
    ensures
        run_map(s).contains_key(k),
{
    let r = seek_bound(s, lower);
    let j = run_index(r, k);
    match lower {
        Bound::Unbounded => {},
        Bound::Included(x) => {
            lemma_count_below_props(s, x@);
            let c = count_below(s, x@) as int;
            assert(r[j] == s[j + c]);
        },
        Bound::Excluded(x) => {
            lemma_count_below_props(s, x@);
            let c = count_below(s, x@) as int;
            let t = seek_from(s, x@);
            if t.len() > 0 && t[0].0 == x@ {
                assert(r[j] == s[j + c + 1]);
            } else {
                assert(r[j] == s[j + c]);
            }
        },
    }
}

/// What `live` keeps of a sorted run is sorted.
pub proof fn lemma_live_sorted(s: Seq<Entry>, upper: Bound)
    requires
        sorted(s),
    ensures
        sorted(live(s, upper)),
    decreases s.len(),
{
    if s.len() > 0 {
        let rest = s.drop_first();
        assert forall|i: int, j: int| 0 <= i < j < rest.len() implies key_lt(#[trigger] rest[i].0, #[trigger] rest[j].0) by {
            assert(rest[i] == s[i + 1] && rest[j] == s[j + 1]);
        }
        lemma_live_sorted(rest, upper);
        if admits_upper(upper, s[0].0) && s[0].1.len() > 0 {
            let t = live(rest, upper);
            lemma_live(rest, upper);
            assert forall|i: int| 0 <= i < t.len() implies (|k: Seq<u8>| key_lt(s[0].0, k))((#[trigger] t[i]).0) by {
                let j = choose|j: int| 0 <= j < rest.len() && rest[j] == t[i];
                assert(rest[j] == s[j + 1]);
            }
            crate::merge_iterator::lemma_sorted_prepend(s[0], t);
        }
    }
}

/// A scan yields each key at most once, in ascending order, and a key it
/// yields carries the value of the newest layer that binds it.
pub proof fn law_scan_newest_wins(ls: Seq<Seq<Entry>>, p: int, k: Seq<u8>, lower: Bound, upper: Bound)
    requires
        forall|i: int| 0 <= i < ls.len() ==> sorted(#[trigger] ls[i]),
        0 <= p < ls.len(),
        forall|i: int| 0 <= i < p ==> !run_map(#[trigger] ls[i]).contains_key(k),
        run_map(ls[p]).contains_key(k),
    ensures
        sorted(scan_result(ls, lower, upper)),
        forall|i: int|
            0 <= i < scan_result(ls, lower, upper).len() && (#[trigger] scan_result(ls, lower, upper)[i]).0
                == k ==> scan_result(ls, lower, upper)[i].1 == run_map(ls[p])[k],
{
    let bl = bounded(ls, lower);
    assert forall|i: int| 0 <= i < bl.len() implies sorted(#[trigger] bl[i]) by {
        crate::lsm_storage::lemma_seek_bound_sorted(ls[i], lower);
    }
    crate::merge_iterator::lemma_merge_all_sorted(bl);
    let m = merge_all(bl);
    lemma_live_sorted(m, upper);
    lemma_live(m, upper);
    law_scan_bounds(ls, lower, upper);
    let r = scan_result(ls, lower, upper);
    if admits_lower(lower, k) {
        assert forall|i: int| 0 <= i < p implies !run_map(#[trigger] bl[i]).contains_key(k) by {
            if run_map(bl[i]).contains_key(k) {
                lemma_seek_bound_sub(ls[i], lower, k);
            }
        }
        lemma_seek_bound_keeps(ls[p], lower, k);
        lemma_merge_all_first_binding(bl, p, k);
        assert forall|i: int| 0 <= i < r.len() && (#[trigger] r[i]).0 == k implies r[i].1 == run_map(ls[p])[k] by {
            let j = choose|j: int| 0 <= j < m.len() && m[j] == r[i];
            lemma_run_map_index(m, j);
        }
    }
}

/// The block encoding is one to one: a valid block that encodes to the bytes
/// of a valid run of entries holds exactly those entries, in order. With the
/// contract of `Block::decode` this is the round trip of a block.
pub proof fn law_block_round_trip(es: Seq<Entry>, got: Seq<Entry>)
    requires
        block_ok(es),
        block_ok(got),
        encode_block(got) == encode_block(es),
    ensures
        got == es,
{
    let enc = encode_block(es);
    let len = enc.len() as int;
    crate::block::lemma_offsets_len(es);
    crate::block::lemma_offsets_len(got);
    assert(enc.subrange(len - 2, len) =~= be16(es.len()));
    assert(encode_block(got).subrange(len - 2, len) =~= be16(got.len()));
    lemma_be16_read(enc, len - 2, es.len());
    lemma_be16_read(enc, len - 2, got.len());
    assert(got.len() == es.len());
    assert forall|i: int| 0 <= i < es.len() implies #[trigger] got[i] == es[i] by {
        lemma_layout(es, i);
        lemma_layout(got, i);
    }
    assert(got =~= es);
}

} // verus!
