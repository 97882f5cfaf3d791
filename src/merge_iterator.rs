//! Merging any number of sorted iterators of one type.
use vstd::prelude::*;
use crate::iterators::{StorageIterator, merge2};
use crate::keys::{Entry, sorted, key_lt, compare_keys, lemma_lt_transitive, lemma_lt_asymmetric, lemma_lt_irreflexive, lemma_lt_total};
use core::cmp::Ordering;

verus! {

/// Every key of `s` satisfies `p`.
pub open spec fn all_keys(s: Seq<Entry>, p: spec_fn(Seq<u8>) -> bool) -> bool {
    forall|i: int| 0 <= i < s.len() ==> p((#[trigger] s[i]).0)
}

/// Merge of several sorted runs; on equal keys the run with the lowest
/// index wins and the others' entries are dropped.
pub open spec fn merge_all(rs: Seq<Seq<Entry>>) -> Seq<Entry>
    decreases rs.len(),
{
    if rs.len() == 0 {
        Seq::empty()
    } else {
        merge2(rs[0], merge_all(rs.drop_first()))
    }
}

/// A property of all keys of two runs holds of all keys of their merge.
pub proof fn lemma_merge2_keys(a: Seq<Entry>, b: Seq<Entry>, p: spec_fn(Seq<u8>) -> bool)
    requires
        all_keys(a, p),
        all_keys(b, p),
    ensures
        all_keys(merge2(a, b), p),
    decreases a.len() + b.len(),
{
    if a.len() > 0 && b.len() > 0 {
        let m = merge2(a, b);
        if key_lt(a[0].0, b[0].0) {
            lemma_merge2_keys(a.drop_first(), b, p);
            assert forall|i: int| 0 <= i < m.len() implies p((#[trigger] m[i]).0) by {
                if i > 0 {
                    assert(m[i] == merge2(a.drop_first(), b)[i - 1]);
                }
            }
        } else if key_lt(b[0].0, a[0].0) {
            lemma_merge2_keys(a, b.drop_first(), p);
            assert forall|i: int| 0 <= i < m.len() implies p((#[trigger] m[i]).0) by {
                if i > 0 {
                    assert(m[i] == merge2(a, b.drop_first())[i - 1]);
                }
            }
        } else {
            lemma_merge2_keys(a.drop_first(), b.drop_first(), p);
            assert forall|i: int| 0 <= i < m.len() implies p((#[trigger] m[i]).0) by {
                if i > 0 {
                    assert(m[i] == merge2(a.drop_first(), b.drop_first())[i - 1]);
                }
            }
        }
    }
}

/// A property of all keys of every run holds of all keys of their merge.
pub proof fn lemma_merge_all_keys(rs: Seq<Seq<Entry>>, p: spec_fn(Seq<u8>) -> bool)
    requires
        forall|i: int| 0 <= i < rs.len() ==> all_keys(#[trigger] rs[i], p),
    ensures
        all_keys(merge_all(rs), p),
    decreases rs.len(),
{
    if rs.len() > 0 {
        assert forall|i: int| 0 <= i < rs.drop_first().len() implies all_keys(#[trigger] rs.drop_first()[i], p) by {
            assert(rs.drop_first()[i] == rs[i + 1]);
        }
        lemma_merge_all_keys(rs.drop_first(), p);
        assert(all_keys(rs[0], p));
        lemma_merge2_keys(rs[0], merge_all(rs.drop_first()), p);
    }
}

pub proof fn lemma_sorted_prepend(e: Entry, s: Seq<Entry>)
    requires
        sorted(s),
        all_keys(s, |k: Seq<u8>| key_lt(e.0, k)),
    ensures
        sorted(seq![e] + s),
{
    let t = seq![e] + s;
    assert forall|i: int, j: int| 0 <= i < j < t.len() implies key_lt(#[trigger] t[i].0, #[trigger] t[j].0) by {
        if i == 0 {
            assert(t[j] == s[j - 1]);
        } else {
            assert(t[i] == s[i - 1] && t[j] == s[j - 1]);
        }
    }
}

/// The merge of two sorted runs is sorted.
pub proof fn lemma_merge2_sorted(a: Seq<Entry>, b: Seq<Entry>)
    requires
        sorted(a),
        sorted(b),
    ensures
        sorted(merge2(a, b)),
    decreases a.len() + b.len(),
{
    if a.len() > 0 && b.len() > 0 {
        let a1 = a.drop_first();
        let b1 = b.drop_first();
        assert(sorted(a1)) by {
            assert forall|i: int, j: int| 0 <= i < j < a1.len() implies key_lt(#[trigger] a1[i].0, #[trigger] a1[j].0) by {
                assert(a1[i] == a[i + 1] && a1[j] == a[j + 1]);
            }
        }
        assert(sorted(b1)) by {
            assert forall|i: int, j: int| 0 <= i < j < b1.len() implies key_lt(#[trigger] b1[i].0, #[trigger] b1[j].0) by {
                assert(b1[i] == b[i + 1] && b1[j] == b[j + 1]);
            }
        }
        let x = a[0].0;
        let y = b[0].0;
        if key_lt(x, y) {
            let p = |k: Seq<u8>| key_lt(x, k);
            assert(all_keys(a1, p)) by {
                assert forall|i: int| 0 <= i < a1.len() implies p((#[trigger] a1[i]).0) by {
                    assert(a1[i] == a[i + 1]);
                }
            }
            assert(all_keys(b, p)) by {
                assert forall|i: int| 0 <= i < b.len() implies p((#[trigger] b[i]).0) by {
                    if i > 0 {
                        lemma_lt_transitive(x, y, b[i].0);
                    }
                }
            }
            lemma_merge2_keys(a1, b, p);
            lemma_merge2_sorted(a1, b);
            lemma_sorted_prepend(a[0], merge2(a1, b));
        } else if key_lt(y, x) {
            let p = |k: Seq<u8>| key_lt(y, k);
            assert(all_keys(b1, p)) by {
                assert forall|i: int| 0 <= i < b1.len() implies p((#[trigger] b1[i]).0) by {
                    assert(b1[i] == b[i + 1]);
                }
            }
            assert(all_keys(a, p)) by {
                assert forall|i: int| 0 <= i < a.len() implies p((#[trigger] a[i]).0) by {
                    if i > 0 {
                        lemma_lt_transitive(y, x, a[i].0);
                    }
                }
            }
            lemma_merge2_keys(a, b1, p);
            lemma_merge2_sorted(a, b1);
            lemma_sorted_prepend(b[0], merge2(a, b1));
        } else {
            let p = |k: Seq<u8>| key_lt(x, k);
            assert(all_keys(a1, p)) by {
                assert forall|i: int| 0 <= i < a1.len() implies p((#[trigger] a1[i]).0) by {
                    assert(a1[i] == a[i + 1]);
                }
            }
            lemma_lt_total(x, y);
            assert(all_keys(b1, p)) by {
                assert forall|i: int| 0 <= i < b1.len() implies p((#[trigger] b1[i]).0) by {
                    assert(b1[i] == b[i + 1]);
                }
            }
            lemma_merge2_keys(a1, b1, p);
            lemma_merge2_sorted(a1, b1);
            lemma_sorted_prepend(a[0], merge2(a1, b1));
        }
    }
}

/// The merge of sorted runs is sorted.
pub proof fn lemma_merge_all_sorted(rs: Seq<Seq<Entry>>)
    requires
        forall|i: int| 0 <= i < rs.len() ==> sorted(#[trigger] rs[i]),
    ensures
        sorted(merge_all(rs)),
    decreases rs.len(),
{
    if rs.len() > 0 {
        assert forall|i: int| 0 <= i < rs.drop_first().len() implies sorted(#[trigger] rs.drop_first()[i]) by {
            assert(rs.drop_first()[i] == rs[i + 1]);
        }
        lemma_merge_all_sorted(rs.drop_first());
        assert(sorted(rs[0]));
        lemma_merge2_sorted(rs[0], merge_all(rs.drop_first()));
    }
}

/// `rs` with every run whose head has key `m` advanced by one entry.
pub open spec fn advance_at(rs: Seq<Seq<Entry>>, m: Seq<u8>) -> Seq<Seq<Entry>> {
    Seq::new(rs.len(), |i: int| if rs[i].len() > 0 && rs[i][0].0 == m { rs[i].drop_first() } else { rs[i] })
}

/// `j` holds the smallest head key of `rs`, and no run before it holds that key.
pub open spec fn is_min_head(rs: Seq<Seq<Entry>>, j: int) -> bool {
    &&& 0 <= j < rs.len()
    &&& rs[j].len() > 0
    &&& forall|i: int| 0 <= i < rs.len() && (#[trigger] rs[i]).len() > 0 ==> !key_lt(rs[i][0].0, rs[j][0].0)
    &&& forall|i: int| 0 <= i < j && (#[trigger] rs[i]).len() > 0 ==> rs[i][0].0 != rs[j][0].0
}

/// The merge starts with the entry at the smallest head (lowest run on
/// ties); advancing every run at that key advances the merge by one.
pub proof fn lemma_merge_all_step(rs: Seq<Seq<Entry>>, j: int)
    requires
        forall|i: int| 0 <= i < rs.len() ==> sorted(#[trigger] rs[i]),
        is_min_head(rs, j),
    ensures
        merge_all(rs).len() > 0,
        merge_all(rs)[0] == rs[j][0],
        merge_all(advance_at(rs, rs[j][0].0)) == merge_all(rs).drop_first(),
    decreases rs.len(),
{
    let m = rs[j][0].0;
    let r0 = rs[0];
    let rest = rs.drop_first();
    let mr = merge_all(rest);
    let adv = advance_at(rs, m);
    assert(adv.drop_first() =~= advance_at(rest, m));
    assert forall|i: int| 0 <= i < rest.len() implies sorted(#[trigger] rest[i]) by {
        assert(rest[i] == rs[i + 1]);
    }
    lemma_lt_irreflexive(m);
    // Is there a later run holding `m` at its head?
    if exists|i: int| 1 <= i < rs.len() && (#[trigger] rs[i]).len() > 0 && rs[i][0].0 == m && (j == 0 || i >= j) {
        let k = choose|i: int| 1 <= i < rs.len() && (#[trigger] rs[i]).len() > 0 && rs[i][0].0 == m && (j == 0 || i >= j);
        if j == 0 {
            assert forall|i: int| 0 <= i < rest.len() && (#[trigger] rest[i]).len() > 0 implies !key_lt(rest[i][0].0, m) by {
                assert(rest[i] == rs[i + 1]);
            }
            assert(rest[k - 1] == rs[k]);
            lemma_first_with_head(rest, m, k - 1);
        }
        let jj = if j > 0 { j - 1 } else {
            choose|t: int| is_min_head(rest, t) && rest[t][0].0 == m
        };
        assert(is_min_head(rest, jj)) by {
            if j > 0 {
                assert forall|i: int| 0 <= i < rest.len() && (#[trigger] rest[i]).len() > 0 implies !key_lt(rest[i][0].0, rest[jj][0].0) by {
                    assert(rest[i] == rs[i + 1]);
                }
                assert forall|i: int| 0 <= i < jj && (#[trigger] rest[i]).len() > 0 implies rest[i][0].0 != rest[jj][0].0 by {
                    assert(rest[i] == rs[i + 1]);
                }
            }
        }
        lemma_merge_all_step(rest, jj);
        assert(rest[jj][0].0 == m);
        if j == 0 {
            // r0 and mr both start with key m: merge keeps r0's entry and drops mr's.
            assert(mr[0].0 == m);
            assert(merge_all(rs) == merge2(r0, mr));
            assert(merge2(r0, mr) == seq![r0[0]] + merge2(r0.drop_first(), mr.drop_first()));
            assert(adv[0] == r0.drop_first());
            assert(merge_all(adv) == merge2(adv[0], merge_all(adv.drop_first())));
        } else {
            if r0.len() > 0 {
                assert(!key_lt(r0[0].0, m));
                assert(r0[0].0 != m);
                lemma_lt_total(r0[0].0, m);
                assert(adv[0] == r0);
            } else {
                assert(adv[0] == r0);
            }
            assert(merge_all(adv) == merge2(adv[0], merge_all(adv.drop_first())));
            assert(merge2(r0, mr).drop_first() =~= merge2(r0, mr.drop_first()));
        }
    } else {
        // Only run `j` holds `m` at its head.
        assert(j == 0) by {
            if j > 0 {
                assert(rs[j].len() > 0 && rs[j][0].0 == m);
            }
        }
        let p = |k: Seq<u8>| key_lt(m, k);
        assert forall|i: int| 0 <= i < rest.len() implies all_keys(#[trigger] rest[i], p) by {
            assert(rest[i] == rs[i + 1]);
            if rest[i].len() > 0 {
                assert(rest[i][0].0 != m);
                lemma_lt_total(rest[i][0].0, m);
                assert forall|t: int| 0 <= t < rest[i].len() implies p((#[trigger] rest[i][t]).0) by {
                    if t > 0 {
                        lemma_lt_transitive(m, rest[i][0].0, rest[i][t].0);
                    }
                }
            }
        }
        lemma_merge_all_keys(rest, p);
        assert(advance_at(rest, m) =~= rest) by {
            assert forall|i: int| 0 <= i < rest.len() implies advance_at(rest, m)[i] == rest[i] by {
                assert(rest[i] == rs[i + 1]);
            }
        }
        assert(adv[0] == r0.drop_first());
        assert(merge_all(adv) == merge2(adv[0], merge_all(adv.drop_first())));
        if mr.len() > 0 {
            assert(p(mr[0].0));
            lemma_lt_asymmetric(m, mr[0].0);
            assert(merge2(r0, mr) == seq![r0[0]] + merge2(r0.drop_first(), mr));
        } else {
            assert(merge2(r0.drop_first(), mr) == r0.drop_first());
        }
        assert(merge2(r0, mr).drop_first() =~= merge2(r0.drop_first(), mr));
    }
}

/// Among runs, some holding `m` at the head: the first of them is a minimum
/// where `m` is the smallest head.
proof fn lemma_first_with_head(rs: Seq<Seq<Entry>>, m: Seq<u8>, k: int)
    requires
        0 <= k < rs.len(),
        rs[k].len() > 0,
        rs[k][0].0 == m,
        forall|i: int| 0 <= i < rs.len() && (#[trigger] rs[i]).len() > 0 ==> !key_lt(rs[i][0].0, m),
    ensures
        exists|t: int| is_min_head(rs, t) && rs[t][0].0 == m,
    decreases k,
{
    if exists|i: int| 0 <= i < k && (#[trigger] rs[i]).len() > 0 && rs[i][0].0 == m {
        let i = choose|i: int| 0 <= i < k && (#[trigger] rs[i]).len() > 0 && rs[i][0].0 == m;
        lemma_first_with_head(rs, m, i);
    } else {
        assert(is_min_head(rs, k));
    }
}

} // verus!

verus! {

/// The remaining entries of each iterator of `v`.
pub open spec fn runs_of<I: StorageIterator>(v: Seq<I>) -> Seq<Seq<Entry>> {
    Seq::new(v.len(), |i: int| v[i].remaining())
}

/// Every iterator of `v` is well formed and sorted.
pub open spec fn all_wf<I: StorageIterator>(v: Seq<I>) -> bool {
    forall|i: int| 0 <= i < v.len() ==> (#[trigger] v[i]).wf() && sorted(v[i].remaining())
}

proof fn lemma_merge_all_empty(rs: Seq<Seq<Entry>>)
    requires
        forall|i: int| 0 <= i < rs.len() ==> (#[trigger] rs[i]).len() == 0,
    ensures
        merge_all(rs).len() == 0,
{
    let p = |k: Seq<u8>| false;
    assert forall|i: int| 0 <= i < rs.len() implies all_keys(#[trigger] rs[i], p) by {}
    lemma_merge_all_keys(rs, p);
    if merge_all(rs).len() > 0 {
        assert(p(merge_all(rs)[0].0));
    }
}

/// Merges iterators of one type; on equal keys the iterator with the lowest
/// index wins and the others skip the key.
pub struct MergeIterator<I: StorageIterator> {
    iters: Vec<I>,
}

impl<I: StorageIterator> MergeIterator<I> {
    /// Builds the merge of `iters`, the newest source first.
    pub fn create(iters: Vec<I>) -> (r: Self)
        requires
            all_wf(iters@),
        ensures
            r.wf(),
            r.remaining() == merge_all(runs_of(iters@)),
    {
        MergeIterator { iters }
    }

    /// Index of the iterator holding the smallest key, the lowest on ties.
    fn current(&self) -> (r: Option<usize>)
        requires
            all_wf(self.iters@),
        ensures
            r matches Some(j) ==> is_min_head(runs_of(self.iters@), j as int),
            r is None ==> forall|i: int| 0 <= i < self.iters@.len() ==> (#[trigger] runs_of(self.iters@)[i]).len() == 0,
    {
        let ghost rs = runs_of(self.iters@);
        let mut best: Option<usize> = None;
        let mut i: usize = 0;
        while i < self.iters.len()
            invariant
                rs == runs_of(self.iters@),
                all_wf(self.iters@),
                i <= self.iters@.len(),
                best matches Some(j) ==> j < i && rs[j as int].len() > 0
                    && (forall|t: int| 0 <= t < i && (#[trigger] rs[t]).len() > 0 ==> !key_lt(rs[t][0].0, rs[j as int][0].0))
                    && (forall|t: int| 0 <= t < j && (#[trigger] rs[t]).len() > 0 ==> rs[t][0].0 != rs[j as int][0].0),
                best is None ==> forall|t: int| 0 <= t < i ==> (#[trigger] rs[t]).len() == 0,
            decreases self.iters@.len() - i,
        {
            assert(rs[i as int] == self.iters@[i as int].remaining());
            if self.iters[i].is_valid() {
                match best {
                    None => {
                        proof {
                            lemma_lt_irreflexive(rs[i as int][0].0);
                        }
                        best = Some(i);
                    },
                    Some(j) => {
                        assert(rs[j as int] == self.iters@[j as int].remaining());
                        match compare_keys(self.iters[i].key(), self.iters[j].key()) {
                            Ordering::Less => {
                                proof {
                                    assert forall|t: int| 0 <= t < i + 1 && (#[trigger] rs[t]).len() > 0 implies !key_lt(rs[t][0].0, rs[i as int][0].0) by {
                                        if t < i {
                                            if key_lt(rs[t][0].0, rs[i as int][0].0) {
                                                lemma_lt_transitive(rs[t][0].0, rs[i as int][0].0, rs[j as int][0].0);
                                            }
                                        } else {
                                            lemma_lt_irreflexive(rs[i as int][0].0);
                                        }
                                    }
                                    assert forall|t: int| 0 <= t < i && (#[trigger] rs[t]).len() > 0 implies rs[t][0].0 != rs[i as int][0].0 by {
                                        if rs[t][0].0 == rs[i as int][0].0 {
                                            lemma_lt_asymmetric(rs[i as int][0].0, rs[j as int][0].0);
                                        }
                                    }
                                }
                                best = Some(i);
                            },
                            _ => {
                                proof {
                                    lemma_lt_total(rs[i as int][0].0, rs[j as int][0].0);
                                    if key_lt(rs[j as int][0].0, rs[i as int][0].0) {
                                        lemma_lt_asymmetric(rs[j as int][0].0, rs[i as int][0].0);
                                    }
                                }
                            },
                        }
                    },
                }
            }
            i = i + 1;
        }
        best
    }
}

impl<I: StorageIterator> StorageIterator for MergeIterator<I> {
    closed spec fn remaining(&self) -> Seq<Entry> {
        merge_all(runs_of(self.iters@))
    }

    closed spec fn wf(&self) -> bool {
        all_wf(self.iters@)
    }

    fn key(&self) -> (r: &[u8]) {
        let ghost rs = runs_of(self.iters@);
        match self.current() {
            Some(j) => {
                proof {
                    assert forall|i: int| 0 <= i < rs.len() implies sorted(#[trigger] rs[i]) by {}
                    lemma_merge_all_step(rs, j as int);
                }
                self.iters[j].key()
            },
            None => {
                proof {
                    lemma_merge_all_empty(rs);
                }
                self.iters[0].key()
            },
        }
    }

    fn value(&self) -> (r: &[u8]) {
        let ghost rs = runs_of(self.iters@);
        match self.current() {
            Some(j) => {
                proof {
                    assert forall|i: int| 0 <= i < rs.len() implies sorted(#[trigger] rs[i]) by {}
                    lemma_merge_all_step(rs, j as int);
                }
                self.iters[j].value()
            },
            None => {
                proof {
                    lemma_merge_all_empty(rs);
                }
                self.iters[0].value()
            },
        }
    }

    fn is_valid(&self) -> (r: bool) {
        let ghost rs = runs_of(self.iters@);
        match self.current() {
            Some(j) => {
                proof {
                    assert forall|i: int| 0 <= i < rs.len() implies sorted(#[trigger] rs[i]) by {}
                    lemma_merge_all_step(rs, j as int);
                }
                true
            },
            None => {
                proof {
                    lemma_merge_all_empty(rs);
                }
                false
            },
        }
    }

    fn next(&mut self) {
        let ghost rs = runs_of(self.iters@);
        let j = match self.current() {
            Some(j) => j,
            None => {
                proof {
                    lemma_merge_all_empty(rs);
                }
                return;
            },
        };
        proof {
            assert forall|i: int| 0 <= i < rs.len() implies sorted(#[trigger] rs[i]) by {}
            lemma_merge_all_step(rs, j as int);
        }
        let m = crate::codec::bytes_of(self.iters[j].key());
        let ghost target = advance_at(rs, m@);
        let n = self.iters.len();
        let mut i: usize = 0;
        while i < n
            invariant
                n == self.iters@.len(),
                n == rs.len(),
                i <= n,
                all_wf(self.iters@),
                target == advance_at(rs, m@),
                forall|t: int| 0 <= t < n ==> sorted(#[trigger] rs[t]),
                forall|t: int| 0 <= t < i ==> (#[trigger] runs_of(self.iters@)[t]) == target[t],
                forall|t: int| i <= t < n ==> (#[trigger] runs_of(self.iters@)[t]) == rs[t],
            decreases n - i,
        {
            let ghost before = self.iters@;
            proof {
                assert(runs_of(before)[i as int] == before[i as int].remaining());
                assert(target[i as int] == (if rs[i as int].len() > 0 && rs[i as int][0].0 == m@ {
                    rs[i as int].drop_first()
                } else {
                    rs[i as int]
                }));
            }
            let step = self.iters[i].is_valid() && crate::keys::keys_equal(self.iters[i].key(), m.as_slice());
            if step {
                let mut it = self.iters.remove(i);
                it.next();
                self.iters.insert(i, it);
                proof {
                    assert(self.iters@ =~= before.update(i as int, it));
                    let r = rs[i as int];
                    assert forall|a: int, b: int| 0 <= a < b < r.drop_first().len() implies key_lt(
                        #[trigger] r.drop_first()[a].0,
                        #[trigger] r.drop_first()[b].0,
                    ) by {
                        assert(r.drop_first()[a] == r[a + 1] && r.drop_first()[b] == r[b + 1]);
                    }
                    assert forall|t: int| 0 <= t < n implies (#[trigger] self.iters@[t]).wf() && sorted(
                        self.iters@[t].remaining(),
                    ) by {
                        if t != i {
                            assert(self.iters@[t] == before[t]);
                        }
                    }
                    assert(runs_of(self.iters@)[i as int] == target[i as int]);
                }
            } else {
                proof {
                    assert(runs_of(self.iters@)[i as int] == target[i as int]);
                }
            }
            proof {
                assert forall|t: int| 0 <= t < i + 1 implies (#[trigger] runs_of(self.iters@)[t]) == target[t] by {
                    if t < i {
                        assert(self.iters@[t] == before[t]);
                        assert(runs_of(before)[t] == before[t].remaining());
                        assert(runs_of(self.iters@)[t] == self.iters@[t].remaining());
                    }
                }
                assert forall|t: int| i + 1 <= t < n implies (#[trigger] runs_of(self.iters@)[t]) == rs[t] by {
                    assert(self.iters@[t] == before[t]);
                    assert(runs_of(before)[t] == before[t].remaining());
                    assert(runs_of(self.iters@)[t] == self.iters@[t].remaining());
                }
            }
            i = i + 1;
        }
        proof {
            assert(runs_of(self.iters@) =~= target);
        }
    }
}

} // verus!
