//! Sorted iterators and the merges that combine them.
use vstd::prelude::*;
use crate::keys::{Entry, key_lt, sorted, lemma_lt_irreflexive, lemma_lt_asymmetric};

verus! {

/// `s` after one step: its tail, or `s` itself once it is empty.
pub open spec fn advance(s: Seq<Entry>) -> Seq<Entry> {
    if s.len() > 0 {
        s.drop_first()
    } else {
        s
    }
}

/// A cursor over entries sorted by key. An empty value marks a deleted key.
pub trait StorageIterator {
    /// The entries from the cursor to the end, current entry first.
    spec fn remaining(&self) -> Seq<Entry>;

    spec fn wf(&self) -> bool;

    /// The key of the current entry.
    fn key(&self) -> (r: &[u8])
        requires
            self.wf(),
            self.remaining().len() > 0,
        ensures
            r@ == self.remaining()[0].0,
    ;

    /// The value of the current entry.
    fn value(&self) -> (r: &[u8])
        requires
            self.wf(),
            self.remaining().len() > 0,
        ensures
            r@ == self.remaining()[0].1,
    ;

    /// Whether the cursor is on an entry.
    fn is_valid(&self) -> (r: bool)
        requires
            self.wf(),
        ensures
            r == (self.remaining().len() > 0),
    ;

    /// Moves to the next entry; does nothing once the cursor is past the end.
    fn next(&mut self)
        requires
            old(self).wf(),
        ensures
            final(self).wf(),
            final(self).remaining() == advance(old(self).remaining()),
    ;
}

/// Merge of two sorted runs; on equal keys the entry of `a` is kept and
/// the one of `b` dropped.
pub open spec fn merge2(a: Seq<Entry>, b: Seq<Entry>) -> Seq<Entry>
    decreases a.len() + b.len(),
{
    if a.len() == 0 {
        b
    } else if b.len() == 0 {
        a
    } else if key_lt(a[0].0, b[0].0) {
        seq![a[0]] + merge2(a.drop_first(), b)
    } else if key_lt(b[0].0, a[0].0) {
        seq![b[0]] + merge2(a, b.drop_first())
    } else {
        seq![a[0]] + merge2(a.drop_first(), b.drop_first())
    }
}

/// Dropping from `b` an entry equal in key to the head of `a` does not
/// change the merge.
pub proof fn lemma_merge2_drop_duplicate(a: Seq<Entry>, b: Seq<Entry>)
    requires
        sorted(b),
        a.len() > 0,
        b.len() > 0,
        a[0].0 == b[0].0,
    ensures
        merge2(a, b) == merge2(a, b.drop_first()),
{
    lemma_lt_irreflexive(a[0].0);
    let b1 = b.drop_first();
    if b1.len() > 0 {
        assert(b1[0] == b[1]);
        lemma_lt_asymmetric(a[0].0, b1[0].0);
    } else {
        let a1 = a.drop_first();
        assert(merge2(a1, b1) == a1);
        assert(a =~= seq![a[0]] + a1);
    }
}

/// Merges two iterators of different types. On equal keys only the entry of
/// `a` is produced.
pub struct TwoMergeIterator<A: StorageIterator, B: StorageIterator> {
    a: A,
    b: B,
}

impl<A: StorageIterator, B: StorageIterator> TwoMergeIterator<A, B> {
    /// Builds the merge of `a` and `b`.
    pub fn create(a: A, b: B) -> (r: Self)
        requires
            a.wf(),
            b.wf(),
            sorted(a.remaining()),
            sorted(b.remaining()),
        ensures
            r.wf(),
            r.remaining() == merge2(a.remaining(), b.remaining()),
    {
        let mut iter = TwoMergeIterator { a, b };
        iter.skip_b();
        iter
    }

    fn skip_b(&mut self)
        requires
            old(self).a.wf(),
            old(self).b.wf(),
            sorted(old(self).a.remaining()),
            sorted(old(self).b.remaining()),
        ensures
            final(self).wf(),
            final(self).remaining() == merge2(old(self).a.remaining(), old(self).b.remaining()),
            final(self).a == old(self).a,
    {
        if self.a.is_valid() {
            while self.b.is_valid() && crate::keys::keys_equal(self.a.key(), self.b.key())
                invariant
                    self.a == old(self).a,
                    self.a.wf(),
                    self.b.wf(),
                    self.a.remaining().len() > 0,
                    sorted(self.a.remaining()),
                    sorted(self.b.remaining()),
                    merge2(self.a.remaining(), self.b.remaining()) == merge2(
                        old(self).a.remaining(),
                        old(self).b.remaining(),
                    ),
                decreases self.b.remaining().len(),
            {
                proof {
                    lemma_merge2_drop_duplicate(self.a.remaining(), self.b.remaining());
                }
                self.b.next();
                proof {
                    let ob = old(self).b.remaining();
                    assert forall|i: int, j: int| 0 <= i < j < self.b.remaining().len() implies key_lt(
                        #[trigger] self.b.remaining()[i].0,
                        #[trigger] self.b.remaining()[j].0,
                    ) by {
                        let pb = self.b.remaining();
                        assert(pb[i] == pb[i]);
                    }
                }
            }
        }
    }
}

impl<A: StorageIterator, B: StorageIterator> StorageIterator for TwoMergeIterator<A, B> {
    closed spec fn remaining(&self) -> Seq<Entry> {
        merge2(self.a.remaining(), self.b.remaining())
    }

    closed spec fn wf(&self) -> bool {
        &&& self.a.wf()
        &&& self.b.wf()
        &&& sorted(self.a.remaining())
        &&& sorted(self.b.remaining())
        &&& self.a.remaining().len() > 0 && self.b.remaining().len() > 0 ==> self.a.remaining()[0].0
            != self.b.remaining()[0].0
    }

    fn key(&self) -> (r: &[u8]) {
        if !self.a.is_valid() {
            return self.b.key();
        }
        if !self.b.is_valid() {
            return self.a.key();
        }
        match crate::keys::compare_keys(self.a.key(), self.b.key()) {
            core::cmp::Ordering::Greater => self.b.key(),
            _ => self.a.key(),
        }
    }

    fn value(&self) -> (r: &[u8]) {
        if !self.a.is_valid() {
            return self.b.value();
        }
        if !self.b.is_valid() {
            return self.a.value();
        }
        match crate::keys::compare_keys(self.a.key(), self.b.key()) {
            core::cmp::Ordering::Greater => self.b.value(),
            _ => self.a.value(),
        }
    }

    fn is_valid(&self) -> (r: bool) {
        self.a.is_valid() || self.b.is_valid()
    }

    fn next(&mut self) {
        if !self.a.is_valid() {
            self.b.next();
            return;
        }
        if !self.b.is_valid() {
            self.a.next();
            return;
        }
        match crate::keys::compare_keys(self.a.key(), self.b.key()) {
            core::cmp::Ordering::Greater => {
                self.b.next();
            },
            _ => {
                self.a.next();
            },
        }
        self.skip_b();
    }
}

} // verus!
