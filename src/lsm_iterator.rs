//! The user-facing iterator: stops at the upper end and hides deleted keys.
use vstd::prelude::*;
use crate::iterators::StorageIterator;
use crate::keys::Entry;
use crate::mem_table::{Bound, admits_upper, within_upper};

verus! {

/// The live entries of `s` up to the first key past the upper end `upper`.
pub open spec fn live(s: Seq<Entry>, upper: Bound) -> Seq<Entry>
    decreases s.len(),
{
    if s.len() == 0 {
        Seq::empty()
    } else if !admits_upper(upper, s[0].0) {
        Seq::empty()
    } else if s[0].1.len() == 0 {
        live(s.drop_first(), upper)
    } else {
        seq![s[0]] + live(s.drop_first(), upper)
    }
}

/// Every entry kept by `live` is admitted by the upper end, has a value, and
/// comes from `s`.
pub proof fn lemma_live(s: Seq<Entry>, upper: Bound)
    ensures
        forall|i: int| 0 <= i < live(s, upper).len() ==> admits_upper(upper, (#[trigger] live(s, upper)[i]).0)
            && live(s, upper)[i].1.len() > 0,
        forall|i: int| 0 <= i < live(s, upper).len() ==> exists|j: int| 0 <= j < s.len() && s[j] == #[trigger] live(s, upper)[i],
    decreases s.len(),
{
    if s.len() > 0 {
        lemma_live(s.drop_first(), upper);
        let l = live(s, upper);
        let t = live(s.drop_first(), upper);
        if admits_upper(upper, s[0].0) && s[0].1.len() > 0 {
            assert forall|i: int| 0 <= i < l.len() implies exists|j: int| 0 <= j < s.len() && s[j] == #[trigger] l[i] by {
                if i == 0 {
                    assert(s[0] == l[0]);
                } else {
                    assert(l[i] == t[i - 1]);
                    let j = choose|j: int| 0 <= j < s.drop_first().len() && s.drop_first()[j] == t[i - 1];
                    assert(s[j + 1] == l[i]);
                }
            }
            assert forall|i: int| 0 <= i < l.len() implies admits_upper(upper, (#[trigger] l[i]).0) && l[i].1.len() > 0 by {
                if i > 0 {
                    assert(l[i] == t[i - 1]);
                }
            }
        } else if admits_upper(upper, s[0].0) {
            assert forall|i: int| 0 <= i < l.len() implies exists|j: int| 0 <= j < s.len() && s[j] == #[trigger] l[i] by {
                let j = choose|j: int| 0 <= j < s.drop_first().len() && s.drop_first()[j] == t[i];
                assert(s[j + 1] == l[i]);
            }
        }
    }
}

/// Wraps a merged iterator, enforcing the upper end of a scan and skipping
/// deleted keys.
pub struct LsmIterator<I: StorageIterator> {
    inner: I,
    upper: Bound,
}

impl<I: StorageIterator> LsmIterator<I> {
    /// The cursor is on a live entry within the bound, or the scan is over.
    closed spec fn settled(&self) -> bool {
        let s = self.inner.remaining();
        s.len() > 0 && admits_upper(self.upper, s[0].0) ==> s[0].1.len() > 0
    }

    /// Wraps `inner`, skipping to its first live entry.
    pub fn new(inner: I, upper: Bound) -> (r: Self)
        requires
            inner.wf(),
        ensures
            r.wf(),
            r.remaining() == live(inner.remaining(), upper),
    {
        let mut r = LsmIterator { inner, upper };
        r.move_to_live();
        r
    }

    fn move_to_live(&mut self)
        requires
            old(self).inner.wf(),
        ensures
            final(self).inner.wf(),
            final(self).settled(),
            final(self).upper == old(self).upper,
            live(final(self).inner.remaining(), final(self).upper) == live(old(self).inner.remaining(), old(self).upper),
    {
        while self.inner.is_valid() && self.inner.value().len() == 0 && within_upper(&self.upper, self.inner.key())
            invariant
                self.inner.wf(),
                self.upper == old(self).upper,
                live(self.inner.remaining(), self.upper) == live(old(self).inner.remaining(), old(self).upper),
            decreases self.inner.remaining().len(),
        {
            self.inner.next();
        }
    }
}

impl<I: StorageIterator> StorageIterator for LsmIterator<I> {
    closed spec fn remaining(&self) -> Seq<Entry> {
        live(self.inner.remaining(), self.upper)
    }

    closed spec fn wf(&self) -> bool {
        self.inner.wf() && self.settled()
    }

    fn key(&self) -> (r: &[u8]) {
        self.inner.key()
    }

    fn value(&self) -> (r: &[u8]) {
        self.inner.value()
    }

    fn is_valid(&self) -> (r: bool) {
        self.inner.is_valid() && within_upper(&self.upper, self.inner.key())
    }

    fn next(&mut self) {
        if self.inner.is_valid() && within_upper(&self.upper, self.inner.key()) {
            self.inner.next();
            self.move_to_live();
        }
    }
}

/// An iterator that stays invalid once it has become invalid.
pub struct FusedIterator<I: StorageIterator> {
    iter: I,
}

impl<I: StorageIterator> FusedIterator<I> {
    /// Wraps `iter`.
    pub fn new(iter: I) -> (r: Self)
        requires
            iter.wf(),
        ensures
            r.wf(),
            r.remaining() == iter.remaining(),
    {
        FusedIterator { iter }
    }
}

impl<I: StorageIterator> StorageIterator for FusedIterator<I> {
    closed spec fn remaining(&self) -> Seq<Entry> {
        self.iter.remaining()
    }

    closed spec fn wf(&self) -> bool {
        self.iter.wf()
    }

    fn key(&self) -> (r: &[u8]) {
        self.iter.key()
    }

    fn value(&self) -> (r: &[u8]) {
        self.iter.value()
    }

    fn is_valid(&self) -> (r: bool) {
        self.iter.is_valid()
    }

    fn next(&mut self) {
        if self.iter.is_valid() {
            self.iter.next();
        }
    }
}

} // verus!
