//! Byte-string keys: lexicographic order and sorted runs of entries.
use vstd::prelude::*;
use core::cmp::Ordering;

verus! {

/// A key-value entry as seen by the specifications.
pub type Entry = (Seq<u8>, Seq<u8>);

/// Lexicographic strict order on raw bytes.
pub open spec fn key_lt(a: Seq<u8>, b: Seq<u8>) -> bool
    decreases a.len(),
{
    if a.len() == 0 {
        b.len() > 0
    } else if b.len() == 0 {
        false
    } else if a[0] != b[0] {
        a[0] < b[0]
    } else {
        key_lt(a.drop_first(), b.drop_first())
    }
}

pub open spec fn key_le(a: Seq<u8>, b: Seq<u8>) -> bool {
    a == b || key_lt(a, b)
}

/// Keys of `s` are strictly increasing.
pub open spec fn sorted(s: Seq<Entry>) -> bool {
    forall|i: int, j: int| 0 <= i < j < s.len() ==> key_lt(#[trigger] s[i].0, #[trigger] s[j].0)
}

pub proof fn lemma_lt_irreflexive(a: Seq<u8>)
    ensures
        !key_lt(a, a),
    decreases a.len(),
{
    if a.len() > 0 {
        lemma_lt_irreflexive(a.drop_first());
    }
}

pub proof fn lemma_lt_transitive(a: Seq<u8>, b: Seq<u8>, c: Seq<u8>)
    requires
        key_lt(a, b),
        key_lt(b, c),
    ensures
        key_lt(a, c),
    decreases a.len(),
{
    if a.len() > 0 && b.len() > 0 && c.len() > 0 && a[0] == b[0] && b[0] == c[0] {
        lemma_lt_transitive(a.drop_first(), b.drop_first(), c.drop_first());
    }
}

pub proof fn lemma_lt_total(a: Seq<u8>, b: Seq<u8>)
    ensures
        a == b || key_lt(a, b) || key_lt(b, a),
    decreases a.len(),
{
    if a.len() > 0 && b.len() > 0 && a[0] == b[0] {
        lemma_lt_total(a.drop_first(), b.drop_first());
        if a.drop_first() == b.drop_first() {
            assert(a =~= seq![a[0]] + a.drop_first());
            assert(b =~= seq![b[0]] + b.drop_first());
        }
    } else if a.len() == 0 && b.len() == 0 {
        assert(a =~= b);
    }
}

pub proof fn lemma_lt_asymmetric(a: Seq<u8>, b: Seq<u8>)
    requires
        key_lt(a, b),
    ensures
        !key_lt(b, a),
        a != b,
{
    lemma_lt_irreflexive(a);
    if key_lt(b, a) {
        lemma_lt_transitive(a, b, a);
    }
}

proof fn lemma_lt_skip(a: Seq<u8>, b: Seq<u8>, i: int)
    requires
        0 <= i <= a.len(),
        i <= b.len(),
        a.take(i) == b.take(i),
    ensures
        key_lt(a, b) == key_lt(a.skip(i), b.skip(i)),
    decreases i,
{
    if i > 0 {
        assert(a[0] == a.take(i)[0]);
        assert(b[0] == b.take(i)[0]);
        assert(a.drop_first().take(i - 1) =~= a.take(i).drop_first());
        assert(b.drop_first().take(i - 1) =~= b.take(i).drop_first());
        lemma_lt_skip(a.drop_first(), b.drop_first(), i - 1);
        assert(a.drop_first().skip(i - 1) =~= a.skip(i));
        assert(b.drop_first().skip(i - 1) =~= b.skip(i));
    } else {
        assert(a.skip(0) =~= a);
        assert(b.skip(0) =~= b);
    }
}

/// Three-way lexicographic comparison of two byte strings.
pub fn compare_keys(a: &[u8], b: &[u8]) -> (r: Ordering)
    ensures
        r == Ordering::Less <==> key_lt(a@, b@),
        r == Ordering::Greater <==> key_lt(b@, a@),
        r == Ordering::Equal <==> a@ == b@,
{
    proof {
        lemma_lt_total(a@, b@);
        lemma_lt_irreflexive(a@);
        if key_lt(a@, b@) {
            lemma_lt_asymmetric(a@, b@);
        }
    }
    let mut i: usize = 0;
    while i < a.len() && i < b.len()
        invariant
            0 <= i <= a@.len(),
            i <= b@.len(),
            a@.take(i as int) == b@.take(i as int),
        decreases a@.len() - i,
    {
        if a[i] != b[i] {
            proof {
                lemma_lt_skip(a@, b@, i as int);
                lemma_lt_skip(b@, a@, i as int);
                assert(a@.skip(i as int)[0] == a@[i as int]);
                assert(b@.skip(i as int)[0] == b@[i as int]);
            }
            if a[i] < b[i] {
                return Ordering::Less;
            } else {
                return Ordering::Greater;
            }
        }
        proof {
            assert(a@.take(i + 1) =~= a@.take(i as int).push(a@[i as int]));
            assert(b@.take(i + 1) =~= b@.take(i as int).push(b@[i as int]));
        }
        i = i + 1;
    }
    proof {
        lemma_lt_skip(a@, b@, i as int);
        lemma_lt_skip(b@, a@, i as int);
        if i == a.len() && i == b.len() {
            assert(a@ =~= a@.take(i as int));
            assert(b@ =~= b@.take(i as int));
        }
    }
    if i < b.len() {
        Ordering::Less
    } else if i < a.len() {
        Ordering::Greater
    } else {
        Ordering::Equal
    }
}

} // verus!

verus! {

/// The entries held by a vector of owned key-value pairs.
pub open spec fn pairs_view(v: Seq<(Vec<u8>, Vec<u8>)>) -> Seq<Entry> {
    Seq::new(v.len(), |i: int| (v[i].0@, v[i].1@))
}

/// Appending an entry whose key exceeds the last key keeps a run sorted.
pub proof fn lemma_sorted_push(s: Seq<Entry>, e: Entry)
    requires
        sorted(s),
        s.len() > 0 ==> key_lt(s.last().0, e.0),
    ensures
        sorted(s.push(e)),
{
    assert forall|i: int, j: int| 0 <= i < j < s.push(e).len() implies key_lt(
        #[trigger] s.push(e)[i].0,
        #[trigger] s.push(e)[j].0,
    ) by {
        if j == s.len() && i < s.len() - 1 {
            lemma_lt_transitive(s[i].0, s.last().0, e.0);
        }
    }
}

} // verus!

verus! {

/// Number of leading entries whose key is below `k`.
pub open spec fn count_below(es: Seq<Entry>, k: Seq<u8>) -> nat
    decreases es.len(),
{
    if es.len() == 0 {
        0
    } else if key_lt(es[0].0, k) {
        1 + count_below(es.drop_first(), k)
    } else {
        0
    }
}

/// The entries from the first one whose key is at least `k`.
pub open spec fn seek_from(es: Seq<Entry>, k: Seq<u8>) -> Seq<Entry> {
    es.skip(count_below(es, k) as int)
}

/// A split point of a run at `k` is the count of leading entries below `k`.
pub proof fn lemma_count_below(es: Seq<Entry>, k: Seq<u8>, r: int)
    requires
        0 <= r <= es.len(),
        forall|j: int| 0 <= j < r ==> key_lt((#[trigger] es[j]).0, k),
        r < es.len() ==> !key_lt(es[r].0, k),
    ensures
        count_below(es, k) == r,
    decreases r,
{
    if r > 0 {
        assert forall|j: int| 0 <= j < r - 1 implies key_lt((#[trigger] es.drop_first()[j]).0, k) by {
            assert(es.drop_first()[j] == es[j + 1]);
        }
        lemma_count_below(es.drop_first(), k, r - 1);
    }
}

} // verus!

verus! {

/// Whether two byte strings are equal.
pub fn keys_equal(a: &[u8], b: &[u8]) -> (r: bool)
    ensures
        r == (a@ == b@),
{
    match compare_keys(a, b) {
        Ordering::Equal => true,
        _ => false,
    }
}

} // verus!

verus! {

/// Two sorted runs, the first ending below the start of the second, form a sorted run.
pub proof fn lemma_sorted_concat(x: Seq<Entry>, y: Seq<Entry>)
    requires
        sorted(x),
        sorted(y),
        x.len() > 0 && y.len() > 0 ==> key_lt(x.last().0, y[0].0),
    ensures
        sorted(x + y),
{
    let z = x + y;
    assert forall|i: int, j: int| 0 <= i < j < z.len() implies key_lt(#[trigger] z[i].0, #[trigger] z[j].0) by {
        if i < x.len() && j >= x.len() {
            let a = z[i].0;
            let l = x.last().0;
            let f = y[0].0;
            let b = z[j].0;
            if i < x.len() - 1 {
                lemma_lt_transitive(a, l, f);
            }
            if j > x.len() {
                if i < x.len() - 1 {
                    lemma_lt_transitive(a, f, b);
                } else {
                    lemma_lt_transitive(a, f, b);
                }
            }
        } else if i >= x.len() {
            assert(z[i] == y[i - x.len()] && z[j] == y[j - x.len()]);
        }
    }
}

} // verus!

verus! {

/// The leading entries counted by `count_below` are below `k`; the next one is not.
pub proof fn lemma_count_below_props(es: Seq<Entry>, k: Seq<u8>)
    ensures
        count_below(es, k) <= es.len(),
        forall|j: int| 0 <= j < count_below(es, k) ==> key_lt((#[trigger] es[j]).0, k),
        count_below(es, k) < es.len() ==> !key_lt(es[count_below(es, k) as int].0, k),
    decreases es.len(),
{
    if es.len() > 0 && key_lt(es[0].0, k) {
        lemma_count_below_props(es.drop_first(), k);
        assert forall|j: int| 0 <= j < count_below(es, k) implies key_lt((#[trigger] es[j]).0, k) by {
            if j > 0 {
                assert(es[j] == es.drop_first()[j - 1]);
            }
        }
    }
}

} // verus!
