//! Concatenation of a sequence of sequences.
use vstd::prelude::*;

verus! {

/// All the sequences of `ss`, one after another.
pub open spec fn flat<T>(ss: Seq<Seq<T>>) -> Seq<T>
    decreases ss.len(),
{
    if ss.len() == 0 {
        Seq::empty()
    } else {
        ss[0] + flat(ss.drop_first())
    }
}

pub proof fn lemma_flat_concat<T>(a: Seq<Seq<T>>, b: Seq<Seq<T>>)
    ensures
        flat(a + b) == flat(a) + flat(b),
    decreases a.len(),
{
    if a.len() == 0 {
        assert(a + b =~= b);
        assert(flat(a) + flat(b) =~= flat(b));
    } else {
        lemma_flat_concat(a.drop_first(), b);
        assert((a + b).drop_first() =~= a.drop_first() + b);
        assert(flat(a + b) =~= flat(a) + flat(b));
    }
}

pub proof fn lemma_flat_one<T>(x: Seq<T>)
    ensures
        flat(seq![x]) == x,
{
    assert(seq![x].drop_first() =~= Seq::<Seq<T>>::empty());
    assert(flat(seq![x].drop_first()) == Seq::<T>::empty());
    assert(seq![x][0] == x);
    assert(flat(seq![x]) =~= x + Seq::<T>::empty());
}

/// Splitting `ss` at `i` splits its concatenation.
pub proof fn lemma_flat_split<T>(ss: Seq<Seq<T>>, i: int)
    requires
        0 <= i <= ss.len(),
    ensures
        flat(ss) == flat(ss.take(i)) + flat(ss.skip(i)),
{
    assert(ss =~= ss.take(i) + ss.skip(i));
    lemma_flat_concat(ss.take(i), ss.skip(i));
}

/// The element `i` of `ss` follows the first `i` elements.
pub proof fn lemma_flat_step<T>(ss: Seq<Seq<T>>, i: int)
    requires
        0 <= i < ss.len(),
    ensures
        flat(ss.take(i + 1)) == flat(ss.take(i)) + ss[i],
        flat(ss.skip(i)) == ss[i] + flat(ss.skip(i + 1)),
        flat(ss.take(i)).len() + ss[i].len() <= flat(ss).len(),
        flat(ss).subrange(flat(ss.take(i)).len() as int, (flat(ss.take(i)).len() + ss[i].len()) as int) == ss[i],
{
    assert(ss.take(i + 1) =~= ss.take(i) + seq![ss[i]]);
    lemma_flat_concat(ss.take(i), seq![ss[i]]);
    lemma_flat_one(ss[i]);
    assert(ss.skip(i).drop_first() =~= ss.skip(i + 1));
    lemma_flat_split(ss, i + 1);
    let p = flat(ss.take(i));
    assert(flat(ss) == (p + ss[i]) + flat(ss.skip(i + 1)));
    assert(flat(ss).subrange(p.len() as int, (p.len() + ss[i].len()) as int) =~= ss[i]);
}

} // verus!
