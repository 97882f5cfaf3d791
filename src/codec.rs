//! Big-endian integer fields of the on-disk formats.
use vstd::prelude::*;

verus! {

/// The two big-endian bytes of `x`.
pub open spec fn be16(x: nat) -> Seq<u8> {
    seq![(x / 256) as u8, (x % 256) as u8]
}

/// The four big-endian bytes of `x`.
pub open spec fn be32(x: nat) -> Seq<u8> {
    seq![(x / 16777216) as u8, ((x / 65536) % 256) as u8, ((x / 256) % 256) as u8, (x % 256) as u8]
}

/// The big-endian `u16` stored at `i` in `s`.
pub open spec fn u16_at(s: Seq<u8>, i: int) -> nat {
    (s[i] as nat) * 256 + (s[i + 1] as nat)
}

/// The big-endian `u32` stored at `i` in `s`.
pub open spec fn u32_at(s: Seq<u8>, i: int) -> nat {
    (s[i] as nat) * 16777216 + (s[i + 1] as nat) * 65536 + (s[i + 2] as nat) * 256 + (s[i + 3] as nat)
}

pub proof fn lemma_be16_read(s: Seq<u8>, i: int, x: nat)
    requires
        0 <= i,
        i + 2 <= s.len(),
        x < 65536,
        s.subrange(i, i + 2) == be16(x),
    ensures
        u16_at(s, i) == x,
{
    assert(s[i] == s.subrange(i, i + 2)[0]);
    assert(s[i + 1] == s.subrange(i, i + 2)[1]);
}

pub proof fn lemma_be16_of_read(s: Seq<u8>, i: int)
    requires
        0 <= i,
        i + 2 <= s.len(),
    ensures
        u16_at(s, i) < 65536,
        s.subrange(i, i + 2) =~= be16(u16_at(s, i)),
{
}

pub proof fn lemma_be32_read(s: Seq<u8>, i: int, x: nat)
    requires
        0 <= i,
        i + 4 <= s.len(),
        x < 4294967296,
        s.subrange(i, i + 4) == be32(x),
    ensures
        u32_at(s, i) == x,
{
    assert(s[i] == s.subrange(i, i + 4)[0]);
    assert(s[i + 1] == s.subrange(i, i + 4)[1]);
    assert(s[i + 2] == s.subrange(i, i + 4)[2]);
    assert(s[i + 3] == s.subrange(i, i + 4)[3]);
    let a = s[i] as nat;
    let b = s[i + 1] as nat;
    let c = s[i + 2] as nat;
    let d = s[i + 3] as nat;
    assert(a * 16777216 + b * 65536 + c * 256 + d == x) by (nonlinear_arith)
        requires
            a == x / 16777216,
            b == (x / 65536) % 256,
            c == (x / 256) % 256,
            d == x % 256,
            x < 4294967296,
    ;
}

pub proof fn lemma_be32_of_read(s: Seq<u8>, i: int)
    requires
        0 <= i,
        i + 4 <= s.len(),
    ensures
        u32_at(s, i) < 4294967296,
        s.subrange(i, i + 4) =~= be32(u32_at(s, i)),
{
    let a = s[i] as nat;
    let b = s[i + 1] as nat;
    let c = s[i + 2] as nat;
    let d = s[i + 3] as nat;
    let x = u32_at(s, i);
    assert(x == a * 16777216 + b * 65536 + c * 256 + d);
    assert(x / 16777216 == a && (x / 65536) % 256 == b && (x / 256) % 256 == c && x % 256 == d
        && x < 4294967296) by (nonlinear_arith)
        requires
            a < 256,
            b < 256,
            c < 256,
            d < 256,
            x == a * 16777216 + b * 65536 + c * 256 + d,
    ;
}

/// Appends `x` as two big-endian bytes.
pub fn put_u16(buf: &mut Vec<u8>, x: u16)
    ensures
        final(buf)@ == old(buf)@ + be16(x as nat),
{
    buf.push((x / 256) as u8);
    buf.push((x % 256) as u8);
    assert(final(buf)@ =~= old(buf)@ + be16(x as nat));
}

/// Appends `x` as four big-endian bytes.
pub fn put_u32(buf: &mut Vec<u8>, x: u32)
    ensures
        final(buf)@ == old(buf)@ + be32(x as nat),
{
    buf.push((x / 16777216) as u8);
    buf.push(((x / 65536) % 256) as u8);
    buf.push(((x / 256) % 256) as u8);
    buf.push((x % 256) as u8);
    assert(final(buf)@ =~= old(buf)@ + be32(x as nat));
}

/// Reads the big-endian `u16` at `i`.
pub fn get_u16(s: &[u8], i: usize) -> (r: u16)
    requires
        i + 2 <= s@.len(),
    ensures
        r as nat == u16_at(s@, i as int),
{
    (s[i] as u16) * 256 + (s[i + 1] as u16)
}

/// Reads the big-endian `u32` at `i`.
pub fn get_u32(s: &[u8], i: usize) -> (r: u32)
    requires
        i + 4 <= s@.len(),
    ensures
        r as nat == u32_at(s@, i as int),
{
    (s[i] as u32) * 16777216 + (s[i + 1] as u32) * 65536 + (s[i + 2] as u32) * 256 + (s[i + 3] as u32)
}

/// Appends the bytes of `src`.
pub fn put_slice(buf: &mut Vec<u8>, src: &[u8])
    ensures
        final(buf)@ == old(buf)@ + src@,
{
    let mut i: usize = 0;
    while i < src.len()
        invariant
            i <= src@.len(),
            buf@ == old(buf)@ + src@.take(i as int),
        decreases src@.len() - i,
    {
        buf.push(src[i]);
        i = i + 1;
        assert(buf@ =~= old(buf)@ + src@.take(i as int));
    }
    assert(src@.take(i as int) =~= src@);
}

/// Copies `s[lo..hi]` into a new vector.
pub fn copy_range(s: &[u8], lo: usize, hi: usize) -> (r: Vec<u8>)
    requires
        lo <= hi <= s@.len(),
    ensures
        r@ == s@.subrange(lo as int, hi as int),
{
    let mut r: Vec<u8> = Vec::new();
    let mut i: usize = lo;
    while i < hi
        invariant
            lo <= i <= hi,
            hi <= s@.len(),
            r@ == s@.subrange(lo as int, i as int),
        decreases hi - i,
    {
        r.push(s[i]);
        i = i + 1;
        assert(r@ =~= s@.subrange(lo as int, i as int));
    }
    r
}

} // verus!

verus! {

/// Copies a byte slice into a new vector.
pub fn bytes_of(s: &[u8]) -> (r: Vec<u8>)
    ensures
        r@ == s@,
{
    let r = copy_range(s, 0, s.len());
    assert(s@.subrange(0, s@.len() as int) =~= s@);
    r
}

} // verus!
