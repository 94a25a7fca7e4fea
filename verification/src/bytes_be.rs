//! Big-endian integer fields and in-place edits of a byte buffer.
//!
//! Both the track header and the chunk records store their integer
//! fields as big-endian bytes; these are the conversions and the
//! positional reads and writes everything else is specified with.
use vstd::prelude::*;

verus! {

/// The eight big-endian bytes of `x`, most significant first.
pub open spec fn u64_be(x: u64) -> Seq<u8> {
    seq![
        (x >> 56) as u8,
        (x >> 48) as u8,
        (x >> 40) as u8,
        (x >> 32) as u8,
        (x >> 24) as u8,
        (x >> 16) as u8,
        (x >> 8) as u8,
        x as u8,
    ]
}

/// The value whose big-endian bytes are `s` (first eight bytes).
pub open spec fn u64_of_be(s: Seq<u8>) -> u64
    recommends
        s.len() == 8,
{
    (((s[0] as u64) << 56) | ((s[1] as u64) << 48) | ((s[2] as u64) << 40) | ((s[3] as u64) << 32)
        | ((s[4] as u64) << 24) | ((s[5] as u64) << 16) | ((s[6] as u64) << 8) | (s[7] as u64)) as u64
}

/// The two big-endian bytes of `x`, most significant first.
pub open spec fn u16_be(x: u16) -> Seq<u8> {
    seq![(x >> 8) as u8, x as u8]
}

/// The value whose big-endian bytes are `s` (first two bytes).
pub open spec fn u16_of_be(s: Seq<u8>) -> u16
    recommends
        s.len() == 2,
{
    (((s[0] as u16) << 8) | (s[1] as u16)) as u16
}

/// `n` zero bytes.
pub open spec fn zeros(n: int) -> Seq<u8> {
    Seq::new(n as nat, |i: int| 0u8)
}

/// `s` with the bytes from `at` on replaced by `r`, same length.
pub open spec fn splice(s: Seq<u8>, at: int, r: Seq<u8>) -> Seq<u8>
    recommends
        0 <= at,
        at + r.len() <= s.len(),
{
    s.subrange(0, at) + r + s.subrange(at + r.len(), s.len() as int)
}

/// Reading back the eight big-endian bytes of `x` yields `x`.
pub proof fn lemma_u64_be_round_trip(x: u64)
    ensures
        u64_of_be(u64_be(x)) == x,
{
    let s = u64_be(x);
    assert(s[0] == (x >> 56) as u8 && s[1] == (x >> 48) as u8 && s[2] == (x >> 40) as u8
        && s[3] == (x >> 32) as u8 && s[4] == (x >> 24) as u8 && s[5] == (x >> 16) as u8
        && s[6] == (x >> 8) as u8 && s[7] == x as u8);
    assert(((((x >> 56) as u8 as u64) << 56) | (((x >> 48) as u8 as u64) << 48) | (((x >> 40)
        as u8 as u64) << 40) | (((x >> 32) as u8 as u64) << 32) | (((x >> 24) as u8 as u64) << 24)
        | (((x >> 16) as u8 as u64) << 16) | (((x >> 8) as u8 as u64) << 8) | (x as u8 as u64))
        as u64 == x) by (bit_vector);
}

/// Reading back the two big-endian bytes of `x` yields `x`.
pub proof fn lemma_u16_be_round_trip(x: u16)
    ensures
        u16_of_be(u16_be(x)) == x,
{
    let s = u16_be(x);
    assert(s[0] == (x >> 8) as u8 && s[1] == x as u8);
    assert(((((x >> 8) as u8 as u16) << 8) | (x as u8 as u16)) as u16 == x) by (bit_vector);
}

/// Overwrites one byte of `v`.
pub fn set_byte(v: &mut Vec<u8>, i: usize, b: u8)
    requires
        i < old(v).len(),
    ensures
        final(v)@ == old(v)@.update(i as int, b),
{
    let p = vstd::std_specs::vec::vec_index_mut(v, i);
    *p = b;
}

/// Appends the eight big-endian bytes of `x`.
pub fn push_u64_be(v: &mut Vec<u8>, x: u64)
    ensures
        final(v)@ == old(v)@ + u64_be(x),
{
    v.push(#[verifier::truncate] ((x >> 56) as u8));
    v.push(#[verifier::truncate] ((x >> 48) as u8));
    v.push(#[verifier::truncate] ((x >> 40) as u8));
    v.push(#[verifier::truncate] ((x >> 32) as u8));
    v.push(#[verifier::truncate] ((x >> 24) as u8));
    v.push(#[verifier::truncate] ((x >> 16) as u8));
    v.push(#[verifier::truncate] ((x >> 8) as u8));
    v.push(#[verifier::truncate] (x as u8));
    assert(v@ =~= old(v)@ + u64_be(x));
}

/// Appends the two big-endian bytes of `x`.
pub fn push_u16_be(v: &mut Vec<u8>, x: u16)
    ensures
        final(v)@ == old(v)@ + u16_be(x),
{
    v.push(#[verifier::truncate] ((x >> 8) as u8));
    v.push(#[verifier::truncate] (x as u8));
    assert(v@ =~= old(v)@ + u16_be(x));
}

/// Reads the big-endian `u64` at byte offset `off`.
pub fn read_u64_be(v: &Vec<u8>, off: usize) -> (r: u64)
    requires
        off + 8 <= v.len(),
    ensures
        r == u64_of_be(v@.subrange(off as int, off as int + 8)),
{
    let r = ((v[off] as u64) << 56) | ((v[off + 1] as u64) << 48) | ((v[off + 2] as u64) << 40)
        | ((v[off + 3] as u64) << 32) | ((v[off + 4] as u64) << 24) | ((v[off + 5] as u64) << 16)
        | ((v[off + 6] as u64) << 8) | (v[off + 7] as u64);
    proof {
        let s = v@.subrange(off as int, off as int + 8);
        assert(s[0] == v@[off as int] && s[1] == v@[off as int + 1] && s[2] == v@[off as int + 2]
            && s[3] == v@[off as int + 3] && s[4] == v@[off as int + 4] && s[5] == v@[off as int
            + 5] && s[6] == v@[off as int + 6] && s[7] == v@[off as int + 7]);
    }
    r
}

/// Reads the big-endian `u16` at byte offset `off`.
pub fn read_u16_be(v: &Vec<u8>, off: usize) -> (r: u16)
    requires
        off + 2 <= v.len(),
    ensures
        r == u16_of_be(v@.subrange(off as int, off as int + 2)),
{
    let r = ((v[off] as u16) << 8) | (v[off + 1] as u16);
    proof {
        let s = v@.subrange(off as int, off as int + 2);
        assert(s[0] == v@[off as int] && s[1] == v@[off as int + 1]);
    }
    r
}

/// Overwrites the eight bytes at `off` with the big-endian bytes of `x`.
pub fn write_u64_be_at(v: &mut Vec<u8>, off: usize, x: u64)
    requires
        off + 8 <= old(v).len(),
    ensures
        final(v)@ == splice(old(v)@, off as int, u64_be(x)),
{
    set_byte(v, off, #[verifier::truncate] ((x >> 56) as u8));
    set_byte(v, off + 1, #[verifier::truncate] ((x >> 48) as u8));
    set_byte(v, off + 2, #[verifier::truncate] ((x >> 40) as u8));
    set_byte(v, off + 3, #[verifier::truncate] ((x >> 32) as u8));
    set_byte(v, off + 4, #[verifier::truncate] ((x >> 24) as u8));
    set_byte(v, off + 5, #[verifier::truncate] ((x >> 16) as u8));
    set_byte(v, off + 6, #[verifier::truncate] ((x >> 8) as u8));
    set_byte(v, off + 7, #[verifier::truncate] (x as u8));
    assert(v@ =~= splice(old(v)@, off as int, u64_be(x)));
}

/// Overwrites the bytes of `v` from `off` on with all of `src`.
pub fn write_bytes_at(v: &mut Vec<u8>, off: usize, src: &Vec<u8>)
    requires
        off + src.len() <= old(v).len(),
    ensures
        final(v)@ == splice(old(v)@, off as int, src@),
{
    let mut i: usize = 0;
    assert(v@ =~= splice(old(v)@, off as int, src@.subrange(0, 0)));
    while i < src.len()
        invariant
            i <= src@.len(),
            off + src.len() <= old(v).len(),
            src.len() == src@.len(),
            v@.len() == old(v)@.len(),
            v@ == splice(old(v)@, off as int, src@.subrange(0, i as int)),
        decreases src@.len() - i,
    {
        set_byte(v, off + i, src[i]);
        i = i + 1;
        assert(v@ =~= splice(old(v)@, off as int, src@.subrange(0, i as int)));
    }
    assert(src@.subrange(0, src@.len() as int) =~= src@);
}

/// Appends `n` zero bytes.
pub fn extend_zeros(v: &mut Vec<u8>, n: usize)
    ensures
        final(v)@ == old(v)@ + zeros(n as int),
{
    let mut i: usize = 0;
    while i < n
        invariant
            i <= n,
            v@ == old(v)@ + zeros(i as int),
        decreases n - i,
    {
        v.push(0u8);
        i = i + 1;
        assert(v@ =~= old(v)@ + zeros(i as int));
    }
}

/// A copy of the bytes of the slice `s` from `from` (inclusive) to
/// `to` (exclusive).
pub fn copy_slice_range(s: &[u8], from: usize, to: usize) -> (r: Vec<u8>)
    requires
        from <= to <= s@.len(),
    ensures
        r@ == s@.subrange(from as int, to as int),
{
    let mut r: Vec<u8> = Vec::new();
    let mut i: usize = from;
    while i < to
        invariant
            from <= i <= to <= s@.len(),
            r@ == s@.subrange(from as int, i as int),
        decreases to - i,
    {
        r.push(*vstd::slice::slice_index_get(s, i));
        i = i + 1;
        assert(r@ =~= s@.subrange(from as int, i as int));
    }
    r
}

/// A copy of the bytes of `v` from `from` (inclusive) to `to` (exclusive).
pub fn copy_range(v: &Vec<u8>, from: usize, to: usize) -> (r: Vec<u8>)
    requires
        from <= to <= v.len(),
    ensures
        r@ == v@.subrange(from as int, to as int),
{
    let mut r: Vec<u8> = Vec::new();
    let mut i: usize = from;
    while i < to
        invariant
            from <= i <= to <= v@.len(),
            r@ == v@.subrange(from as int, i as int),
        decreases to - i,
    {
        r.push(v[i]);
        i = i + 1;
        assert(r@ =~= v@.subrange(from as int, i as int));
    }
    r
}

} // verus!
