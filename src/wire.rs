//! Fixed-width little-endian integers, as they stand in packets.
use vstd::prelude::*;

verus! {

/// The four bytes of `v`, least significant first.
pub open spec fn u32_le(v: u32) -> Seq<u8> {
    seq![v as u8, (v >> 8u32) as u8, (v >> 16u32) as u8, (v >> 24u32) as u8]
}

/// The `u32` whose bytes, least significant first, are the first four of `b`.
pub open spec fn u32_of_le(b: Seq<u8>) -> u32 {
    (b[0] as u32) | ((b[1] as u32) << 8u32) | ((b[2] as u32) << 16u32) | ((b[3] as u32) << 24u32)
}

/// The eight bytes of `v`, least significant first.
pub open spec fn u64_le(v: u64) -> Seq<u8> {
    seq![
        v as u8,
        (v >> 8u64) as u8,
        (v >> 16u64) as u8,
        (v >> 24u64) as u8,
        (v >> 32u64) as u8,
        (v >> 40u64) as u8,
        (v >> 48u64) as u8,
        (v >> 56u64) as u8,
    ]
}

/// The `u64` whose bytes, least significant first, are the first eight of `b`.
pub open spec fn u64_of_le(b: Seq<u8>) -> u64 {
    (b[0] as u64) | ((b[1] as u64) << 8u64) | ((b[2] as u64) << 16u64) | ((b[3] as u64) << 24u64)
        | ((b[4] as u64) << 32u64) | ((b[5] as u64) << 40u64) | ((b[6] as u64) << 48u64) | ((
    b[7] as u64) << 56u64)
}

/// The sixteen bytes of `v`, least significant first.
pub open spec fn u128_le(v: u128) -> Seq<u8> {
    u64_le(v as u64) + u64_le((v >> 64u128) as u64)
}

/// The `u128` whose bytes, least significant first, are the first sixteen of `b`.
pub open spec fn u128_of_le(b: Seq<u8>) -> u128 {
    (u64_of_le(b) as u128) | ((u64_of_le(b.subrange(8, 16)) as u128) << 64u128)
}

/// Reading back the bytes of a `u32` gives the `u32`.
pub proof fn lemma_u32_round_trip(v: u32)
    ensures
        u32_of_le(u32_le(v)) == v,
{
    let b = u32_le(v);
    assert(((v as u8) as u32) | ((((v >> 8u32) as u8) as u32) << 8u32) | ((((v >> 16u32) as u8)
        as u32) << 16u32) | ((((v >> 24u32) as u8) as u32) << 24u32) == v) by (bit_vector);
}

/// Four bytes are the bytes of the `u32` they encode.
pub proof fn lemma_u32_bytes_round_trip(b: Seq<u8>)
    requires
        b.len() == 4,
    ensures
        u32_le(u32_of_le(b)) == b,
{
    let (b0, b1, b2, b3) = (b[0], b[1], b[2], b[3]);
    let v = u32_of_le(b);
    assert(v == (b0 as u32) | ((b1 as u32) << 8u32) | ((b2 as u32) << 16u32) | ((b3 as u32)
        << 24u32));
    assert({
        let w = (b0 as u32) | ((b1 as u32) << 8u32) | ((b2 as u32) << 16u32) | ((b3 as u32)
            << 24u32);
        &&& w as u8 == b0
        &&& (w >> 8u32) as u8 == b1
        &&& (w >> 16u32) as u8 == b2
        &&& (w >> 24u32) as u8 == b3
    }) by (bit_vector);
    assert(u32_le(v) =~= b);
}

/// Reading back the bytes of a `u64` gives the `u64`.
pub proof fn lemma_u64_round_trip(v: u64)
    ensures
        u64_of_le(u64_le(v)) == v,
{
    assert(((v as u8) as u64) | ((((v >> 8u64) as u8) as u64) << 8u64) | ((((v >> 16u64) as u8)
        as u64) << 16u64) | ((((v >> 24u64) as u8) as u64) << 24u64) | ((((v >> 32u64) as u8)
        as u64) << 32u64) | ((((v >> 40u64) as u8) as u64) << 40u64) | ((((v >> 48u64) as u8)
        as u64) << 48u64) | ((((v >> 56u64) as u8) as u64) << 56u64) == v) by (bit_vector);
}

/// Eight bytes are the bytes of the `u64` they encode.
pub proof fn lemma_u64_bytes_round_trip(b: Seq<u8>)
    requires
        b.len() == 8,
    ensures
        u64_le(u64_of_le(b)) == b,
{
    let (b0, b1, b2, b3, b4, b5, b6, b7) = (b[0], b[1], b[2], b[3], b[4], b[5], b[6], b[7]);
    let v = u64_of_le(b);
    assert({
        let w = (b0 as u64) | ((b1 as u64) << 8u64) | ((b2 as u64) << 16u64) | ((b3 as u64)
            << 24u64) | ((b4 as u64) << 32u64) | ((b5 as u64) << 40u64) | ((b6 as u64) << 48u64)
            | ((b7 as u64) << 56u64);
        &&& w as u8 == b0
        &&& (w >> 8u64) as u8 == b1
        &&& (w >> 16u64) as u8 == b2
        &&& (w >> 24u64) as u8 == b3
        &&& (w >> 32u64) as u8 == b4
        &&& (w >> 40u64) as u8 == b5
        &&& (w >> 48u64) as u8 == b6
        &&& (w >> 56u64) as u8 == b7
    }) by (bit_vector);
    assert(u64_le(v) =~= b);
}

/// Reading back the bytes of a `u128` gives the `u128`.
pub proof fn lemma_u128_round_trip(v: u128)
    ensures
        u128_of_le(u128_le(v)) == v,
{
    let lo = v as u64;
    let hi = (v >> 64u128) as u64;
    lemma_u64_round_trip(lo);
    lemma_u64_round_trip(hi);
    let b = u128_le(v);
    assert(b.subrange(0, 8) =~= u64_le(lo));
    assert(b.subrange(8, 16) =~= u64_le(hi));
    assert(u64_of_le(b) == u64_of_le(b.subrange(0, 8)));
    assert(((v as u64) as u128) | ((((v >> 64u128) as u64) as u128) << 64u128) == v) by (bit_vector);
}

/// Sixteen bytes are the bytes of the `u128` they encode.
pub proof fn lemma_u128_bytes_round_trip(b: Seq<u8>)
    requires
        b.len() == 16,
    ensures
        u128_le(u128_of_le(b)) == b,
{
    let lo_b = b.subrange(0, 8);
    let hi_b = b.subrange(8, 16);
    lemma_u64_bytes_round_trip(lo_b);
    lemma_u64_bytes_round_trip(hi_b);
    let lo = u64_of_le(lo_b);
    let hi = u64_of_le(hi_b);
    assert(u64_of_le(b) == lo);
    let v = u128_of_le(b);
    assert(v == (lo as u128) | ((hi as u128) << 64u128));
    assert(((((lo as u128) | ((hi as u128) << 64u128)) as u64) == lo) && ((((lo as u128) | ((
    hi as u128) << 64u128)) >> 64u128) as u64 == hi)) by (bit_vector);
    assert(u128_le(v) =~= lo_b + hi_b);
    assert(lo_b + hi_b =~= b);
}

/// Appends the bytes of `v`, least significant first.
pub fn push_u32_le(out: &mut Vec<u8>, v: u32)
    ensures
        final(out)@ == old(out)@ + u32_le(v),
{
    out.push(v as u8);
    out.push((v >> 8u32) as u8);
    out.push((v >> 16u32) as u8);
    out.push((v >> 24u32) as u8);
    assert(final(out)@ =~= old(out)@ + u32_le(v));
}

/// Appends the bytes of `v`, least significant first.
pub fn push_u64_le(out: &mut Vec<u8>, v: u64)
    ensures
        final(out)@ == old(out)@ + u64_le(v),
{
    out.push(v as u8);
    out.push((v >> 8u64) as u8);
    out.push((v >> 16u64) as u8);
    out.push((v >> 24u64) as u8);
    out.push((v >> 32u64) as u8);
    out.push((v >> 40u64) as u8);
    out.push((v >> 48u64) as u8);
    out.push((v >> 56u64) as u8);
    assert(final(out)@ =~= old(out)@ + u64_le(v));
}

/// Appends the bytes of `v`, least significant first.
pub fn push_u128_le(out: &mut Vec<u8>, v: u128)
    ensures
        final(out)@ == old(out)@ + u128_le(v),
{
    push_u64_le(out, v as u64);
    push_u64_le(out, (v >> 64u128) as u64);
    assert(final(out)@ =~= old(out)@ + u128_le(v));
}

/// Appends every byte of `src`.
pub fn push_all(out: &mut Vec<u8>, src: &Vec<u8>)
    ensures
        final(out)@ == old(out)@ + src@,
{
    let mut i: usize = 0;
    while i < src.len()
        invariant
            0 <= i <= src@.len(),
            out@ == old(out)@ + src@.subrange(0, i as int),
        decreases src@.len() - i,
    {
        out.push(src[i]);
        i = i + 1;
        assert(out@ =~= old(out)@ + src@.subrange(0, i as int));
    }
    assert(src@.subrange(0, i as int) =~= src@);
}

/// The bytes `b[start..end]`.
pub fn copy_range(b: &Vec<u8>, start: usize, end: usize) -> (r: Vec<u8>)
    requires
        start <= end <= b@.len(),
    ensures
        r@ == b@.subrange(start as int, end as int),
{
    let mut r: Vec<u8> = Vec::new();
    let mut i: usize = start;
    while i < end
        invariant
            start <= i <= end,
            end <= b@.len(),
            r@ == b@.subrange(start as int, i as int),
        decreases end - i,
    {
        r.push(b[i]);
        i = i + 1;
        assert(r@ =~= b@.subrange(start as int, i as int));
    }
    r
}

/// The `u32` stored little-endian at `b[at..at + 4]`.
pub fn read_u32_le(b: &Vec<u8>, at: usize) -> (r: u32)
    requires
        at + 4 <= b@.len(),
    ensures
        r == u32_of_le(b@.subrange(at as int, at + 4)),
{
    let len = b.len();
    assert(at + 3 < len);
    (b[at] as u32) | ((b[at + 1] as u32) << 8u32) | ((b[at + 2] as u32) << 16u32) | ((b[at
        + 3] as u32) << 24u32)
}

/// The `u64` stored little-endian at `b[at..at + 8]`.
pub fn read_u64_le(b: &Vec<u8>, at: usize) -> (r: u64)
    requires
        at + 8 <= b@.len(),
    ensures
        r == u64_of_le(b@.subrange(at as int, at + 8)),
{
    let len = b.len();
    assert(at + 7 < len);
    (b[at] as u64) | ((b[at + 1] as u64) << 8u64) | ((b[at + 2] as u64) << 16u64) | ((b[at
        + 3] as u64) << 24u64) | ((b[at + 4] as u64) << 32u64) | ((b[at + 5] as u64) << 40u64)
        | ((b[at + 6] as u64) << 48u64) | ((b[at + 7] as u64) << 56u64)
}

/// The `u128` stored little-endian at `b[at..at + 16]`.
pub fn read_u128_le(b: &Vec<u8>, at: usize) -> (r: u128)
    requires
        at + 16 <= b@.len(),
    ensures
        r == u128_of_le(b@.subrange(at as int, at + 16)),
{
    let len = b.len();
    assert(at + 15 < len);
    let lo = read_u64_le(b, at);
    let hi = read_u64_le(b, at + 8);
    let ghost s = b@.subrange(at as int, at + 16);
    assert(s.subrange(0, 8) =~= b@.subrange(at as int, at + 8));
    assert(s.subrange(8, 16) =~= b@.subrange(at + 8, at + 16));
    assert(u64_of_le(s) == u64_of_le(s.subrange(0, 8)));
    (lo as u128) | ((hi as u128) << 64u128)
}

} // verus!
