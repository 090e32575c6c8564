//! Big-endian encoding of fixed-width integers, the wire format of every
//! message of the cache and of the consensus protocol, and small helpers
//! on byte strings.
use vstd::prelude::*;

verus! {

/// The four bytes of `x`, most significant first.
pub open spec fn be32(x: u32) -> Seq<u8> {
    seq![
        ((x >> 24u32) & 0xffu32) as u8,
        ((x >> 16u32) & 0xffu32) as u8,
        ((x >> 8u32) & 0xffu32) as u8,
        (x & 0xffu32) as u8,
    ]
}

/// The `u32` whose big-endian bytes are `b0 b1 b2 b3`.
pub open spec fn join32(b0: u8, b1: u8, b2: u8, b3: u8) -> u32 {
    ((b0 as u32) << 24u32) | ((b1 as u32) << 16u32) | ((b2 as u32) << 8u32) | (b3 as u32)
}

/// The `u32` whose big-endian bytes are the first four of `s`.
pub open spec fn read_be32(s: Seq<u8>) -> u32
    recommends
        s.len() >= 4,
{
    join32(s[0], s[1], s[2], s[3])
}

/// The eight bytes of `x`, most significant first.
pub open spec fn be64(x: u64) -> Seq<u8> {
    seq![
        ((x >> 56u64) & 0xffu64) as u8,
        ((x >> 48u64) & 0xffu64) as u8,
        ((x >> 40u64) & 0xffu64) as u8,
        ((x >> 32u64) & 0xffu64) as u8,
        ((x >> 24u64) & 0xffu64) as u8,
        ((x >> 16u64) & 0xffu64) as u8,
        ((x >> 8u64) & 0xffu64) as u8,
        (x & 0xffu64) as u8,
    ]
}

/// The `u64` whose big-endian bytes are `b0 .. b7`.
pub open spec fn join64(b0: u8, b1: u8, b2: u8, b3: u8, b4: u8, b5: u8, b6: u8, b7: u8) -> u64 {
    ((b0 as u64) << 56u64) | ((b1 as u64) << 48u64) | ((b2 as u64) << 40u64) | ((b3 as u64)
        << 32u64) | ((b4 as u64) << 24u64) | ((b5 as u64) << 16u64) | ((b6 as u64) << 8u64) | (
    b7 as u64)
}

/// The `u64` whose big-endian bytes are the first eight of `s`.
pub open spec fn read_be64(s: Seq<u8>) -> u64
    recommends
        s.len() >= 8,
{
    join64(s[0], s[1], s[2], s[3], s[4], s[5], s[6], s[7])
}

proof fn lemma_join32_split(x: u32)
    by (bit_vector)
    ensures
        join32(
            ((x >> 24u32) & 0xffu32) as u8,
            ((x >> 16u32) & 0xffu32) as u8,
            ((x >> 8u32) & 0xffu32) as u8,
            (x & 0xffu32) as u8,
        ) == x,
{
}

proof fn lemma_join64_split(x: u64)
    by (bit_vector)
    ensures
        join64(
            ((x >> 56u64) & 0xffu64) as u8,
            ((x >> 48u64) & 0xffu64) as u8,
            ((x >> 40u64) & 0xffu64) as u8,
            ((x >> 32u64) & 0xffu64) as u8,
            ((x >> 24u64) & 0xffu64) as u8,
            ((x >> 16u64) & 0xffu64) as u8,
            ((x >> 8u64) & 0xffu64) as u8,
            (x & 0xffu64) as u8,
        ) == x,
{
}

/// Decoding the four bytes of `x` gives back `x`.
pub proof fn lemma_be32_roundtrip(x: u32)
    ensures
        be32(x).len() == 4,
        read_be32(be32(x)) == x,
        forall|s: Seq<u8>| s.len() >= 4 && s.subrange(0, 4) == be32(x) ==> #[trigger] read_be32(s) == x,
{
    lemma_join32_split(x);
    assert forall|s: Seq<u8>| s.len() >= 4 && s.subrange(0, 4) == be32(x) implies #[trigger] read_be32(s) == x by {
        assert(s[0] == s.subrange(0, 4)[0]);
        assert(s[1] == s.subrange(0, 4)[1]);
        assert(s[2] == s.subrange(0, 4)[2]);
        assert(s[3] == s.subrange(0, 4)[3]);
    }
}

/// Decoding the eight bytes of `x` gives back `x`.
pub proof fn lemma_be64_roundtrip(x: u64)
    ensures
        be64(x).len() == 8,
        read_be64(be64(x)) == x,
        forall|s: Seq<u8>| s.len() >= 8 && s.subrange(0, 8) == be64(x) ==> #[trigger] read_be64(s) == x,
{
    lemma_join64_split(x);
    assert forall|s: Seq<u8>| s.len() >= 8 && s.subrange(0, 8) == be64(x) implies #[trigger] read_be64(s) == x by {
        let t = s.subrange(0, 8);
        assert(s[0] == t[0] && s[1] == t[1] && s[2] == t[2] && s[3] == t[3]);
        assert(s[4] == t[4] && s[5] == t[5] && s[6] == t[6] && s[7] == t[7]);
    }
}

/// Writes the big-endian bytes of `x` at the end of `buf`.
pub fn push_be32(buf: &mut Vec<u8>, x: u32)
    ensures
        final(buf)@ == old(buf)@ + be32(x),
{
    buf.push(((x >> 24u32) & 0xffu32) as u8);
    buf.push(((x >> 16u32) & 0xffu32) as u8);
    buf.push(((x >> 8u32) & 0xffu32) as u8);
    buf.push((x & 0xffu32) as u8);
    assert(buf@ =~= old(buf)@ + be32(x));
}

/// Writes the big-endian bytes of `x` at the end of `buf`.
pub fn push_be64(buf: &mut Vec<u8>, x: u64)
    ensures
        final(buf)@ == old(buf)@ + be64(x),
{
    buf.push(((x >> 56u64) & 0xffu64) as u8);
    buf.push(((x >> 48u64) & 0xffu64) as u8);
    buf.push(((x >> 40u64) & 0xffu64) as u8);
    buf.push(((x >> 32u64) & 0xffu64) as u8);
    buf.push(((x >> 24u64) & 0xffu64) as u8);
    buf.push(((x >> 16u64) & 0xffu64) as u8);
    buf.push(((x >> 8u64) & 0xffu64) as u8);
    buf.push((x & 0xffu64) as u8);
    assert(buf@ =~= old(buf)@ + be64(x));
}

/// Reads a big-endian `u32` from `bytes` at `pos`.
pub fn get_be32(bytes: &[u8], pos: usize) -> (x: u32)
    requires
        pos + 4 <= bytes@.len(),
    ensures
        x == read_be32(bytes@.subrange(pos as int, pos + 4)),
        x == join32(bytes@[pos as int], bytes@[pos + 1], bytes@[pos + 2], bytes@[pos + 3]),
{
    let b0 = bytes[pos];
    let b1 = bytes[pos + 1];
    let b2 = bytes[pos + 2];
    let b3 = bytes[pos + 3];
    ((b0 as u32) << 24u32) | ((b1 as u32) << 16u32) | ((b2 as u32) << 8u32) | (b3 as u32)
}

/// Reads a big-endian `u64` from `bytes` at `pos`.
pub fn get_be64(bytes: &[u8], pos: usize) -> (x: u64)
    requires
        pos + 8 <= bytes@.len(),
    ensures
        x == read_be64(bytes@.subrange(pos as int, pos + 8)),
{
    let b0 = bytes[pos];
    let b1 = bytes[pos + 1];
    let b2 = bytes[pos + 2];
    let b3 = bytes[pos + 3];
    let b4 = bytes[pos + 4];
    let b5 = bytes[pos + 5];
    let b6 = bytes[pos + 6];
    let b7 = bytes[pos + 7];
    ((b0 as u64) << 56u64) | ((b1 as u64) << 48u64) | ((b2 as u64) << 40u64) | ((b3 as u64)
        << 32u64) | ((b4 as u64) << 24u64) | ((b5 as u64) << 16u64) | ((b6 as u64) << 8u64) | (
    b7 as u64)
}

/// Appends the bytes of `src` to `buf`.
pub fn push_bytes(buf: &mut Vec<u8>, src: &[u8])
    ensures
        final(buf)@ == old(buf)@ + src@,
{
    let n = src.len();
    let mut i: usize = 0;
    while i < n
        invariant
            n == src@.len(),
            i <= n,
            buf@ == old(buf)@ + src@.subrange(0, i as int),
        decreases n - i,
    {
        buf.push(src[i]);
        assert(src@.subrange(0, i + 1) =~= src@.subrange(0, i as int).push(src@[i as int]));
        i = i + 1;
    }
    assert(src@.subrange(0, n as int) =~= src@);
}

/// A fresh vector that holds the bytes `src[start..end]`.
pub fn copy_range(src: &[u8], start: usize, end: usize) -> (out: Vec<u8>)
    requires
        start <= end <= src@.len(),
    ensures
        out@ == src@.subrange(start as int, end as int),
{
    let mut out: Vec<u8> = Vec::new();
    let mut i: usize = start;
    while i < end
        invariant
            start <= i <= end <= src@.len(),
            out@ == src@.subrange(start as int, i as int),
        decreases end - i,
    {
        out.push(src[i]);
        assert(src@.subrange(start as int, i + 1) =~= src@.subrange(start as int, i as int).push(
            src@[i as int],
        ));
        i = i + 1;
    }
    out
}

/// Whether two byte strings are equal.
pub fn bytes_eq(a: &[u8], b: &[u8]) -> (r: bool)
    ensures
        r == (a@ == b@),
{
    if a.len() != b.len() {
        return false;
    }
    let n = a.len();
    let mut i: usize = 0;
    while i < n
        invariant
            n == a@.len(),
            n == b@.len(),
            i <= n,
            forall|j: int| 0 <= j < i ==> a@[j] == b@[j],
        decreases n - i,
    {
        if a[i] != b[i] {
            return false;
        }
        i = i + 1;
    }
    assert(a@ =~= b@);
    true
}

} // verus!
