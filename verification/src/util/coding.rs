//! Fixed-width little-endian integers.
use vstd::arithmetic::div_mod::lemma_fundamental_div_mod_converse;
use vstd::prelude::*;

verus! {

/// Byte `i` of `s`, or zero past its end.
pub open spec fn le_byte(s: Seq<u8>, i: int) -> nat {
    if 0 <= i < s.len() {
        s[i] as nat
    } else {
        0
    }
}

/// The four bytes of `v`, least significant first.
pub open spec fn spec_fixed_32(v: u32) -> Seq<u8> {
    seq![
        (v % 256) as u8,
        ((v / 256) % 256) as u8,
        ((v / 65536) % 256) as u8,
        ((v / 16777216) % 256) as u8,
    ]
}

/// The eight bytes of `v`, least significant first.
pub open spec fn spec_fixed_64(v: u64) -> Seq<u8> {
    spec_fixed_32((v % 0x1_0000_0000) as u32) + spec_fixed_32((v / 0x1_0000_0000) as u32)
}

/// The number whose little-endian digits are the four bytes of `s` from `pos` on; bytes
/// past the end of `s` count as zero.
pub open spec fn spec_decode_fixed_32(s: Seq<u8>, pos: int) -> nat {
    le_byte(s, pos) + 256 * le_byte(s, pos + 1) + 65536 * le_byte(s, pos + 2) + 16777216 * le_byte(
        s,
        pos + 3,
    )
}

/// The number whose little-endian digits are the eight bytes of `s` from `pos` on; bytes
/// past the end of `s` count as zero.
pub open spec fn spec_decode_fixed_64(s: Seq<u8>, pos: int) -> nat {
    spec_decode_fixed_32(s, pos) + 0x1_0000_0000 * spec_decode_fixed_32(s, pos + 4)
}

/// The four bytes at `pos` are the base-256 digits of the number they hold.
pub proof fn lemma_fixed_32_digits(s: Seq<u8>, pos: int)
    requires
        0 <= pos,
        pos + 4 <= s.len(),
    ensures
        spec_decode_fixed_32(s, pos) < 0x1_0000_0000,
        s[pos] == spec_decode_fixed_32(s, pos) % 256,
        s[pos + 1] == (spec_decode_fixed_32(s, pos) / 256) % 256,
        s[pos + 2] == (spec_decode_fixed_32(s, pos) / 65536) % 256,
        s[pos + 3] == spec_decode_fixed_32(s, pos) / 16777216,
{
    let b0 = s[pos] as int;
    let b1 = s[pos + 1] as int;
    let b2 = s[pos + 2] as int;
    let b3 = s[pos + 3] as int;
    let v = spec_decode_fixed_32(s, pos) as int;
    assert(v == b0 + 256 * b1 + 65536 * b2 + 16777216 * b3);
    lemma_fundamental_div_mod_converse(v, 256, b1 + 256 * b2 + 65536 * b3, b0);
    lemma_fundamental_div_mod_converse(v / 256, 256, b2 + 256 * b3, b1);
    lemma_fundamental_div_mod_converse(v, 65536, b2 + 256 * b3, b0 + 256 * b1);
    lemma_fundamental_div_mod_converse(v / 65536, 256, b3, b2);
    lemma_fundamental_div_mod_converse(v, 16777216, b3, b0 + 256 * b1 + 65536 * b2);
}

/// Decoding undoes encoding, wherever the encoding stands in a buffer.
pub proof fn lemma_fixed_32_roundtrip(v: u32, before: Seq<u8>, after: Seq<u8>)
    ensures
        spec_decode_fixed_32(before + spec_fixed_32(v) + after, before.len() as int) == v,
{
    let s = before + spec_fixed_32(v) + after;
    let p = before.len() as int;
    assert(s[p] == spec_fixed_32(v)[0]);
    assert(s[p + 1] == spec_fixed_32(v)[1]);
    assert(s[p + 2] == spec_fixed_32(v)[2]);
    assert(s[p + 3] == spec_fixed_32(v)[3]);
}

/// Decoding undoes encoding, wherever the encoding stands in a buffer.
pub proof fn lemma_fixed_64_roundtrip(v: u64, before: Seq<u8>, after: Seq<u8>)
    ensures
        spec_decode_fixed_64(before + spec_fixed_64(v) + after, before.len() as int) == v,
{
    let lo = (v % 0x1_0000_0000) as u32;
    let hi = (v / 0x1_0000_0000) as u32;
    let s = before + spec_fixed_64(v) + after;
    assert(s =~= before + spec_fixed_32(lo) + (spec_fixed_32(hi) + after));
    lemma_fixed_32_roundtrip(lo, before, spec_fixed_32(hi) + after);
    assert(s =~= (before + spec_fixed_32(lo)) + spec_fixed_32(hi) + after);
    lemma_fixed_32_roundtrip(hi, before + spec_fixed_32(lo), after);
}

/// Two buffers that differ in one of the eight bytes from `pos` on hold different numbers there.
pub proof fn lemma_fixed_64_injective(s: Seq<u8>, t: Seq<u8>, pos: int)
    requires
        0 <= pos,
        pos + 8 <= s.len(),
        pos + 8 <= t.len(),
        exists|j: int| pos <= j < pos + 8 && s[j] != t[j],
    ensures
        spec_decode_fixed_64(s, pos) != spec_decode_fixed_64(t, pos),
{
    let j = choose|j: int| pos <= j < pos + 8 && s[j] != t[j];
    let a = spec_decode_fixed_32(s, pos);
    let b = spec_decode_fixed_32(s, pos + 4);
    let c = spec_decode_fixed_32(t, pos);
    let d = spec_decode_fixed_32(t, pos + 4);
    lemma_fixed_32_digits(s, pos);
    lemma_fixed_32_digits(s, pos + 4);
    lemma_fixed_32_digits(t, pos);
    lemma_fixed_32_digits(t, pos + 4);
    if a + 0x1_0000_0000 * b == c + 0x1_0000_0000 * d {
        assert(a == c && b == d);
        assert(s[pos] == t[pos]);
        assert(s[pos + 1] == t[pos + 1]);
        assert(s[pos + 2] == t[pos + 2]);
        assert(s[pos + 3] == t[pos + 3]);
        assert(s[pos + 4] == t[pos + 4]);
        assert(s[pos + 5] == t[pos + 5]);
        assert(s[pos + 6] == t[pos + 6]);
        assert(s[pos + 7] == t[pos + 7]);
        assert(false);
    }
}

/// Appends the four little-endian bytes of `v` to `dst`.
pub fn put_fixed_32(dst: &mut Vec<u8>, v: u32)
    ensures
        final(dst)@ == old(dst)@ + spec_fixed_32(v),
{
    dst.push((v % 256) as u8);
    dst.push(((v / 256) % 256) as u8);
    dst.push(((v / 65536) % 256) as u8);
    dst.push(((v / 16777216) % 256) as u8);
    assert(dst@ =~= old(dst)@ + spec_fixed_32(v));
}

/// Appends the eight little-endian bytes of `v` to `dst`.
pub fn put_fixed_64(dst: &mut Vec<u8>, v: u64)
    ensures
        final(dst)@ == old(dst)@ + spec_fixed_64(v),
{
    put_fixed_32(dst, (v % 0x1_0000_0000) as u32);
    put_fixed_32(dst, (v / 0x1_0000_0000) as u32);
    assert(dst@ =~= old(dst)@ + spec_fixed_64(v));
}

fn byte_at(src: &[u8], i: usize) -> (b: u32)
    ensures
        b == le_byte(src@, i as int),
        b < 256,
{
    if i < src.len() {
        src[i] as u32
    } else {
        0
    }
}

/// Reads a little-endian `u32` from the four bytes of `src` that start at `pos`. Bytes that
/// `src` does not have count as zero.
pub fn decode_fixed_32_at(src: &[u8], pos: usize) -> (v: u32)
    requires
        pos + 4 <= usize::MAX,
    ensures
        v == spec_decode_fixed_32(src@, pos as int),
{
    let b0: u32 = byte_at(src, pos);
    let b1: u32 = byte_at(src, pos + 1);
    let b2: u32 = byte_at(src, pos + 2);
    let b3: u32 = byte_at(src, pos + 3);
    b0 + 256 * b1 + 65536 * b2 + 16777216 * b3
}

/// Reads a little-endian `u32` from the first four bytes of `src`.
pub fn decode_fixed_32(src: &[u8]) -> (v: u32)
    ensures
        v == spec_decode_fixed_32(src@, 0),
{
    decode_fixed_32_at(src, 0)
}

/// Reads a little-endian `u64` from the eight bytes of `src` that start at `pos`. Bytes that
/// `src` does not have count as zero.
pub fn decode_fixed_64_at(src: &[u8], pos: usize) -> (v: u64)
    requires
        pos + 8 <= usize::MAX,
    ensures
        v == spec_decode_fixed_64(src@, pos as int),
{
    let lo: u64 = decode_fixed_32_at(src, pos) as u64;
    let hi: u64 = decode_fixed_32_at(src, pos + 4) as u64;
    lo + 0x1_0000_0000 * hi
}

/// Reads a little-endian `u64` from the first eight bytes of `src`.
pub fn decode_fixed_64(src: &[u8]) -> (v: u64)
    ensures
        v == spec_decode_fixed_64(src@, 0),
{
    decode_fixed_64_at(src, 0)
}

/// Appends the bytes of `src` from index `from` up to index `to` to `dst`.
pub fn append_range(dst: &mut Vec<u8>, src: &[u8], from: usize, to: usize)
    requires
        from <= to <= src@.len(),
    ensures
        final(dst)@ == old(dst)@ + src@.subrange(from as int, to as int),
{
    let mut i: usize = from;
    while i < to
        invariant
            from <= i <= to <= src@.len(),
            dst@ == old(dst)@ + src@.subrange(from as int, i as int),
        decreases to - i,
    {
        dst.push(src[i]);
        i = i + 1;
    }
}

/// Whether two byte strings are the same.
pub fn bytes_equal(a: &[u8], b: &[u8]) -> (r: bool)
    ensures
        r == (a@ == b@),
{
    if a.len() != b.len() {
        return false;
    }
    let mut i: usize = 0;
    while i < a.len()
        invariant
            i <= a@.len(),
            a@.len() == b@.len(),
            forall|k: int| 0 <= k < i ==> a@[k] == b@[k],
        decreases a@.len() - i,
    {
        if a[i] != b[i] {
            return false;
        }
        i = i + 1;
    }
    assert(a@ =~= b@);
    true
}

} // verus!
