//! CRC-32C, the cyclic redundancy check with Castagnoli's polynomial, and the masking that
//! checksums get before they are stored.
use vstd::prelude::*;

verus! {

/// Castagnoli's polynomial, bits reflected.
pub const CASTAGNOLI: u32 = 0x82F63B78;

/// What is added to a rotated checksum to mask it.
pub const MASK_DELTA: u32 = 0xa282ead8;

/// The register after one bit of input has been shifted out.
pub open spec fn bit_step(c: u32) -> u32 {
    if c & 1 == 1 {
        (c >> 1) ^ CASTAGNOLI
    } else {
        c >> 1
    }
}

/// The register after the byte `b` has been taken in.
pub open spec fn byte_step(c: u32, b: u8) -> u32 {
    let x = c ^ (b as u32);
    bit_step(bit_step(bit_step(bit_step(bit_step(bit_step(bit_step(bit_step(x))))))))
}

/// The register after all of `s` has been taken in, from the register `init`.
pub open spec fn register_after(init: u32, s: Seq<u8>) -> u32
    decreases s.len(),
{
    if s.len() == 0 {
        init
    } else {
        byte_step(register_after(init, s.drop_last()), s.last())
    }
}

/// The CRC-32C of some data followed by `s`, given the CRC-32C `crc` of that data.
pub open spec fn spec_extend(crc: u32, s: Seq<u8>) -> u32 {
    register_after(crc ^ 0xffff_ffff, s) ^ 0xffff_ffff
}

/// The CRC-32C of `s`.
pub open spec fn spec_value(s: Seq<u8>) -> u32 {
    spec_extend(0, s)
}

/// `c` rotated right by 15 bits.
pub open spec fn rotate_right_15(c: u32) -> u32 {
    (c >> 15) | (c << 17)
}

/// `c` rotated left by 15 bits.
pub open spec fn rotate_left_15(c: u32) -> u32 {
    (c >> 17) | (c << 15)
}

/// The masked form of a checksum: rotated right by 15 bits, then `MASK_DELTA` added
/// modulo 2^32.
pub open spec fn spec_mask(crc: u32) -> u32 {
    ((rotate_right_15(crc) + MASK_DELTA) % 0x1_0000_0000) as u32
}

/// The checksum of which `masked` is the masked form.
pub open spec fn spec_unmask(masked: u32) -> u32 {
    rotate_left_15(((masked + 0x1_0000_0000 - MASK_DELTA) % 0x1_0000_0000) as u32)
}

/// Unmasking undoes masking.
pub proof fn lemma_unmask_mask(crc: u32)
    ensures
        spec_unmask(spec_mask(crc)) == crc,
{
    let r = rotate_right_15(crc);
    assert(((spec_mask(crc) + 0x1_0000_0000 - MASK_DELTA) % 0x1_0000_0000) as u32 == r);
    assert(((((crc >> 15) | (crc << 17)) >> 17) | (((crc >> 15) | (crc << 17)) << 15)) == crc)
        by (bit_vector);
}

/// Masking undoes unmasking: the two are inverse bijections, so distinct stored values
/// stand for distinct checksums.
pub proof fn lemma_mask_unmask(masked: u32)
    ensures
        spec_mask(spec_unmask(masked)) == masked,
{
    let r = ((masked + 0x1_0000_0000 - MASK_DELTA) % 0x1_0000_0000) as u32;
    assert(((((r >> 17) | (r << 15)) >> 15) | (((r >> 17) | (r << 15)) << 17)) == r)
        by (bit_vector);
    assert(((r + MASK_DELTA) % 0x1_0000_0000) as u32 == masked);
}

/// Shifting out a bit loses nothing: different registers stay different.
pub proof fn lemma_bit_step_injective(a: u32, b: u32)
    requires
        a != b,
    ensures
        bit_step(a) != bit_step(b),
{
    assert(a != b ==> (if a & 1 == 1 {
        (a >> 1) ^ 0x82F63B78u32
    } else {
        a >> 1
    }) != (if b & 1 == 1 {
        (b >> 1) ^ 0x82F63B78u32
    } else {
        b >> 1
    })) by (bit_vector);
}

/// Taking in the same byte keeps different registers different.
pub proof fn lemma_byte_step_injective(a: u32, b: u32, x: u8)
    requires
        a != b,
    ensures
        byte_step(a, x) != byte_step(b, x),
{
    let p = a ^ (x as u32);
    let q = b ^ (x as u32);
    assert(a != b ==> (a ^ (x as u32)) != (b ^ (x as u32))) by (bit_vector);
    lemma_eight_steps_injective(p, q);
}

/// Taking different bytes into the same register gives different registers.
pub proof fn lemma_byte_step_separates(c: u32, x: u8, y: u8)
    requires
        x != y,
    ensures
        byte_step(c, x) != byte_step(c, y),
{
    let p = c ^ (x as u32);
    let q = c ^ (y as u32);
    assert(x != y ==> (c ^ (x as u32)) != (c ^ (y as u32))) by (bit_vector);
    lemma_eight_steps_injective(p, q);
}

proof fn lemma_eight_steps_injective(p: u32, q: u32)
    requires
        p != q,
    ensures
        bit_step(bit_step(bit_step(bit_step(bit_step(bit_step(bit_step(bit_step(p))))))))
            != bit_step(bit_step(bit_step(bit_step(bit_step(bit_step(bit_step(bit_step(q)))))))),
{
    lemma_bit_step_injective(p, q);
    let p1 = bit_step(p);
    let q1 = bit_step(q);
    lemma_bit_step_injective(p1, q1);
    let p2 = bit_step(p1);
    let q2 = bit_step(q1);
    lemma_bit_step_injective(p2, q2);
    let p3 = bit_step(p2);
    let q3 = bit_step(q2);
    lemma_bit_step_injective(p3, q3);
    let p4 = bit_step(p3);
    let q4 = bit_step(q3);
    lemma_bit_step_injective(p4, q4);
    let p5 = bit_step(p4);
    let q5 = bit_step(q4);
    lemma_bit_step_injective(p5, q5);
    let p6 = bit_step(p5);
    let q6 = bit_step(q5);
    lemma_bit_step_injective(p6, q6);
    let p7 = bit_step(p6);
    let q7 = bit_step(q6);
    lemma_bit_step_injective(p7, q7);
}

/// Taking in the same bytes keeps different registers different.
pub proof fn lemma_register_injective(a: u32, b: u32, s: Seq<u8>)
    requires
        a != b,
    ensures
        register_after(a, s) != register_after(b, s),
    decreases s.len(),
{
    if s.len() > 0 {
        lemma_register_injective(a, b, s.drop_last());
        lemma_byte_step_injective(
            register_after(a, s.drop_last()),
            register_after(b, s.drop_last()),
            s.last(),
        );
    }
}

/// The register after `s + t` is the register after `t`, started from the register after `s`.
pub proof fn lemma_register_concat(init: u32, s: Seq<u8>, t: Seq<u8>)
    ensures
        register_after(init, s + t) == register_after(register_after(init, s), t),
    decreases t.len(),
{
    if t.len() == 0 {
        assert(s + t =~= s);
    } else {
        lemma_register_concat(init, s, t.drop_last());
        assert((s + t).drop_last() =~= s + t.drop_last());
        assert((s + t).last() == t.last());
    }
}

/// Data changed in a single byte has a different CRC-32C: no change confined to one byte,
/// so no flip of a single bit, goes unnoticed.
pub proof fn lemma_crc_detects_byte_change(s: Seq<u8>, i: int, b: u8)
    requires
        0 <= i < s.len(),
        b != s[i],
    ensures
        spec_value(s.update(i, b)) != spec_value(s),
{
    let init: u32 = 0xffff_ffff;
    let head = s.subrange(0, i);
    let tail = s.subrange(i + 1, s.len() as int);
    let t = s.update(i, b);
    assert(s =~= (head + seq![s[i]]) + tail);
    assert(t =~= (head + seq![b]) + tail);
    lemma_register_concat(init, head + seq![s[i]], tail);
    lemma_register_concat(init, head + seq![b], tail);
    lemma_register_concat(init, head, seq![s[i]]);
    lemma_register_concat(init, head, seq![b]);
    let r = register_after(init, head);
    assert(register_after(r, seq![s[i]]) == byte_step(r, s[i])) by {
        assert(seq![s[i]].drop_last() =~= Seq::<u8>::empty());
        assert(register_after(r, Seq::<u8>::empty()) == r);
    }
    assert(register_after(r, seq![b]) == byte_step(r, b)) by {
        assert(seq![b].drop_last() =~= Seq::<u8>::empty());
        assert(register_after(r, Seq::<u8>::empty()) == r);
    }
    lemma_byte_step_separates(r, s[i], b);
    lemma_register_injective(byte_step(r, s[i]), byte_step(r, b), tail);
    let x = register_after(init, s);
    let y = register_after(init, t);
    assert(0u32 ^ 0xffff_ffffu32 == 0xffff_ffffu32) by (bit_vector);
    assert(x != y ==> (x ^ 0xffff_ffffu32) != (y ^ 0xffff_ffffu32)) by (bit_vector);
}

fn step(c: u32) -> (r: u32)
    ensures
        r == bit_step(c),
{
    if c & 1 == 1 {
        (c >> 1) ^ CASTAGNOLI
    } else {
        c >> 1
    }
}

fn take_byte(c: u32, b: u8) -> (r: u32)
    ensures
        r == byte_step(c, b),
{
    let x: u32 = c ^ (b as u32);
    step(step(step(step(step(step(step(step(x))))))))
}

/// The CRC-32C of some data followed by `data`, given the CRC-32C `crc` of that data.
pub fn extend(crc: u32, data: &[u8]) -> (r: u32)
    ensures
        r == spec_extend(crc, data@),
{
    let mut c: u32 = crc ^ 0xffff_ffff;
    let mut i: usize = 0;
    while i < data.len()
        invariant
            i <= data@.len(),
            c == register_after((crc ^ 0xffff_ffff) as u32, data@.subrange(0, i as int)),
        decreases data@.len() - i,
    {
        proof {
            let next = data@.subrange(0, i + 1);
            assert(next.drop_last() =~= data@.subrange(0, i as int));
            assert(next.last() == data@[i as int]);
        }
        c = take_byte(c, data[i]);
        i = i + 1;
    }
    proof {
        assert(data@.subrange(0, i as int) =~= data@);
    }
    c ^ 0xffff_ffff
}

/// The CRC-32C of `data`.
pub fn value(data: &[u8]) -> (r: u32)
    ensures
        r == spec_value(data@),
{
    extend(0, data)
}

/// The masked form of `crc`, which is what gets stored: a checksum of data that itself
/// holds checksums would otherwise be weak.
pub fn mask(crc: u32) -> (r: u32)
    ensures
        r == spec_mask(crc),
{
    let rotated: u32 = (crc >> 15) | (crc << 17);
    ((rotated as u64 + MASK_DELTA as u64) % 0x1_0000_0000) as u32
}

/// The checksum of which `masked` is the masked form.
pub fn unmask(masked: u32) -> (r: u32)
    ensures
        r == spec_unmask(masked),
{
    let rotated: u32 = ((masked as u64 + 0x1_0000_0000 - MASK_DELTA as u64) % 0x1_0000_0000) as u32;
    (rotated >> 17) | (rotated << 15)
}

} // verus!
