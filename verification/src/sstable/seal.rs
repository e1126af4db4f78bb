//! Block trailers: the five bytes that follow every block in a table file, and what is
//! checked when a block is read back.
//!
//! The trailer is the byte of the compression type and the masked CRC-32C of the stored
//! contents followed by that byte.
use crate::error::Error;
use crate::options::{spec_compression_of, CompressionType};
use crate::sstable::BLOCK_TRAILER_SIZE;
use crate::util::coding::{
    decode_fixed_32_at, lemma_fixed_32_digits, lemma_fixed_32_roundtrip, put_fixed_32,
    spec_decode_fixed_32, spec_fixed_32,
};
use crate::util::crc32::{
    extend, lemma_crc_detects_byte_change, lemma_mask_unmask, lemma_register_concat,
    lemma_unmask_mask, mask, register_after, spec_extend, spec_mask, spec_unmask, spec_value,
    unmask, value,
};
use vstd::prelude::*;
use vstd::slice::slice_subrange;

verus! {

/// The checksum stored for `contents` kept under the compression byte `kind`.
pub open spec fn spec_checksum(contents: Seq<u8>, kind: u8) -> u32 {
    spec_mask(spec_value(contents.push(kind)))
}

/// The trailer of a block.
pub open spec fn spec_trailer(contents: Seq<u8>, kind: u8) -> Seq<u8> {
    seq![kind] + spec_fixed_32(spec_checksum(contents, kind))
}

/// A block with its trailer, as it lies in the file.
pub open spec fn sealed(contents: Seq<u8>, kind: u8) -> Seq<u8> {
    contents + spec_trailer(contents, kind)
}

/// Extending the checksum of some data by more data gives the checksum of both.
pub proof fn lemma_extend_value(a: Seq<u8>, b: Seq<u8>)
    ensures
        spec_extend(spec_value(a), b) == spec_value(a + b),
{
    let init: u32 = 0xffff_ffff;
    let r = register_after(init, a);
    assert(0u32 ^ 0xffff_ffffu32 == 0xffff_ffffu32) by (bit_vector);
    assert((r ^ 0xffff_ffffu32) ^ 0xffff_ffffu32 == r) by (bit_vector);
    lemma_register_concat(init, a, b);
}

/// The trailer for `contents` kept under the compression byte `kind`.
pub fn trailer(contents: &[u8], kind: u8) -> (t: Vec<u8>)
    ensures
        t@ == spec_trailer(contents@, kind),
{
    let mut t: Vec<u8> = Vec::new();
    t.push(kind);
    let crc: u32 = extend(value(contents), t.as_slice());
    proof {
        lemma_extend_value(contents@, seq![kind]);
        assert(contents@ + seq![kind] =~= contents@.push(kind));
    }
    put_fixed_32(&mut t, mask(crc));
    t
}

/// Why a block read from a file is refused.
pub enum SealFault {
    /// Fewer or more bytes than the block and its trailer take.
    Length,
    /// The checksum stored is not the checksum of the bytes.
    Checksum,
    /// The compression byte stands for no compression type.
    Kind,
}

/// What reading the bytes `raw` as a block of `size` bytes with its trailer gives: how the
/// contents are stored, and the stored contents. The checksum is looked at only where
/// `verify` asks for it.
pub open spec fn spec_open_block(raw: Seq<u8>, size: nat, verify: bool) -> Result<
    (CompressionType, Seq<u8>),
    SealFault,
> {
    if raw.len() != size + BLOCK_TRAILER_SIZE {
        Err(SealFault::Length)
    } else if verify && spec_unmask(spec_decode_fixed_32(raw, (size + 1) as int) as u32) != spec_value(
        raw.subrange(0, (size + 1) as int),
    ) {
        Err(SealFault::Checksum)
    } else {
        match spec_compression_of(raw[size as int]) {
            Some(t) => Ok((t, raw.subrange(0, size as int))),
            None => Err(SealFault::Kind),
        }
    }
}

/// The error of a block that is not as long as its handle says.
pub open spec fn bad_length(e: Error) -> bool {
    e matches Error::Corruption(m) && m@ == "truncated block read"@
}

/// The error of a block whose checksum is wrong.
pub open spec fn bad_checksum(e: Error) -> bool {
    e matches Error::Corruption(m) && m@ == "block checksum mismatch"@
}

/// The error of a block whose compression byte stands for nothing.
pub open spec fn bad_kind(e: Error) -> bool {
    e matches Error::InvalidArgument(m) && m@ == "unknown compression type"@
}

/// The error that stands for a fault.
pub open spec fn is_seal_fault(e: Error, f: SealFault) -> bool {
    match f {
        SealFault::Length => bad_length(e),
        SealFault::Checksum => bad_checksum(e),
        SealFault::Kind => bad_kind(e),
    }
}

/// Checks the bytes read for a block of `size` bytes and takes the trailer off: returns how
/// the contents are stored, and leaves the stored contents in `raw`.
///
/// Fails with `Corruption` where `raw` is not `size` and five bytes long, or where `verify`
/// is set and the checksum is wrong; with `InvalidArgument` where the compression byte
/// stands for no compression type.
pub fn open_block(raw: &mut Vec<u8>, size: usize, verify: bool) -> (r: Result<
    CompressionType,
    Error,
>)
    ensures
        match r {
            Ok(t) => spec_open_block(old(raw)@, size as nat, verify) == Ok::<
                (CompressionType, Seq<u8>),
                SealFault,
            >((t, final(raw)@)),
            Err(e) => spec_open_block(old(raw)@, size as nat, verify) matches Err(f)
                && is_seal_fault(e, f),
        },
{
    let length: usize = raw.len();
    if size > usize::MAX - BLOCK_TRAILER_SIZE || length != size + BLOCK_TRAILER_SIZE {
        return Err(Error::corruption("truncated block read"));
    }
    if verify {
        let stored: u32 = unmask(decode_fixed_32_at(raw.as_slice(), size + 1));
        let actual: u32 = value(slice_subrange(raw.as_slice(), 0, size + 1));
        if stored != actual {
            return Err(Error::corruption("block checksum mismatch"));
        }
    }
    match CompressionType::from_byte(raw[size]) {
        Some(t) => {
            raw.truncate(size);
            Ok(t)
        },
        None => Err(Error::invalid_argument("unknown compression type")),
    }
}

/// A sealed block opens to what was sealed.
pub proof fn lemma_open_sealed(contents: Seq<u8>, kind: u8, verify: bool)
    ensures
        spec_open_block(sealed(contents, kind), contents.len(), verify) == match spec_compression_of(
            kind,
        ) {
            Some(t) => Ok::<(CompressionType, Seq<u8>), SealFault>((t, contents)),
            None => Err::<(CompressionType, Seq<u8>), SealFault>(SealFault::Kind),
        },
{
    let raw = sealed(contents, kind);
    let n = contents.len() as int;
    let sum = spec_checksum(contents, kind);
    assert(raw =~= (contents + seq![kind]) + spec_fixed_32(sum) + Seq::<u8>::empty());
    lemma_fixed_32_roundtrip(sum, contents + seq![kind], Seq::<u8>::empty());
    lemma_unmask_mask(spec_value(contents.push(kind)));
    assert(raw.subrange(0, n + 1) =~= contents.push(kind));
    assert(raw.subrange(0, n) =~= contents);
    assert(raw[n] == kind);
}

/// A sealed block in which a single byte was changed, wherever, does not pass the check
/// of its checksum: no flip of a single bit in the contents or the trailer goes unnoticed.
pub proof fn lemma_seal_detects_change(contents: Seq<u8>, kind: u8, i: int, b: u8)
    requires
        0 <= i < sealed(contents, kind).len(),
        b != sealed(contents, kind)[i],
    ensures
        spec_open_block(sealed(contents, kind).update(i, b), contents.len(), true) == Err::<
            (CompressionType, Seq<u8>),
            SealFault,
        >(SealFault::Checksum),
{
    let raw = sealed(contents, kind);
    let bad = raw.update(i, b);
    let n = contents.len() as int;
    let sum = spec_checksum(contents, kind);
    let covered = contents.push(kind);
    assert(raw =~= (contents + seq![kind]) + spec_fixed_32(sum) + Seq::<u8>::empty());
    lemma_fixed_32_roundtrip(sum, contents + seq![kind], Seq::<u8>::empty());
    lemma_unmask_mask(spec_value(covered));
    assert(raw.subrange(0, n + 1) =~= covered);
    if i <= n {
        // the change is in what the checksum covers; the stored checksum is as it was
        assert(bad.subrange(0, n + 1) =~= covered.update(i, b));
        lemma_crc_detects_byte_change(covered, i, b);
        assert(spec_decode_fixed_32(bad, n + 1) == spec_decode_fixed_32(raw, n + 1));
    } else {
        // the change is in the stored checksum; what it covers is as it was
        assert(bad.subrange(0, n + 1) =~= covered);
        lemma_fixed_32_digits(raw, n + 1);
        lemma_fixed_32_digits(bad, n + 1);
        let x = spec_decode_fixed_32(raw, n + 1) as u32;
        let y = spec_decode_fixed_32(bad, n + 1) as u32;
        assert(x != y);
        lemma_mask_unmask(x);
        lemma_mask_unmask(y);
    }
}

} // verus!
