//! The table file format: block handles and the footer that anchors a table file.
//!
//! A table file is a run of data blocks, an optional filter block, a metaindex block, an
//! index block and a footer of fixed length. Every block is followed by a trailer of five
//! bytes: the compression type and a masked CRC-32C of the block and that type byte.
pub mod block;
pub mod block_builder;
pub mod block_proofs;
pub mod filter_block;
pub mod seal;
pub mod table;
pub mod table_builder;
pub mod table_iterator;
pub mod table_model;
pub mod table_order;
pub mod table_proofs;

use crate::error::Error;
use crate::util::coding::{
    decode_fixed_64_at, le_byte, lemma_fixed_64_injective, lemma_fixed_64_roundtrip,
    put_fixed_64, spec_decode_fixed_64, spec_fixed_64,
};
use crate::util::varint::{
    lemma_pow128_bounds, lemma_varint_len, lemma_varint_roundtrip, spec_read_u64, spec_varint,
    varint_at, VarintU64,
};
use vstd::prelude::*;

verus! {

/// The number that ends every table file.
pub const TABLE_MAGIC_NUMBER: u64 = 0xdb4775248b80fb57;

/// Bytes that follow every block: one for the compression type, four for the checksum.
pub const BLOCK_TRAILER_SIZE: usize = 5;

/// The most bytes an encoded `BlockHandle` takes.
pub const MAX_BLOCK_HANDLE_ENCODE_LENGTH: usize = 20;

/// The length of an encoded footer: two padded block handles and the magic number.
pub const FOOTER_ENCODED_LENGTH: usize = 48;

/// Where a block lies in the file: its offset and its size, the trailer not counted.
#[derive(PartialEq, Eq, Structural, Debug, Clone, Copy)]
pub struct BlockHandle {
    pub offset: u64,
    pub size: u64,
}

/// The encoding of a handle: its offset, then its size, as varints.
pub open spec fn spec_encode_handle(h: BlockHandle) -> Seq<u8> {
    spec_varint(h.offset as nat) + spec_varint(h.size as nat)
}

/// The handle encoded at `pos` in `s`, with the number of bytes it takes; `None` where one
/// of the two varints is missing or too long.
pub open spec fn spec_decode_handle(s: Seq<u8>, pos: int) -> Option<(BlockHandle, nat)> {
    match spec_read_u64(s, pos) {
        Some((offset, n)) => match spec_read_u64(s, pos + n) {
            Some((size, m)) => Some((BlockHandle { offset, size }, n + m)),
            None => None,
        },
        None => None,
    }
}

/// An encoded handle is between two and twenty bytes long.
pub proof fn lemma_handle_len(h: BlockHandle)
    ensures
        2 <= spec_encode_handle(h).len() <= MAX_BLOCK_HANDLE_ENCODE_LENGTH,
{
    lemma_pow128_bounds();
    lemma_varint_len(h.offset as nat, 10);
    lemma_varint_len(h.size as nat, 10);
}

/// Decoding an encoded handle gives the handle back, whatever stands before and after the
/// encoding.
pub proof fn lemma_handle_roundtrip(h: BlockHandle, before: Seq<u8>, after: Seq<u8>)
    ensures
        spec_decode_handle(before + spec_encode_handle(h) + after, before.len() as int) == Some(
            (h, spec_encode_handle(h).len()),
        ),
{
    lemma_pow128_bounds();
    lemma_varint_len(h.offset as nat, 10);
    lemma_varint_len(h.size as nat, 10);
    let a = spec_varint(h.offset as nat);
    let b = spec_varint(h.size as nat);
    let s = before + spec_encode_handle(h) + after;
    assert(s =~= before + a + (b + after));
    lemma_varint_roundtrip(h.offset as nat, before, b + after, 10);
    assert(s =~= (before + a) + b + after);
    lemma_varint_roundtrip(h.size as nat, before + a, after, 10);
    assert(varint_at(s, before.len() as int, 10) == Some((h.offset as nat, a.len())));
    assert(varint_at(s, (before.len() + a.len()) as int, 10) == Some((h.size as nat, b.len())));
}

impl BlockHandle {
    pub fn new(offset: u64, size: u64) -> (h: Self)
        ensures
            h == (BlockHandle { offset, size }),
    {
        Self { offset, size }
    }

    /// Sets the offset and leaves the size.
    pub fn set_offset(&mut self, offset: u64)
        ensures
            *final(self) == (BlockHandle { offset, size: old(self).size }),
    {
        self.offset = offset;
    }

    /// Sets the size and leaves the offset.
    pub fn set_size(&mut self, size: u64)
        ensures
            *final(self) == (BlockHandle { offset: old(self).offset, size }),
    {
        self.size = size
    }

    /// Appends the encoding of the handle to `dst`.
    pub fn encoded_to(&self, dst: &mut Vec<u8>)
        ensures
            final(dst)@ == old(dst)@ + spec_encode_handle(*self),
    {
        VarintU64::put_varint(dst, self.offset);
        VarintU64::put_varint(dst, self.size);
        assert(dst@ =~= old(dst)@ + spec_encode_handle(*self));
    }

    /// The encoding of the handle.
    pub fn encoded(&self) -> (v: Vec<u8>)
        ensures
            v@ == spec_encode_handle(*self),
    {
        let mut v: Vec<u8> = Vec::new();
        self.encoded_to(&mut v);
        assert(v@ =~= spec_encode_handle(*self));
        v
    }

    /// Decodes the handle at the start of `src` and says how many bytes it took. Fails with
    /// `Corruption("bad block handle")` exactly when one of the two varints cannot be read.
    pub fn decode_from(src: &[u8]) -> (r: Result<(Self, usize), Error>)
        ensures
            match r {
                Ok((h, n)) => spec_decode_handle(src@, 0) == Some((h, n as nat)) && n
                    <= src.len(),
                Err(e) => spec_decode_handle(src@, 0) is None && bad_handle(e),
            },
    {
        Self::decode_at(src, 0)
    }

    /// Decodes the handle that starts at `pos` in `src` and says how many bytes it took.
    /// Fails with `Corruption("bad block handle")` exactly when one of the two varints
    /// cannot be read.
    pub fn decode_at(src: &[u8], pos: usize) -> (r: Result<(Self, usize), Error>)
        ensures
            match r {
                Ok((h, n)) => spec_decode_handle(src@, pos as int) == Some((h, n as nat)) && pos
                    + n <= src.len() && 2 <= n <= 20,
                Err(e) => spec_decode_handle(src@, pos as int) is None && bad_handle(e),
            },
    {
        if let Some((offset, n)) = VarintU64::read_at(src, pos) {
            if let Some((size, m)) = VarintU64::read_at(src, pos + n) {
                Ok((Self::new(offset, size), m + n))
            } else {
                Err(Error::corruption("bad block handle"))
            }
        } else {
            Err(Error::corruption("bad block handle"))
        }
    }
}

/// The error of a handle that cannot be decoded.
pub open spec fn bad_handle(e: Error) -> bool {
    e matches Error::Corruption(m) && m@ == "bad block handle"@
}

/// The error of a footer whose magic number is wrong.
pub open spec fn bad_magic(e: Error) -> bool {
    e matches Error::Corruption(m) && m@ == "not an sstable (bad magic number)"@
}

/// What ends every table file: the handles of the metaindex block and of the index block.
#[derive(Debug)]
pub struct Footer {
    pub meta_index_handle: BlockHandle,
    pub index_handle: BlockHandle,
}

/// The encoding of a footer: the two handles, zeros up to forty bytes, the magic number.
pub open spec fn spec_encode_footer(f: Footer) -> Seq<u8> {
    let handles = spec_encode_handle(f.meta_index_handle) + spec_encode_handle(f.index_handle);
    handles + Seq::new((40 - handles.len()) as nat, |i: int| 0u8) + spec_fixed_64(
        TABLE_MAGIC_NUMBER,
    )
}

/// What decoding the footer at the start of `s` gives: the magic number is looked at first,
/// in the eight bytes from byte 40 on, then the two handles are read from the start of `s`.
/// Bytes that `s` does not have count as zero, so that a footer cut short has no magic
/// number.
pub open spec fn spec_decode_footer(s: Seq<u8>) -> Result<(Footer, nat), FooterFault> {
    if spec_decode_fixed_64(s, 40) != TABLE_MAGIC_NUMBER {
        Err(FooterFault::BadMagic)
    } else {
        match spec_decode_handle(s, 0) {
            Some((meta_index_handle, n)) => match spec_decode_handle(s, n as int) {
                Some((index_handle, m)) => Ok((Footer { meta_index_handle, index_handle }, n + m)),
                None => Err(FooterFault::BadHandle),
            },
            None => Err(FooterFault::BadHandle),
        }
    }
}

/// Fewer than 48 bytes do not hold the magic number: its last byte is not zero.
pub proof fn lemma_short_footer(s: Seq<u8>)
    requires
        s.len() < FOOTER_ENCODED_LENGTH,
    ensures
        spec_decode_footer(s) == Err::<(Footer, nat), FooterFault>(FooterFault::BadMagic),
{
    assert(le_byte(s, 47) == 0);
    assert(spec_decode_fixed_64(s, 40) < 0x0100_0000_0000_0000);
}

/// Why a footer cannot be decoded.
pub enum FooterFault {
    BadMagic,
    BadHandle,
}

/// The error that stands for a footer that cannot be decoded.
pub open spec fn is_footer_fault(e: Error, fault: FooterFault) -> bool {
    match fault {
        FooterFault::BadMagic => bad_magic(e),
        FooterFault::BadHandle => bad_handle(e),
    }
}

/// An encoded footer is 48 bytes long.
pub proof fn lemma_footer_len(f: Footer)
    ensures
        spec_encode_footer(f).len() == FOOTER_ENCODED_LENGTH,
{
    lemma_handle_len(f.meta_index_handle);
    lemma_handle_len(f.index_handle);
}

/// Decoding an encoded footer gives the footer back.
pub proof fn lemma_footer_roundtrip(f: Footer)
    ensures
        spec_decode_footer(spec_encode_footer(f)) == Ok::<(Footer, nat), FooterFault>(
            (
                f,
                spec_encode_handle(f.meta_index_handle).len() + spec_encode_handle(
                    f.index_handle,
                ).len(),
            ),
        ),
{
    lemma_handle_len(f.meta_index_handle);
    lemma_handle_len(f.index_handle);
    let a = spec_encode_handle(f.meta_index_handle);
    let b = spec_encode_handle(f.index_handle);
    let pad = Seq::new((40 - (a + b).len()) as nat, |i: int| 0u8);
    let magic = spec_fixed_64(TABLE_MAGIC_NUMBER);
    let s = spec_encode_footer(f);
    assert(s =~= (a + b + pad) + magic + Seq::<u8>::empty());
    lemma_fixed_64_roundtrip(TABLE_MAGIC_NUMBER, a + b + pad, Seq::<u8>::empty());
    assert(s =~= Seq::<u8>::empty() + a + (b + pad + magic));
    lemma_handle_roundtrip(f.meta_index_handle, Seq::<u8>::empty(), b + pad + magic);
    assert(s =~= a + b + (pad + magic));
    lemma_handle_roundtrip(f.index_handle, a, pad + magic);
}

/// A footer whose last eight bytes are not the magic number is refused for its magic number,
/// whatever else it holds: in particular an encoded footer with any one of those bytes changed.
pub proof fn lemma_footer_magic_guard(f: Footer, i: int, b: u8)
    requires
        40 <= i < 48,
        b != spec_encode_footer(f)[i],
    ensures
        spec_decode_footer(spec_encode_footer(f).update(i, b)) == Err::<
            (Footer, nat),
            FooterFault,
        >(FooterFault::BadMagic),
{
    lemma_footer_len(f);
    lemma_handle_len(f.meta_index_handle);
    lemma_handle_len(f.index_handle);
    let s = spec_encode_footer(f);
    let t = s.update(i, b);
    let magic = spec_fixed_64(TABLE_MAGIC_NUMBER);
    assert forall|j: int| 0 <= j < 8 implies s[40 + j] == magic[j] by {}
    lemma_footer_roundtrip(f);
    assert(spec_decode_fixed_64(s, 40) == TABLE_MAGIC_NUMBER);
    assert(forall|j: int| 40 <= j < 48 && j != i ==> t[j] == s[j]);
    assert(t[i] == b);
    lemma_fixed_64_injective(s, t, 40);
}

impl Footer {
    pub fn new(meta_index_handle: BlockHandle, index_handle: BlockHandle) -> (f: Self)
        ensures
            f == (Footer { meta_index_handle, index_handle }),
    {
        Self { meta_index_handle, index_handle }
    }

    /// Decodes a footer from the first 48 bytes of `src` and says how many bytes the two
    /// handles took. The magic number is checked first: a wrong one gives
    /// `Corruption("not an sstable (bad magic number)")`, and so does every `src` of fewer
    /// than 48 bytes; then a handle that cannot be read gives
    /// `Corruption("bad block handle")`.
    pub fn decode_from(src: &[u8]) -> (r: Result<(Self, usize), Error>)
        ensures
            src@.len() < FOOTER_ENCODED_LENGTH ==> (r matches Err(e) && bad_magic(e)),
            match r {
                Ok((f, n)) => spec_decode_footer(src@) == Ok::<(Footer, nat), FooterFault>(
                    (f, n as nat),
                ),
                Err(e) => match spec_decode_footer(src@) {
                    Err(FooterFault::BadMagic) => bad_magic(e),
                    Err(FooterFault::BadHandle) => bad_handle(e),
                    Ok(_) => false,
                },
            },
    {
        let magic: u64 = decode_fixed_64_at(src, FOOTER_ENCODED_LENGTH - 8);
        proof {
            if src@.len() < FOOTER_ENCODED_LENGTH {
                lemma_short_footer(src@);
            }
        }
        if magic != TABLE_MAGIC_NUMBER {
            return Err(Error::corruption("not an sstable (bad magic number)"));
        }
        let (meta_index_handle, n) = match BlockHandle::decode_at(src, 0) {
            Ok(x) => x,
            Err(e) => {
                return Err(e);
            },
        };
        let (index_handle, m) = match BlockHandle::decode_at(src, n) {
            Ok(x) => x,
            Err(e) => {
                return Err(e);
            },
        };
        Ok((Self { meta_index_handle, index_handle }, m + n))
    }

    /// The 48 bytes that encode the footer.
    pub fn encoded(&self) -> (v: Vec<u8>)
        ensures
            v@ == spec_encode_footer(*self),
            v@.len() == FOOTER_ENCODED_LENGTH,
    {
        let mut v: Vec<u8> = Vec::new();
        self.meta_index_handle.encoded_to(&mut v);
        self.index_handle.encoded_to(&mut v);
        proof {
            lemma_handle_len(self.meta_index_handle);
            lemma_handle_len(self.index_handle);
        }
        let ghost handles = v@;
        while v.len() < 2 * MAX_BLOCK_HANDLE_ENCODE_LENGTH
            invariant
                handles.len() <= v@.len() <= 40,
                v@ =~= handles + Seq::new((v@.len() - handles.len()) as nat, |i: int| 0u8),
            decreases 40 - v@.len(),
        {
            v.push(0);
        }
        put_fixed_64(&mut v, TABLE_MAGIC_NUMBER);
        assert(v@ =~= spec_encode_footer(*self));
        v
    }
}

} // verus!
