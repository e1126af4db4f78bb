//! Reading a table file: point lookups, and a cursor over all its entries.
use crate::error::Error;
use crate::filter::FilterPolicy;
use crate::options::{
    decompress_follows, spec_answer, BlockCache, Codec, CompressionType, Options, ReadOptions,
};
use crate::sstable::{
    is_footer_fault, lemma_footer_len, lemma_footer_magic_guard, spec_decode_footer,
    spec_decode_handle, spec_encode_footer, BlockHandle, Footer, FooterFault, BLOCK_TRAILER_SIZE,
    FOOTER_ENCODED_LENGTH,
};
use crate::sstable::block::{
    bad_block, block_entries, is_lower_bound, parsable, regular, sorted, Block, BlockIterator,
    Cursor,
};
use crate::sstable::filter_block::{spec_key_may_match, FilterBlockReader};
use crate::sstable::seal::{
    bad_length, is_seal_fault, lemma_seal_detects_change, open_block, sealed, spec_open_block,
    SealFault,
};
use crate::sstable::table_builder::filter_key;
use crate::sstable::table_model::{
    block_at, block_count, contents_at, data_at, data_handle, entry_handle, filter_entry,
    filter_in_order, filter_sound, footer_bytes, footer_of, has_footer, in_file, index_data,
    index_entries, lemma_table_index, lemma_table_ordered, meta_data, meta_in_order, raw_at,
    readable_at, spec_filter_key, table_blocks, table_entries, table_in_order, Image,
};
use crate::sstable::table_order::{
    found_in, lemma_bound_at_key, lemma_lower_bound_decides, lemma_two_step_lookup,
};
use crate::storage::{can_serve, cannot_serve, read_fully, serves, short_read, File};
use crate::util::coding::bytes_equal;
use crate::util::comparator::{exact_order, BytewiseComparator, Comparator, Order};
use std::sync::Arc;
use vstd::prelude::*;
use vstd::slice::slice_to_vec;

verus! {

/// The error of a compressed block that the codec cannot read.
pub open spec fn bad_compression(e: Error) -> bool {
    e matches Error::Corruption(m) && m@ == "corrupted compressed block contents"@
}

/// `file` serves the bytes of `f`, `codec` undoes compression as `f` says, and the block
/// of `h` can be read in `f`.
pub open spec fn serves_block<F: File, Z: Codec>(file: &F, codec: Z, f: Image, h: BlockHandle) -> bool {
    serves(file, f.bytes) && decompress_follows(codec, f.expand) && readable_at(f, h)
}

/// Whatever `file` serves and `codec` undoes, where the block of `h` can be read, the
/// bytes of that block are `data`.
pub open spec fn block_from<F: File, Z: Codec>(file: &F, codec: Z, h: BlockHandle, data: Seq<u8>) -> bool {
    forall|f: Image| #[trigger] serves_block(file, codec, f, h) ==> data == block_at(f, h)
}

/// `file` serves `f`, in which the block of `h` lies but cannot be opened, for `fault`:
/// its checksum is looked at only where `verify` asks for it.
pub open spec fn serves_faulty<F: File>(
    file: &F,
    f: Seq<u8>,
    h: BlockHandle,
    verify: bool,
    fault: SealFault,
) -> bool {
    serves(file, f) && in_file(f, h) && spec_open_block(raw_at(f, h), h.size as nat, verify)
        == Err::<(CompressionType, Seq<u8>), SealFault>(fault)
}

/// `file` serves `f`, which is too short to hold the block of `h` and its trailer.
pub open spec fn serves_short<F: File>(file: &F, f: Seq<u8>, h: BlockHandle) -> bool {
    serves(file, f) && !in_file(f, h)
}

/// `file` serves the bytes of `f`, `codec` undoes compression as `f` says, and the block
/// of `h` lies in `f` and can be opened, but is stored compressed in a form that cannot be
/// undone.
pub open spec fn serves_unknown<F: File, Z: Codec>(
    file: &F,
    codec: Z,
    f: Image,
    h: BlockHandle,
    verify: bool,
) -> bool {
    &&& serves(file, f.bytes)
    &&& decompress_follows(codec, f.expand)
    &&& in_file(f.bytes, h)
    &&& spec_open_block(raw_at(f.bytes, h), h.size as nat, verify) matches Ok(x)
    &&& x.0 == CompressionType::Snappy
    &&& (f.expand)(x.1) is None
}

/// Reads the block of `handle` from `file`: checks its trailer, takes it off, and undoes
/// the compression.
///
/// Fails where the file fails. From a file that serves contents: fails with an I/O error,
/// or with `Corruption` for a handle too large for this machine, where the contents are too
/// short for the block and its trailer; with `Corruption` where `verify` is set and the
/// checksum is wrong, or the codec cannot read a compressed block; with `InvalidArgument`
/// where the compression byte stands for no compression type; and else the bytes of the
/// block come back, the compression undone.
pub fn read_block<F: File, Z: Codec>(file: &F, codec: &Z, handle: &BlockHandle, verify: bool) -> (r:
    Result<Vec<u8>, Error>)
    ensures
        forall|f: Image| #[trigger]
            serves_block(file, *codec, f, *handle) ==> (r matches Ok(v) && v@ == block_at(
                f,
                *handle,
            )),
        forall|f: Seq<u8>, fault: SealFault| #[trigger]
            serves_faulty(file, f, *handle, verify, fault) ==> (r matches Err(e) && is_seal_fault(
                e,
                fault,
            )),
        forall|f: Image| #[trigger]
            serves_unknown(file, *codec, f, *handle, verify) ==> (r matches Err(e)
                && bad_compression(e)),
        forall|f: Seq<u8>| #[trigger]
            serves_short(file, f, *handle) ==> (r matches Err(e) && (short_read(e) || bad_length(
                e,
            ))),
{
    if handle.size > (usize::MAX - BLOCK_TRAILER_SIZE) as u64 {
        return Err(Error::corruption("truncated block read"));
    }
    let size: usize = handle.size as usize;
    let read = read_fully(file, handle.offset, size + BLOCK_TRAILER_SIZE);
    proof {
        assert forall|f: Image| #[trigger] serves_block(file, *codec, f, *handle) implies (
        read matches Ok(v) && v@ == raw_at(f.bytes, *handle)) by {
            assert(can_serve(file, f.bytes, handle.offset, (size + BLOCK_TRAILER_SIZE) as usize));
        }
        assert forall|f: Seq<u8>| #[trigger] serves_short(file, f, *handle) implies (
        read matches Err(e) && short_read(e)) by {
            assert(cannot_serve(file, f, handle.offset, (size + BLOCK_TRAILER_SIZE) as usize));
        }
        assert forall|f: Seq<u8>, fault: SealFault| #[trigger]
            serves_faulty(file, f, *handle, verify, fault) implies (read matches Ok(v) && v@
            == raw_at(f, *handle)) by {
            assert(can_serve(file, f, handle.offset, (size + BLOCK_TRAILER_SIZE) as usize));
        }
        assert forall|f: Image| #[trigger]
            serves_unknown(file, *codec, f, *handle, verify) implies (read matches Ok(v) && v@
            == raw_at(f.bytes, *handle)) by {
            assert(can_serve(file, f.bytes, handle.offset, (size + BLOCK_TRAILER_SIZE) as usize));
        }
    }
    let mut raw = match read {
        Ok(raw) => raw,
        Err(e) => {
            return Err(e);
        },
    };
    let ghost sealed_bytes = raw@;
    let opened = open_block(&mut raw, size, verify);
    proof {

        assert forall|f: Image| #[trigger] serves_block(file, *codec, f, *handle) implies (
        opened matches Ok(kind) && spec_open_block(raw_at(f.bytes, *handle), size as nat, true)
            == Ok::<(CompressionType, Seq<u8>), SealFault>((kind, raw@)) && raw@ == contents_at(
            f.bytes,
            *handle,
        )) by {
            assert(sealed_bytes == raw_at(f.bytes, *handle));
            assert(sealed_bytes.subrange(0, size as int) =~= contents_at(f.bytes, *handle));
        }
    }
    let kind = match opened {
        Ok(kind) => kind,
        Err(e) => {
            return Err(e);
        },
    };
    match kind {
        CompressionType::NoCompression => Ok(raw),
        CompressionType::Snappy => {
            let stored = raw.as_slice();
            let expanded = codec.decompress(stored);
            proof {
                assert forall|f: Image| #[trigger]
                    serves_block(file, *codec, f, *handle) implies spec_answer(expanded) == (
                f.expand)(raw@) by {
                    assert(call_ensures(Z::decompress, (codec, stored), expanded));
                }
                assert forall|f: Image| #[trigger]
                    serves_unknown(file, *codec, f, *handle, verify) implies spec_answer(expanded)
                    == (f.expand)(raw@) by {
                    assert(call_ensures(Z::decompress, (codec, stored), expanded));
                }
            }
            match expanded {
                Some(contents) => Ok(contents),
                None => Err(Error::corruption("corrupted compressed block contents")),
            }
        },
    }
}

/// A file in which one byte of a sealed block was changed, in its contents or in its
/// trailer, holds a block that cannot be opened for its checksum: reading that block with
/// the checksum looked at fails with `Corruption`.
pub proof fn lemma_change_is_refused<F: File>(
    file: &F,
    f: Seq<u8>,
    h: BlockHandle,
    stored: Seq<u8>,
    kind: u8,
    i: int,
    b: u8,
)
    requires
        in_file(f, h),
        h.size == stored.len(),
        raw_at(f, h) == sealed(stored, kind),
        h.offset <= i < h.offset + h.size + BLOCK_TRAILER_SIZE,
        b != f[i],
        serves(file, f.update(i, b)),
    ensures
        serves_faulty(file, f.update(i, b), h, true, SealFault::Checksum),
{
    assert(raw_at(f.update(i, b), h) =~= raw_at(f, h).update(i - h.offset, b));
    lemma_seal_detects_change(stored, kind, i - h.offset, b);
}

/// `file` serves `f`, which is `file_len` bytes long.
pub open spec fn serves_whole<F: File>(file: &F, f: Seq<u8>, file_len: u64) -> bool {
    serves(file, f) && f.len() == file_len
}

/// The error of a file that is shorter than a footer.
pub open spec fn too_short(e: Error) -> bool {
    e matches Error::Corruption(m) && m@ == "file is too short to be an sstable"@
}

/// `file` serves `f`, which is `file_len` bytes long and ends in 48 bytes that cannot be
/// decoded as a footer, for `fault`.
pub open spec fn serves_broken<F: File>(file: &F, f: Seq<u8>, file_len: u64, fault: FooterFault) -> bool {
    serves_whole(file, f, file_len) && f.len() >= FOOTER_ENCODED_LENGTH && spec_decode_footer(
        footer_bytes(f),
    ) == Err::<(Footer, nat), FooterFault>(fault)
}

/// A file that ends in an encoded footer in which one byte of the magic number was
/// changed ends in 48 bytes that cannot be decoded, for their magic number: opening it
/// fails with `Corruption`, the magic number being wrong.
pub proof fn lemma_changed_magic_is_refused<F: File>(
    file: &F,
    w: Seq<u8>,
    footer: Footer,
    i: int,
    b: u8,
)
    requires
        FOOTER_ENCODED_LENGTH - 8 <= i < FOOTER_ENCODED_LENGTH,
        b != spec_encode_footer(footer)[i],
        serves(file, w + spec_encode_footer(footer).update(i, b)),
    ensures
        serves_broken(
            file,
            w + spec_encode_footer(footer).update(i, b),
            (w.len() + FOOTER_ENCODED_LENGTH) as u64,
            FooterFault::BadMagic,
        ),
{
    let changed = spec_encode_footer(footer).update(i, b);
    lemma_footer_len(footer);
    lemma_footer_magic_guard(footer, i, b);
    assert(footer_bytes(w + changed) =~= changed);
}

/// Reads the footer of `file`, which is `file_len` bytes long.
///
/// Fails with `Corruption` where the file is shorter than a footer, the magic number is
/// wrong or a handle cannot be read; and where the file fails. From a file that serves
/// contents that end in a footer, that footer comes back.
pub fn read_footer<F: File>(file: &F, file_len: u64) -> (r: Result<Footer, Error>)
    ensures
        file_len < FOOTER_ENCODED_LENGTH ==> (r matches Err(e) && too_short(e)),
        forall|f: Seq<u8>| #[trigger]
            serves_whole(file, f, file_len) && has_footer(f) ==> (r matches Ok(footer) && footer
                == footer_of(f)),
        forall|f: Seq<u8>, fault: FooterFault| #[trigger]
            serves_broken(file, f, file_len, fault) ==> (r matches Err(e) && is_footer_fault(
                e,
                fault,
            )),
{
    if file_len < FOOTER_ENCODED_LENGTH as u64 {
        return Err(Error::corruption("file is too short to be an sstable"));
    }
    let read = read_fully(file, file_len - FOOTER_ENCODED_LENGTH as u64, FOOTER_ENCODED_LENGTH);
    proof {
        assert forall|f: Seq<u8>| #[trigger] serves_whole(file, f, file_len) implies (read matches Ok(
            v,
        ) && v@ == footer_bytes(f)) by {
            assert(can_serve(
                file,
                f,
                (file_len - FOOTER_ENCODED_LENGTH) as u64,
                FOOTER_ENCODED_LENGTH,
            ));
        }
    }
    proof {
        assert forall|f: Seq<u8>, fault: FooterFault| #[trigger]
            serves_broken(file, f, file_len, fault) implies (read matches Ok(v) && v@
            == footer_bytes(f)) by {
            assert(serves_whole(file, f, file_len));
        }
    }
    let bytes = match read {
        Ok(b) => b,
        Err(e) => {
            return Err(e);
        },
    };
    match Footer::decode_from(bytes.as_slice()) {
        Ok((footer, _)) => Ok(footer),
        Err(e) => Err(e),
    }
}

/// `file` serves the bytes of `f`, `codec` undoes compression as `f` says, and the block
/// of `h` can be read in `f` and holds its own trailer.
pub open spec fn serves_parsable<F: File, Z: Codec>(file: &F, codec: Z, f: Image, h: BlockHandle) -> bool {
    serves_block(file, codec, f, h) && parsable(block_at(f, h))
}

/// Reads the block of `handle` from `file` as `read_block` does, and checks that it holds
/// its own trailer: fails with `Corruption` where it does not.
pub fn read_whole_block<F: File, Z: Codec>(
    file: &F,
    codec: &Z,
    handle: &BlockHandle,
    verify: bool,
) -> (r: Result<Block, Error>)
    ensures
        r matches Ok(b) ==> b.wf() && block_from(file, *codec, *handle, b@),
        forall|f: Image| #[trigger]
            serves_parsable(file, *codec, f, *handle) ==> (r matches Ok(b) && b@ == block_at(
                f,
                *handle,
            )),
        forall|f: Image| #[trigger]
            serves_block(file, *codec, f, *handle) && !parsable(block_at(f, *handle)) ==> (
            r matches Err(e) && bad_block(e)),
        forall|f: Seq<u8>, fault: SealFault| #[trigger]
            serves_faulty(file, f, *handle, verify, fault) ==> (r matches Err(e) && is_seal_fault(
                e,
                fault,
            )),
        forall|f: Image| #[trigger]
            serves_unknown(file, *codec, f, *handle, verify) ==> (r matches Err(e)
                && bad_compression(e)),
        forall|f: Seq<u8>| #[trigger]
            serves_short(file, f, *handle) ==> (r matches Err(e) && (short_read(e) || bad_length(
                e,
            ))),
{
    let read = read_block(file, codec, handle, verify);
    proof {
        assert forall|f: Image| #[trigger] serves_parsable(file, *codec, f, *handle) implies (read matches Ok(
            v,
        ) && v@ == block_at(f, *handle)) by {
            assert(serves_block(file, *codec, f, *handle));
        }
    }
    let contents = match read {
        Ok(c) => c,
        Err(e) => {
            return Err(e);
        },
    };
    Block::new(contents)
}

/// Looks `key` up in the data block `block`: the value of the entry whose key stands at
/// the same place in the order as `key`, if there is one. In a regular block whose keys are
/// strictly increasing, the answer is that value, or `None` where there is no such entry.
pub fn find_in_block<C: Comparator>(block: &Block, comparator: C, key: &[u8]) -> (r: Result<
    Option<Vec<u8>>,
    Error,
>)
    requires
        block.wf(),
    ensures
        regular(block@) && sorted(block_entries(block@), comparator) ==> (r matches Ok(o)
            && found_in(block_entries(block@), comparator, key@, spec_answer(o))),
{
    let mut it = block.iter(comparator);
    it.seek(key);
    proof {
        if regular(block@) && sorted(block_entries(block@), comparator) {
            it.lemma_inv_regular();
            lemma_lower_bound_decides(block_entries(block@), comparator, key@, it.landing());
        }
    }
    if it.valid() {
        match comparator.compare(it.key(), key) {
            Order::Equal => Ok(Some(slice_to_vec(it.value()))),
            _ => Ok(None),
        }
    } else {
        match it.status() {
            Ok(_) => Ok(None),
            Err(e) => Err(e),
        }
    }
}

/// `file` serves `f`, which is `file_len` bytes long and ends in a footer, and in which
/// the index block lies but cannot be opened, for `fault`.
pub open spec fn serves_faulty_index<F: File>(
    file: &F,
    f: Seq<u8>,
    file_len: u64,
    verify: bool,
    fault: SealFault,
) -> bool {
    serves_whole(file, f, file_len) && has_footer(f) && serves_faulty(
        file,
        f,
        footer_of(f).index_handle,
        verify,
        fault,
    )
}

/// `file` serves `f`, which is `file_len` bytes long and ends in a footer, and in which
/// the index block can be read and holds its own trailer, while the metaindex block lies in
/// it but cannot be opened, for `fault`.
pub open spec fn serves_faulty_meta<F: File, Z: Codec>(
    file: &F,
    codec: Z,
    f: Image,
    file_len: u64,
    verify: bool,
    fault: SealFault,
) -> bool {
    &&& serves_whole(file, f.bytes, file_len)
    &&& has_footer(f.bytes)
    &&& serves_parsable(file, codec, f, footer_of(f.bytes).index_handle)
    &&& serves_faulty(file, f.bytes, footer_of(f.bytes).meta_index_handle, verify, fault)
}

/// Entry `p` of the metaindex block has the key of the filter block of `policy` and holds
/// a handle.
pub open spec fn names_filter<P: FilterPolicy>(f: Image, policy: P, p: int) -> bool {
    let es = block_entries(meta_data(f));
    &&& 0 <= p < es.len()
    &&& es[p].key == spec_filter_key(policy.spec_name())
    &&& spec_decode_handle(es[p].value, 0) is Some
}

/// `file` serves `f`, whose footer is `footer` and whose metaindex block is in order and
/// names, in its entry `p`, a filter block of `policy` that lies in `f` but cannot be opened,
/// for `fault`.
pub open spec fn faulty_filter<F: File, Z: Codec, P: FilterPolicy>(
    file: &F,
    codec: Z,
    f: Image,
    footer: Footer,
    policy: P,
    p: int,
    verify: bool,
    fault: SealFault,
) -> bool {
    &&& serves(file, f.bytes)
    &&& decompress_follows(codec, f.expand)
    &&& footer == footer_of(f.bytes)
    &&& meta_in_order(f)
    &&& names_filter(f, policy, p)
    &&& serves_faulty(
        file,
        f.bytes,
        entry_handle(block_entries(meta_data(f))[p]),
        verify,
        fault,
    )
}

/// `file` serves `f`, which is `file_len` bytes long and ends in a footer, and in which
/// the index block can be read and holds its own trailer and the metaindex block is in
/// order and names, in its entry `p`, a filter block of `policy` that lies in `f` but cannot
/// be opened, for `fault`.
pub open spec fn serves_faulty_filter<F: File, Z: Codec, P: FilterPolicy>(
    file: &F,
    codec: Z,
    f: Image,
    file_len: u64,
    policy: P,
    p: int,
    verify: bool,
    fault: SealFault,
) -> bool {
    &&& serves_whole(file, f.bytes, file_len)
    &&& has_footer(f.bytes)
    &&& serves_parsable(file, codec, f, footer_of(f.bytes).index_handle)
    &&& faulty_filter(file, codec, f, footer_of(f.bytes), policy, p, verify, fault)
}

/// An open table file.
pub struct Table<F: File, C: Comparator, P: FilterPolicy, Z: Codec, K: BlockCache> {
    file: F,
    file_number: u64,
    comparator: C,
    codec: Z,
    paranoid_checks: bool,
    filter_reader: Option<FilterBlockReader<P>>,
    index_block: Block,
    cache: Option<K>,
}

/// `file` serves `f`, whose footer is `footer` and which has a filter block of `policy` in
/// order.
pub open spec fn serves_filter<F: File, P: FilterPolicy, Z: Codec>(
    file: &F,
    codec: Z,
    f: Image,
    footer: Footer,
    policy: P,
) -> bool {
    serves(file, f.bytes) && decompress_follows(codec, f.expand) && footer == footer_of(f.bytes)
        && filter_in_order(f, policy)
}

/// Whatever block `cache` hands out for the table `id` at an offset is the block that
/// `file` serves at that offset.
pub open spec fn honest_cache<K: BlockCache, F: File, Z: Codec>(
    cache: Option<K>,
    file: &F,
    codec: Z,
    id: u64,
) -> bool {
    match cache {
        Some(k) => forall|offset: u64, d: Arc<Vec<u8>>| #[trigger]
            call_ensures(K::lookup, (&k, id, offset), Some(d)) ==> cached_from(
                file,
                codec,
                offset,
                d@,
            ),
        None => true,
    }
}

/// The bytes `data` are the block that `file` serves at `offset`, whatever the size of the
/// block.
pub open spec fn cached_from<F: File, Z: Codec>(file: &F, codec: Z, offset: u64, data: Seq<u8>) -> bool {
    forall|size: u64| #[trigger] block_from(file, codec, BlockHandle { offset, size }, data)
}

/// `file` serves `f`, which is `file_len` bytes long and a table in order under `c`.
pub open spec fn serves_table<F: File, C: Comparator, Z: Codec>(
    file: &F,
    codec: Z,
    f: Image,
    file_len: u64,
    c: C,
) -> bool {
    serves(file, f.bytes) && decompress_follows(codec, f.expand) && f.bytes.len() == file_len
        && table_in_order(f, c)
}

impl<F: File, C: Comparator, P: FilterPolicy, Z: Codec, K: BlockCache> Table<F, C, P, Z, K> {
    /// The bytes of the index block.
    pub closed spec fn index(&self) -> Seq<u8> {
        self.index_block@
    }

    /// The order of the keys.
    pub closed spec fn comparator(&self) -> C {
        self.comparator
    }

    /// The number under which the file of the table is known.
    pub closed spec fn number(&self) -> u64 {
        self.file_number
    }

    /// The file of the table.
    pub closed spec fn file(&self) -> F {
        self.file
    }

    /// Whether the checksum of every block read is looked at, whatever a read asks for.
    pub closed spec fn paranoid(&self) -> bool {
        self.paranoid_checks
    }

    /// Whether the checksum of a block read with `options` is looked at: where the read
    /// asks for it, or the table looks at all of them.
    pub open spec fn looks(&self, options: ReadOptions) -> bool {
        options.verify_checksums || self.paranoid()
    }

    /// A lookup of `key` with `options` comes to a data block that cannot be opened, for
    /// `fault`: the index block held is regular with keys in order, its entry `b` is the
    /// first whose key is no earlier than `key` and holds a handle, the cache hands out no
    /// block for the offset of that handle, the filter, if there is one, does not say that
    /// the block lacks the key, and the file serves `f`, in which the block of the handle
    /// lies but cannot be opened with the checksum looked at as `options` and the table ask.
    pub closed spec fn faulty_for(
        &self,
        f: Seq<u8>,
        key: Seq<u8>,
        options: ReadOptions,
        b: int,
        fault: SealFault,
    ) -> bool {
        let es = block_entries(self.index_block@);
        &&& regular(self.index_block@)
        &&& sorted(es, self.comparator)
        &&& is_lower_bound(es, self.comparator, key, b)
        &&& b < es.len()
        &&& spec_decode_handle(es[b].value, 0) is Some
        &&& !self.keeps(entry_handle(es[b]).offset)
        &&& self.filter_reader matches Some(fr) ==> spec_key_may_match(
            fr.policy(),
            fr.data(),
            entry_handle(es[b]).offset,
            key,
        )
        &&& serves_faulty(&self.file, f, entry_handle(es[b]), self.looks(options), fault)
    }

    /// A read of the data block of `h` with `options` that has succeeded tells that the
    /// block is none that cannot be opened, unless the cache may have handed it out.
    pub closed spec fn unfaulty(&self, h: BlockHandle, options: ReadOptions) -> bool {
        !self.keeps(h.offset) ==> forall|f: Seq<u8>, fault: SealFault|
            !#[trigger] serves_faulty(&self.file, f, h, self.looks(options), fault)
    }

    /// The error `e` of a read of the data block of `h` with `options` is the error of the
    /// fault of the block, if the block is one that cannot be opened and the cache hands out
    /// no block for it.
    pub closed spec fn refused_with(&self, h: BlockHandle, options: ReadOptions, e: Error) -> bool {
        !self.keeps(h.offset) ==> forall|f: Seq<u8>, fault: SealFault| #[trigger]
            serves_faulty(&self.file, f, h, self.looks(options), fault) ==> is_seal_fault(e, fault)
    }

    /// A block of which a read has succeeded is none that cannot be opened.
    pub proof fn lemma_unfaulty(
        &self,
        h: BlockHandle,
        options: ReadOptions,
        f: Seq<u8>,
        fault: SealFault,
    )
        requires
            self.unfaulty(h, options),
            !self.keeps(h.offset),
        ensures
            !serves_faulty(&self.file(), f, h, self.looks(options), fault),
    {
    }

    /// The error of a read of a block that cannot be opened is the error of its fault.
    pub proof fn lemma_refused_with(
        &self,
        h: BlockHandle,
        options: ReadOptions,
        e: Error,
        f: Seq<u8>,
        fault: SealFault,
    )
        requires
            self.refused_with(h, options, e),
            !self.keeps(h.offset),
            serves_faulty(&self.file(), f, h, self.looks(options), fault),
        ensures
            is_seal_fault(e, fault),
    {
    }

    /// The cache of the table may hand out a block for the offset `offset`.
    pub closed spec fn keeps(&self, offset: u64) -> bool {
        self.cache matches Some(k) && exists|d: Arc<Vec<u8>>| #[trigger]
            call_ensures(K::lookup, (&k, self.file_number, offset), Some(d))
    }

    /// Whether the table has a filter that lookups consult.
    pub closed spec fn filtered(&self) -> bool {
        self.filter_reader is Some
    }

    /// The parts agree with the bytes they were made from.
    pub closed spec fn wf(&self) -> bool {
        &&& self.index_block.wf()
        &&& self.filter_reader matches Some(fr) ==> fr.wf()
    }

    /// The table reads `f`: its file serves `f`, `f` is a table in order, the index block
    /// held is the index block of `f`, the filter block held, if any, lets every key of
    /// `f` pass, and the cache, if any, hands out only blocks that the file serves.
    pub closed spec fn reads(&self, f: Image) -> bool {
        &&& serves(&self.file, f.bytes)
        &&& decompress_follows(self.codec, f.expand)
        &&& table_in_order(f, self.comparator)
        &&& self.index_block@ == index_data(f)
        &&& self.filter_reader matches Some(fr) ==> filter_sound(f, fr.policy(), fr.data())
        &&& honest_cache(self.cache, &self.file, self.codec, self.file_number)
    }

    /// Opens the table in `file`, which is `file_len` bytes long: reads the footer, the
    /// index block, and, where `options` names a filter policy and the metaindex block
    /// holds a filter block under its name, that filter block.
    ///
    /// Fails with `Corruption` where the file is shorter than a footer, the magic number is
    /// wrong, a handle cannot be read, or a block read is refused; and where the file fails.
    /// Where the file serves a table in order, and a filter block in order of the policy
    /// named if one is named, and the cache named, if one is named, hands out only blocks
    /// that the file serves, the table is opened and reads it.
    pub fn open(file: F, file_number: u64, file_len: u64, options: &Options<C, P, Z, K>, comparator: C) -> (r:
        Result<Self, Error>)
        ensures
            r matches Ok(t) ==> t.wf() && t.comparator() == comparator && t.number()
                == file_number && t.file() == file && t.paranoid() == options.paranoid_checks,
            r matches Ok(t) ==> (options.block_cache is None ==> forall|offset: u64|
                !#[trigger] t.keeps(offset)),
            file_len < FOOTER_ENCODED_LENGTH ==> (r matches Err(e) && too_short(e)),
            forall|f: Seq<u8>, fault: SealFault| #[trigger]
                serves_faulty_index(&file, f, file_len, options.paranoid_checks, fault) ==> (
                r matches Err(e) && is_seal_fault(e, fault)),
            options.filter_policy is Some ==> forall|f: Image, fault: SealFault| #[trigger]
                serves_faulty_meta(
                    &file,
                    options.codec,
                    f,
                    file_len,
                    options.paranoid_checks,
                    fault,
                ) ==> (r matches Err(e) && is_seal_fault(e, fault)),
            options.filter_policy matches Some(policy) ==> forall|
                f: Image,
                p: int,
                fault: SealFault,
            | #[trigger]
                serves_faulty_filter(
                    &file,
                    options.codec,
                    f,
                    file_len,
                    policy,
                    p,
                    options.paranoid_checks,
                    fault,
                ) ==> (r matches Err(e) && is_seal_fault(e, fault)),
            forall|f: Seq<u8>, fault: FooterFault| #[trigger]
                serves_broken(&file, f, file_len, fault) ==> (r matches Err(e)
                    && is_footer_fault(e, fault)),
            options.filter_policy is None && honest_cache(
                options.block_cache,
                &file,
                options.codec,
                file_number,
            ) ==> forall|f: Image| #[trigger]
                serves_table(&file, options.codec, f, file_len, comparator) ==> (r matches Ok(t)
                    && t.reads(f) && !t.filtered()),
            options.filter_policy matches Some(p) ==> (honest_cache(
                options.block_cache,
                &file,
                options.codec,
                file_number,
            ) ==> forall|f: Image| #[trigger]
                serves_table(&file, options.codec, f, file_len, comparator) && filter_in_order(f, p) ==> (
                r matches Ok(t) && t.reads(f) && t.filtered())),
    {
        let found = read_footer(&file, file_len);
        proof {
            assert forall|f: Image| #[trigger]
                serves_table(&file, options.codec, f, file_len, comparator) implies (found matches Ok(footer)
                && footer == footer_of(f.bytes)) && serves_parsable(
                &file,
                options.codec,
                f,
                footer_of(f.bytes).index_handle,
            ) by {
                lemma_table_index(f, comparator);
                assert(serves_whole(&file, f.bytes, file_len));
            }
        }
        proof {
            assert forall|f: Seq<u8>| #[trigger] serves_whole(&file, f, file_len) && has_footer(
                f,
            ) implies (found matches Ok(footer) && footer == footer_of(f)) by {}
        }
        let footer = match found {
            Ok(f) => f,
            Err(e) => {
                return Err(e);
            },
        };
        let index = read_whole_block(
            &file,
            &options.codec,
            &footer.index_handle,
            options.paranoid_checks,
        );
        proof {
            assert forall|f: Seq<u8>, fault: SealFault| #[trigger]
                serves_faulty_index(
                    &file,
                    f,
                    file_len,
                    options.paranoid_checks,
                    fault,
                ) implies (index matches Err(e) && is_seal_fault(e, fault)) by {
                assert(serves_whole(&file, f, file_len));
                assert(serves_faulty(
                    &file,
                    f,
                    footer.index_handle,
                    options.paranoid_checks,
                    fault,
                ));
            }
        }
        let index_block = match index {
            Ok(b) => b,
            Err(e) => {
                return Err(e);
            },
        };
        let filter_reader = match options.filter_policy {
            Some(policy) => {
                let found = Self::read_filter(&file, options, &footer, policy);
                proof {
                    assert forall|f: Image, fault: SealFault| #[trigger]
                        serves_faulty_meta(
                            &file,
                            options.codec,
                            f,
                            file_len,
                            options.paranoid_checks,
                            fault,
                        ) implies (found matches Err(e) && is_seal_fault(e, fault)) by {
                        assert(serves_whole(&file, f.bytes, file_len));
                        assert(serves_faulty(
                            &file,
                            f.bytes,
                            footer.meta_index_handle,
                            options.paranoid_checks,
                            fault,
                        ));
                    }
                    assert forall|f: Image, p: int, fault: SealFault| #[trigger]
                        serves_faulty_filter(
                            &file,
                            options.codec,
                            f,
                            file_len,
                            policy,
                            p,
                            options.paranoid_checks,
                            fault,
                        ) implies (found matches Err(e) && is_seal_fault(e, fault)) by {
                        assert(serves_whole(&file, f.bytes, file_len));
                        assert(faulty_filter(
                            &file,
                            options.codec,
                            f,
                            footer,
                            policy,
                            p,
                            options.paranoid_checks,
                            fault,
                        ));
                    }
                }
                proof {
                    assert forall|f: Image| #[trigger]
                        serves_table(&file, options.codec, f, file_len, comparator) && filter_in_order(
                            f,
                            policy,
                        ) implies (found matches Ok(Some(fr)) && fr.policy() == policy
                        && filter_sound(f, policy, fr.data())) by {
                        assert(serves_filter(&file, options.codec, f, footer, policy));
                    }
                }
                match found {
                    Ok(reader) => reader,
                    Err(e) => {
                        return Err(e);
                    },
                }
            },
            None => None,
        };
        Ok(
            Table {
                file,
                file_number,
                comparator,
                codec: options.codec,
                paranoid_checks: options.paranoid_checks,
                filter_reader,
                index_block,
                cache: options.block_cache,
            },
        )
    }

    /// Reads the filter block that the metaindex block names for `policy`, if it names one.
    /// From a file that serves a table with a filter block of the policy in order, a reader
    /// of that filter block comes back.
    fn read_filter(file: &F, options: &Options<C, P, Z, K>, footer: &Footer, policy: P) -> (r: Result<
        Option<FilterBlockReader<P>>,
        Error,
    >)
        ensures
            r matches Ok(Some(fr)) ==> fr.wf(),
            forall|f: Image| #[trigger]
                serves_filter(file, options.codec, f, *footer, policy) ==> (r matches Ok(Some(fr))
                    && fr.policy() == policy && filter_sound(f, policy, fr.data())),
            forall|f: Seq<u8>, fault: SealFault| #[trigger]
                serves_faulty(
                    file,
                    f,
                    footer.meta_index_handle,
                    options.paranoid_checks,
                    fault,
                ) ==> (r matches Err(e) && is_seal_fault(e, fault)),
            forall|f: Image, p: int, fault: SealFault| #[trigger]
                faulty_filter(
                    file,
                    options.codec,
                    f,
                    *footer,
                    policy,
                    p,
                    options.paranoid_checks,
                    fault,
                ) ==> (r matches Err(e) && is_seal_fault(e, fault)),
    {
        let meta = read_whole_block(
            file,
            &options.codec,
            &footer.meta_index_handle,
            options.paranoid_checks,
        );
        proof {
            assert forall|f: Image, p: int, fault: SealFault| #[trigger]
                faulty_filter(
                    file,
                    options.codec,
                    f,
                    *footer,
                    policy,
                    p,
                    options.paranoid_checks,
                    fault,
                ) implies (meta matches Ok(b) && b@ == meta_data(f)) by {
                assert(serves_parsable(file, options.codec, f, footer.meta_index_handle));
            }
        }
        proof {
            assert forall|f: Image| #[trigger]
                serves_filter(file, options.codec, f, *footer, policy) implies (
            meta matches Ok(b) && b@ == meta_data(f)) by {
                reveal(filter_in_order);
                assert(serves_parsable(file, options.codec, f, footer.meta_index_handle));
            }
        }
        let meta_block = match meta {
            Ok(b) => b,
            Err(e) => {
                return Err(e);
            },
        };
        let name = filter_key(policy.name());
        let order = BytewiseComparator::new();
        let mut it = meta_block.iter(order);
        it.seek(name.as_slice());
        proof {
            assert forall|f: Image| #[trigger]
                serves_filter(file, options.codec, f, *footer, policy) implies (
            it.cursor() matches Cursor::At(e) && e.key == name@ && spec_decode_handle(e.value, 0)
                is Some && readable_at(f, entry_handle(e)) && filter_sound(
                f,
                policy,
                block_at(f, entry_handle(e)),
            )) by {
                reveal(filter_in_order);
                let p = choose|p: int| #[trigger] filter_entry(f, policy, p);
                it.lemma_inv_regular();
                lemma_bound_at_key(block_entries(meta_data(f)), order, name@, it.landing(), p);
            }
        }
        proof {
            assert forall|f: Image, p: int, fault: SealFault| #[trigger]
                faulty_filter(
                    file,
                    options.codec,
                    f,
                    *footer,
                    policy,
                    p,
                    options.paranoid_checks,
                    fault,
                ) implies (it.cursor() matches Cursor::At(e) && e == block_entries(
                meta_data(f),
            )[p]) by {
                it.lemma_inv_regular();
                lemma_bound_at_key(block_entries(meta_data(f)), order, name@, it.landing(), p);
            }
        }
        if !it.valid() {
            return match it.status() {
                Ok(_) => Ok(None),
                Err(e) => Err(e),
            };
        }
        if !bytes_equal(it.key(), name.as_slice()) {
            return Ok(None);
        }
        let decoded = BlockHandle::decode_from(it.value());
        let (handle, _) = match decoded {
            Ok(h) => h,
            Err(e) => {
                return Err(e);
            },
        };
        let read = read_block(file, &options.codec, &handle, options.paranoid_checks);
        proof {
            assert forall|f: Image, p: int, fault: SealFault| #[trigger]
                faulty_filter(
                    file,
                    options.codec,
                    f,
                    *footer,
                    policy,
                    p,
                    options.paranoid_checks,
                    fault,
                ) implies (read matches Err(e) && is_seal_fault(e, fault)) by {
                assert(serves_faulty(file, f.bytes, handle, options.paranoid_checks, fault));
            }
        }
        proof {
            assert forall|f: Image| #[trigger]
                serves_filter(file, options.codec, f, *footer, policy) implies (
            read matches Ok(v) && v@ == block_at(f, handle) && filter_sound(f, policy, v@)) by {
                assert(serves_block(file, options.codec, f, handle));
            }
        }
        let filter_bytes = match read {
            Ok(c) => c,
            Err(e) => {
                return Err(e);
            },
        };
        Ok(Some(FilterBlockReader::new(policy, filter_bytes)))
    }

    /// The number under which the file of the table is known.
    pub fn file_number(&self) -> (n: u64)
        ensures
            n == self.number(),
    {
        self.file_number
    }

    /// Reads the data block of `handle`: takes it from the cache, if there is a cache and it
    /// keeps the block, and else reads it from the file and, where `options` asks for it,
    /// hands it to the cache. A block that is refused is not handed to the cache.
    ///
    /// From a file that serves contents in which the block can be read and holds its own
    /// trailer, the block comes back, if the cache is one that hands out only blocks that the
    /// file serves. Where the cache hands out no block for the offset, a block that cannot
    /// be opened is refused with the error of its fault: its checksum is looked at where
    /// `options` asks for it or the table was opened to look at all of them.
    pub fn read_data_block(&self, handle: &BlockHandle, options: ReadOptions) -> (r: Result<
        Block,
        Error,
    >)
        ensures
            r matches Ok(b) ==> b.wf() && self.block_came_from(*handle, b@),
            forall|f: Image| #[trigger]
                self.reads_block(f, *handle) ==> (r matches Ok(b) && b@ == block_at(f, *handle)),
            !self.keeps(handle.offset) ==> forall|f: Seq<u8>, fault: SealFault| #[trigger]
                serves_faulty(
                    &self.file(),
                    f,
                    *handle,
                    self.looks(options),
                    fault,
                ) ==> (r matches Err(e) && is_seal_fault(e, fault)),
            r is Ok ==> self.unfaulty(*handle, options),
            r matches Err(e) ==> self.refused_with(*handle, options, e),
    {
        match self.cache {
            Some(cache) => {
                let kept = cache.lookup(self.file_number, handle.offset);
                proof {
                    assert(call_ensures(K::lookup, (&cache, self.file_number, handle.offset), kept));
                }
                proof {
                    assert forall|f: Image| #[trigger]
                        self.reads_block(f, *handle) implies (kept matches Some(d) ==> d@
                        == block_at(f, *handle)) by {
                        if kept is Some {
                            assert(cached_from(&self.file, self.codec, handle.offset, kept->Some_0@));
                            assert(block_from(
                                &self.file,
                                self.codec,
                                BlockHandle { offset: handle.offset, size: handle.size },
                                kept->Some_0@,
                            ));
                            assert(serves_block(&self.file, self.codec, f, *handle));
                        }
                    }
                    if self.cache_honest() && kept is Some {
                        assert(cached_from(&self.file, self.codec, handle.offset, kept->Some_0@));
                        assert(block_from(
                            &self.file,
                            self.codec,
                            BlockHandle { offset: handle.offset, size: handle.size },
                            kept->Some_0@,
                        ));
                    }
                }
                match kept {
                    Some(data) => match Block::from_shared(data) {
                        Ok(block) => {
                            return Ok(block);
                        },
                        Err(_) => {},
                    },
                    None => {},
                }
            },
            None => {},
        }
        let verify: bool = options.verify_checksums || self.paranoid_checks;
        let r = read_whole_block(&self.file, &self.codec, handle, verify);
        proof {
            assert forall|f: Image| #[trigger] self.reads_block(f, *handle) implies (r matches Ok(
                b,
            ) && b@ == block_at(f, *handle)) by {
                assert(serves_parsable(&self.file, self.codec, f, *handle));
            }
        }
        match r {
            Ok(block) => {
                if options.fill_cache {
                    match self.cache {
                        Some(cache) => {
                            cache.insert(self.file_number, handle.offset, block.shared());
                        },
                        None => {},
                    }
                }
                Ok(block)
            },
            Err(e) => Err(e),
        }
    }

    /// The cache of the table, if it has one, hands out only blocks that the file serves.
    pub closed spec fn cache_honest(&self) -> bool {
        honest_cache(self.cache, &self.file, self.codec, self.file_number)
    }

    /// The file of the table serves the bytes of `f`, its codec undoes compression as `f`
    /// says, the block of `h` can be read in `f` and holds its own trailer, and the cache is
    /// honest.
    pub closed spec fn reads_block(&self, f: Image, h: BlockHandle) -> bool {
        serves_block(&self.file, self.codec, f, h) && parsable(block_at(f, h))
            && self.cache_honest()
    }

    /// If the cache is honest: whatever the file of the table serves and its codec undoes,
    /// where the block of `h` can be read, the bytes of that block are `data`.
    pub closed spec fn block_came_from(&self, h: BlockHandle, data: Seq<u8>) -> bool {
        self.cache_honest() ==> block_from(&self.file, self.codec, h, data)
    }

    /// A table that reads `f` reads every data block of `f`.
    pub proof fn lemma_reads_blocks(&self, f: Image, b: int)
        requires
            self.reads(f),
            0 <= b < block_count(f),
        ensures
            self.reads_block(f, data_handle(f, b)),
            spec_decode_handle(index_entries(f)[b].value, 0) is Some,
            regular(data_at(f, b)),
            sorted(block_entries(data_at(f, b)), self.comparator()),
            forall|data: Seq<u8>|
                self.block_came_from(data_handle(f, b), data) ==> data == data_at(f, b),
    {
        lemma_table_ordered(f, self.comparator);
        assert(spec_decode_handle(index_entries(f)[b].value, 0) is Some);
        assert(serves_block(&self.file, self.codec, f, data_handle(f, b)));
    }

    /// What a table that reads `f` reads: a table in order, whose index block it holds.
    pub proof fn lemma_reads(&self, f: Image)
        requires
            self.reads(f),
        ensures
            table_in_order(f, self.comparator()),
            self.index() == index_data(f),
    {
    }

    /// A cursor over the index block, not yet positioned.
    pub fn index_iter(&self) -> (it: BlockIterator<C>)
        requires
            self.wf(),
        ensures
            it.inv(),
            it.data() == self.index(),
            it.comparator() == self.comparator(),
            it.cursor() == Cursor::End,
    {
        self.index_block.iter(self.comparator)
    }

    /// The order of the keys.
    pub fn order(&self) -> (c: C)
        ensures
            c == self.comparator(),
    {
        self.comparator
    }

    /// Looks `key` up: the value of the entry whose key stands at the same place in the
    /// order as `key`, or `None` where there is none.
    ///
    /// The index block says which data block can hold the key; where there is a filter and
    /// it says that the block does not hold the key, the block is not read. A table without
    /// a filter that reads a table in order answers with the value of that entry of the
    /// table, or with `None` where the table has no such entry.
    ///
    /// Where the lookup comes to a data block that cannot be opened, it fails with the
    /// error of the fault: a changed block is refused wherever checksums are looked at.
    pub fn get(&self, options: ReadOptions, key: &[u8]) -> (r: Result<Option<Vec<u8>>, Error>)
        requires
            self.wf(),
        ensures
            forall|f: Image| #[trigger]
                self.reads(f) && (self.filtered() ==> exact_order(self.comparator())) ==> (
                r matches Ok(o) && found_in(
                    table_entries(f),
                    self.comparator(),
                    key@,
                    spec_answer(o),
                )),
            forall|f: Seq<u8>, b: int, fault: SealFault| #[trigger]
                self.faulty_for(f, key@, options, b, fault) ==> (r matches Err(e) && is_seal_fault(
                    e,
                    fault,
                )),
    {
        let mut index_iter = self.index_block.iter(self.comparator);
        index_iter.seek(key);
        let ghost b = index_iter.landing();
        proof {
            assert forall|f: Seq<u8>, q: int, fault: SealFault| #[trigger]
                self.faulty_for(f, key@, options, q, fault) implies (index_iter.cursor() matches Cursor::At(
                e,
            ) && e == block_entries(self.index_block@)[q]) by {
                index_iter.lemma_inv_regular();
                assert(q == b);
            }
        }
        proof {
            assert forall|f: Image| #[trigger] self.reads(f) implies is_lower_bound(
                index_entries(f),
                self.comparator,
                key@,
                b,
            ) && !(index_iter.cursor() is Broken) && (index_iter.cursor() matches Cursor::At(e)
                ==> 0 <= b < block_count(f) && e == index_entries(f)[b]) by {
                lemma_table_index(f, self.comparator);
                index_iter.lemma_inv_regular();
            }
        }
        if !index_iter.valid() {
            proof {
                assert forall|f: Image| #[trigger] self.reads(f) implies found_in(
                    table_entries(f),
                    self.comparator(),
                    key@,
                    None,
                ) by {
                    lemma_table_ordered(f, self.comparator);
                    lemma_two_step_lookup(
                        table_blocks(f),
                        index_entries(f),
                        self.comparator,
                        key@,
                        b,
                        None,
                    );
                }
            }
            return match index_iter.status() {
                Ok(_) => Ok(None),
                Err(e) => Err(e),
            };
        }
        let decoded = BlockHandle::decode_from(index_iter.value());
        proof {
            assert forall|f: Image| #[trigger] self.reads(f) implies (decoded matches Ok(x)
                && x.0 == data_handle(f, b)) by {
                self.lemma_reads_blocks(f, b);
            }
        }
        let (handle, _) = match decoded {
            Ok(h) => h,
            Err(e) => {
                return Err(e);
            },
        };
        match &self.filter_reader {
            Some(reader) => {
                if !reader.key_may_match(handle.offset, key) {
                    proof {
                        assert forall|f: Image| #[trigger]
                            self.reads(f) && exact_order(self.comparator()) implies found_in(
                            table_entries(f),
                            self.comparator(),
                            key@,
                            None,
                        ) by {
                            self.lemma_reads_blocks(f, b);
                            lemma_table_ordered(f, self.comparator);
                            let es = table_blocks(f)[b];
                            assert forall|e: int| 0 <= e < es.len() implies !(self.comparator.le(
                                #[trigger] es[e].key,
                                key@,
                            ) && self.comparator.le(key@, es[e].key)) by {
                                assert(es[e] == block_entries(data_at(f, b))[e]);
                            }
                            lemma_two_step_lookup(
                                table_blocks(f),
                                index_entries(f),
                                self.comparator,
                                key@,
                                b,
                                None,
                            );
                        }
                    }
                    return Ok(None);
                }
            },
            None => {},
        }
        let read = self.read_data_block(&handle, options);
        proof {
            assert forall|f: Seq<u8>, q: int, fault: SealFault| #[trigger]
                self.faulty_for(f, key@, options, q, fault) implies (read matches Err(e)
                && is_seal_fault(e, fault)) by {
                assert(serves_faulty(&self.file(), f, handle, self.looks(options), fault));
            }
        }
        proof {
            assert forall|f: Image| #[trigger] self.reads(f) implies (read matches Ok(x) && x@
                == data_at(f, b)) by {
                self.lemma_reads_blocks(f, b);
                assert(self.reads_block(f, handle));
            }
        }
        let block = match read {
            Ok(b) => b,
            Err(e) => {
                return Err(e);
            },
        };
        let r = find_in_block(&block, self.comparator, key);
        proof {
            assert forall|f: Image| #[trigger] self.reads(f) implies (r matches Ok(o) && found_in(
                table_entries(f),
                self.comparator(),
                key@,
                spec_answer(o),
            )) by {
                self.lemma_reads_blocks(f, b);
                lemma_table_ordered(f, self.comparator);
                lemma_two_step_lookup(
                    table_blocks(f),
                    index_entries(f),
                    self.comparator,
                    key@,
                    b,
                    spec_answer(r->Ok_0),
                );
            }
        }
        r
    }
}

} // verus!
