//! Building a table file from keys that come in increasing order.
use crate::error::Error;
use crate::filter::FilterPolicy;
use crate::options::{
    compress_follows, spec_answer, spec_compression_byte, was_compressed, BlockCache, Codec,
    CompressionType, Options,
};
use crate::sstable::{
    lemma_footer_len, spec_encode_footer, spec_encode_handle, BlockHandle, Footer,
    BLOCK_TRAILER_SIZE, FOOTER_ENCODED_LENGTH,
};
use crate::sstable::block::{block_entries, regular, sorted};
use crate::sstable::block_builder::{
    add_fault, add_refused, block_size, encode_block, has_room, increasing, lemma_increasing_push,
    no_room, out_of_order, AddFault, BlockBuilder, Pair,
};
use crate::sstable::block_proofs::holds;
use crate::sstable::filter_block::{filter_block_of, FilterBlockBuilder, KeyAt};
use crate::sstable::seal::{sealed, spec_trailer, trailer};
use crate::sstable::table_model::{
    filter_exact, filter_in_order, flat, footer_bytes, index_data, index_exact, lemma_flat_push,
    spec_filter_key, table_entries, table_in_order, Image,
};
use crate::sstable::table_order::found_in;
use crate::sstable::table_proofs::{
    all_keys, blocks_pass, good_block, image_ok, keys_added, lemma_all_keys_add,
    lemma_all_keys_flush, lemma_image_add, lemma_image_empty, lemma_image_filter,
    lemma_image_filter_exact, lemma_image_first, lemma_image_flush, lemma_image_grows,
    lemma_image_index, lemma_image_is_table, lemma_image_pending, lemma_keys_add, lemma_keys_empty,
    lemma_keys_flush, lemma_keys_sound, lemma_raw_at_end, lemma_stored_as_extend,
    lemma_written_keys_push, rec_entries, stored_as, unpacks, views_hold, written_keys, BlockRec,
};
use crate::storage::{
    close_done, close_failed, flush_done, flush_failed, write_done, write_failed, File,
};
use crate::util::coding::append_range;
use crate::util::comparator::{equiv, BytewiseComparator, Comparator, Order};
use vstd::prelude::*;
use vstd::slice::slice_to_vec;
use vstd::string::StringSliceAdditionalSpecFns;

verus! {

/// Where a table builder stands.
#[derive(PartialEq, Eq, Structural, Debug, Clone, Copy)]
pub enum BuilderState {
    /// Entries can be added.
    Open,
    /// The table is finished.
    Closed,
    /// The table was given up, by the caller or because the file failed.
    Abandoned,
}

/// The compressed form is materially shorter than the raw form: by more than an eighth.
pub open spec fn worth_storing(raw_len: nat, compressed_len: nat) -> bool {
    compressed_len < raw_len - raw_len / 8
}

/// The form in which a block is stored: the compressed form where compression is asked
/// for, there is a compressed form, and it is materially shorter; else the raw form.
pub open spec fn spec_stored_form(
    raw: Seq<u8>,
    compressed: Option<Seq<u8>>,
    compression: CompressionType,
) -> (CompressionType, Seq<u8>) {
    match compressed {
        Some(c) => if compression == CompressionType::Snappy && worth_storing(raw.len(), c.len()) {
            (CompressionType::Snappy, c)
        } else {
            (CompressionType::NoCompression, raw)
        },
        None => (CompressionType::NoCompression, raw),
    }
}

/// `stored`, kept under the compression type `kind`, is a form in which the block `raw` is
/// stored where `compression` is asked for: the block itself where none is asked for, and
/// else the form that `spec_stored_form` picks for what a call of `codec` to compress the
/// block came to.
pub open spec fn form_of<Z: Codec>(
    codec: Z,
    compression: CompressionType,
    raw: Seq<u8>,
    kind: CompressionType,
    stored: Seq<u8>,
) -> bool {
    match compression {
        CompressionType::NoCompression => kind == CompressionType::NoCompression && stored
            == raw,
        CompressionType::Snappy => exists|b: &[u8], c: Option<Vec<u8>>|
            b@ == raw && #[trigger] call_ensures(Z::compress, (&codec, b), c) && (kind, stored)
                == spec_stored_form(raw, spec_answer(c), compression),
    }
}

/// Picks the form in which a block is stored.
pub fn stored_form(raw: Vec<u8>, compressed: Option<Vec<u8>>, compression: CompressionType) -> (r:
    (CompressionType, Vec<u8>))
    ensures
        (r.0, r.1@) == spec_stored_form(
            raw@,
            match compressed {
                Some(c) => Some(c@),
                None => None,
            },
            compression,
        ),
{
    match compressed {
        Some(c) => {
            let saved: usize = raw.len() / 8;
            if compression == CompressionType::Snappy && c.len() < raw.len() - saved {
                (CompressionType::Snappy, c)
            } else {
                (CompressionType::NoCompression, raw)
            }
        },
        None => (CompressionType::NoCompression, raw),
    }
}

/// A number of entries as a `u64` counts it: the number itself, as far as a `u64` goes.
pub open spec fn spec_count(n: nat) -> u64 {
    if n <= u64::MAX {
        n as u64
    } else {
        u64::MAX
    }
}

/// The number of entries of an index block from one restart point to the next: every
/// entry is a restart point.
pub const INDEX_RESTART_INTERVAL: usize = 1;

/// The error of a call on a builder that is not open.
pub open spec fn not_open(e: Error) -> bool {
    e matches Error::InvalidArgument(m) && m@ == "the table builder is not open"@
}

/// The error of a file that has grown as long as offsets can say.
pub open spec fn file_full(e: Error) -> bool {
    e matches Error::InvalidArgument(m) && m@ == "the table file is too long"@
}

/// The key under which the handle of the filter block of a policy is kept.
pub fn filter_key(name: &str) -> (k: Vec<u8>)
    ensures
        k@ == spec_filter_key(name@),
{
    let mut k: Vec<u8> = Vec::new();
    let prefix = "filter.".as_bytes();
    append_range(&mut k, prefix, 0, prefix.len());
    let rest = name.as_bytes();
    append_range(&mut k, rest, 0, rest.len());
    proof {
        assert(prefix@.subrange(0, prefix@.len() as int) =~= prefix@);
        assert(rest@.subrange(0, rest@.len() as int) =~= rest@);
    }
    k
}

/// Where the block of `h` and its trailer end in the file.
pub open spec fn end_of(h: BlockHandle) -> int {
    h.offset + h.size + BLOCK_TRAILER_SIZE
}

/// What writing the block `stored`, kept under the compression type `kind`, and its
/// trailer to a file of the kind `F` at the offset `offset` comes to, told from what the two
/// writes came to.
///
/// Where the file would grow beyond what offsets can say, nothing is written and the error
/// says so. Else the block is written and then its trailer: the handle of the block comes
/// back where both writes succeeded, and the error of the first write that failed where
/// one did.
pub open spec fn block_sealed<F: File>(
    offset: u64,
    stored: Seq<u8>,
    kind: CompressionType,
    r: Result<BlockHandle, Error>,
) -> bool {
    let end = spec_trailer(stored, spec_compression_byte(kind));
    if offset + stored.len() + BLOCK_TRAILER_SIZE > u64::MAX {
        r matches Err(e) && file_full(e)
    } else {
        match r {
            Ok(h) => h.offset == offset && h.size == stored.len() && write_done::<F>(stored)
                && write_done::<F>(end),
            Err(e) => write_failed::<F>(stored, e) || (write_done::<F>(stored) && write_failed::<
                F,
            >(end, e)),
        }
    }
}

/// What writing the footer `footer` to a file of the kind `F` that is `offset` bytes long
/// comes to, and ending the use of the file, told from what the steps came to.
///
/// Where the file would grow beyond what offsets can say, nothing is written and the error
/// says so. Else the footer is written, the file is flushed if `sync`, and it is closed: the
/// length of the file comes back where all of these succeeded, and the error of the first
/// that failed where one did.
pub open spec fn footer_written<F: File>(
    offset: u64,
    footer: Footer,
    sync: bool,
    r: Result<u64, Error>,
) -> bool {
    let bytes = spec_encode_footer(footer);
    if offset + FOOTER_ENCODED_LENGTH > u64::MAX {
        r matches Err(e) && file_full(e)
    } else {
        match r {
            Ok(n) => n == offset + FOOTER_ENCODED_LENGTH && write_done::<F>(bytes) && (sync
                ==> flush_done::<F>()) && close_done::<F>(),
            Err(e) => {
                ||| write_failed::<F>(bytes, e)
                ||| write_done::<F>(bytes) && sync && flush_failed::<F>(e)
                ||| write_done::<F>(bytes) && (sync ==> flush_done::<F>()) && close_failed::<F>(e)
            },
        }
    }
}

/// What writing the block `raw` to a file of the kind `F` at the offset `offset` comes to,
/// where `compression` is asked for and `codec` compresses: what sealing and writing a form
/// of the block comes to in which the block is stored.
pub open spec fn block_written<F: File, Z: Codec>(
    codec: Z,
    compression: CompressionType,
    offset: u64,
    raw: Seq<u8>,
    r: Result<BlockHandle, Error>,
) -> bool {
    exists|kind: CompressionType, stored: Seq<u8>|
        form_of(codec, compression, raw, kind, stored) && #[trigger] block_sealed::<F>(
            offset,
            stored,
            kind,
            r,
        )
}

/// What writing the block `raw` at the offset `offset` and flushing the file after it
/// comes to: the error of the writing where the block could not be written, and else what
/// the flush comes to.
pub open spec fn block_flushed<F: File, Z: Codec>(
    codec: Z,
    compression: CompressionType,
    offset: u64,
    raw: Seq<u8>,
    r: Result<(), Error>,
) -> bool {
    exists|w: Result<BlockHandle, Error>|
        block_written::<F, Z>(codec, compression, offset, raw, w) && #[trigger] flush_follows::<
            F,
        >(w, r)
}

/// What follows the writing of a block, which came to `w`: its error where it failed, and
/// else what a flush of the file comes to.
pub open spec fn flush_follows<F: File>(w: Result<BlockHandle, Error>, r: Result<(), Error>) -> bool {
    match w {
        Err(e) => r matches Err(x) && x == e,
        Ok(_) => match r {
            Ok(_) => flush_done::<F>(),
            Err(e) => flush_failed::<F>(e),
        },
    }
}

/// A block could not be written, and `e` is the error: that of a file that has grown as
/// long as offsets can say, or one with which a write to a file of the kind `F` has failed.
pub open spec fn block_failed<F: File>(e: Error) -> bool {
    file_full(e) || exists|b: Seq<u8>| #[trigger] write_failed::<F>(b, e)
}

/// A block has refused an entry, and `e` is the error that says why.
pub open spec fn entry_refused(e: Error) -> bool {
    exists|fault: AddFault| #[trigger] add_refused(e, fault)
}

/// A step that an open builder takes has failed, and `e` is the error: a block could not
/// be written, a block has refused an entry, or a flush or the closing of a file of the
/// kind `F` has failed with it.
pub open spec fn build_failed<F: File>(e: Error) -> bool {
    ||| block_failed::<F>(e)
    ||| entry_refused(e)
    ||| flush_failed::<F>(e)
    ||| close_failed::<F>(e)
}

/// A block that could not be sealed and written failed for the length of the file or
/// with the error of a write.
pub proof fn lemma_sealed_fails<F: File>(
    offset: u64,
    stored: Seq<u8>,
    kind: CompressionType,
    r: Result<BlockHandle, Error>,
)
    requires
        block_sealed::<F>(offset, stored, kind, r),
        r is Err,
    ensures
        block_failed::<F>(r->Err_0),
{
    let e = r->Err_0;
    let end = spec_trailer(stored, spec_compression_byte(kind));
    if !file_full(e) {
        if write_failed::<F>(stored, e) {
        } else {
            assert(write_failed::<F>(end, e));
        }
    }
}

/// A block that could not be written failed for the length of the file or with the
/// error of a write.
pub proof fn lemma_block_fails<F: File, Z: Codec>(
    codec: Z,
    compression: CompressionType,
    offset: u64,
    raw: Seq<u8>,
    r: Result<BlockHandle, Error>,
)
    requires
        block_written::<F, Z>(codec, compression, offset, raw, r),
        r is Err,
    ensures
        block_failed::<F>(r->Err_0),
{
    let (kind, stored) = choose|kind: CompressionType, stored: Seq<u8>|
        form_of(codec, compression, raw, kind, stored) && #[trigger] block_sealed::<F>(
            offset,
            stored,
            kind,
            r,
        );
    lemma_sealed_fails::<F>(offset, stored, kind, r);
}

/// A footer that could not be written failed for the length of the file or with the
/// error of the write, of the flush or of the closing; one that was written was written to
/// a file that was flushed, if that was asked for, and closed.
pub proof fn lemma_footer_outcome<F: File>(
    offset: u64,
    footer: Footer,
    sync: bool,
    r: Result<u64, Error>,
)
    requires
        footer_written::<F>(offset, footer, sync, r),
    ensures
        r matches Err(e) ==> build_failed::<F>(e),
        r is Ok ==> close_done::<F>() && (sync ==> flush_done::<F>()),
{
    if r is Err {
        let e = r->Err_0;
        if write_failed::<F>(spec_encode_footer(footer), e) {
        }
    }
}

/// Writes a block and its trailer to `file` at the offset `offset`, and returns the handle
/// of the block.
///
/// Fails where the file fails, and where the file would grow beyond what offsets can say.
fn write_sealed<F: File>(file: &mut F, contents: &[u8], kind: CompressionType, offset: u64) -> (r:
    Result<BlockHandle, Error>)
    ensures
        block_sealed::<F>(offset, contents@, kind, r),
{
    let size: usize = contents.len();
    let room: u64 = u64::MAX - offset;
    if room < BLOCK_TRAILER_SIZE as u64 || size as u64 > room - BLOCK_TRAILER_SIZE as u64 {
        return Err(Error::invalid_argument("the table file is too long"));
    }
    let t = trailer(contents, kind.to_byte());
    match file.write(contents) {
        Ok(_) => {},
        Err(e) => {
            return Err(e);
        },
    }
    match file.write(t.as_slice()) {
        Ok(_) => {},
        Err(e) => {
            return Err(e);
        },
    }
    Ok(BlockHandle::new(offset, size as u64))
}

/// Builds a table file: takes entries in increasing order of their keys, and writes data
/// blocks as they fill up, then the filter block, the metaindex block, the index block and
/// the footer.
pub struct TableBuilder<F: File, C: Comparator, P: FilterPolicy, Z: Codec> {
    comparator: C,
    codec: Z,
    compression: CompressionType,
    block_size: usize,
    block_restart_interval: usize,
    file: F,
    // the length of the file so far
    offset: u64,
    data_block: BlockBuilder<C>,
    index_block: BlockBuilder<C>,
    // the last key added
    last_key: Vec<u8>,
    num_entries: u64,
    state: BuilderState,
    filter_block: Option<FilterBlockBuilder<P>>,
    // a data block was written whose index entry waits for the first key of the next block
    pending_index_entry: bool,
    pending_handle: BlockHandle,
    entries: Ghost<Seq<Pair>>,
    // all bytes handed to the file, in their order
    written: Ghost<Seq<u8>>,
    // the data blocks written
    blocks: Ghost<Seq<BlockRec>>,
    // every block so far was stored as it is
    plain: Ghost<bool>,
    // the policy of the filters, if the table is to have any
    policy: Ghost<Option<P>>,
    // the block written last, the metaindex block and the index block, once written
    last: Ghost<BlockRec>,
    meta: Ghost<BlockRec>,
    index: Ghost<BlockRec>,
    // the handle of the filter block and the filter block, once written
    filter_handle: Ghost<BlockHandle>,
    filters: Ghost<Seq<u8>>,
}

/// A block kept compressed was compressed by `codec`; where all blocks were kept as they
/// are, so was this one; and a block kept as it is has its own bytes as its stored form.
pub open spec fn rec_kept<Z: Codec>(codec: Z, plain: bool, rec: BlockRec) -> bool {
    &&& rec.kind == CompressionType::Snappy ==> was_compressed(codec, rec.raw, rec.stored)
    &&& rec.kind == CompressionType::NoCompression ==> rec.stored == rec.raw
    &&& plain ==> rec.kind == CompressionType::NoCompression
}

/// The stored form of a block that was kept stands for the block, for every way of undoing
/// compression that undoes the compression of the codec; and for every way at all where all
/// blocks were kept as they are.
pub proof fn lemma_kept_unpacks<Z: Codec>(
    codec: Z,
    plain: bool,
    rec: BlockRec,
    expand: spec_fn(Seq<u8>) -> Option<Seq<u8>>,
)
    requires
        rec_kept(codec, plain, rec),
        plain || compress_follows(codec, expand),
    ensures
        unpacks(expand, rec.kind, rec.stored, rec.raw),
{
    if rec.kind == CompressionType::Snappy {
        let (r, v) = choose|r: &[u8], v: Vec<u8>|
            r@ == rec.raw && v@ == rec.stored && #[trigger] call_ensures(
                Z::compress,
                (&codec, r),
                Some(v),
            );
        assert(call_ensures(Z::compress, (&codec, r), Some(v)));
    }
}

impl<F: File, C: Comparator, P: FilterPolicy, Z: Codec> TableBuilder<F, C, P, Z> {
    /// The entries added so far.
    pub closed spec fn entries(&self) -> Seq<Pair> {
        self.entries@
    }

    /// Where the builder stands.
    pub closed spec fn state(&self) -> BuilderState {
        self.state
    }

    /// The order of the keys.
    pub closed spec fn comparator(&self) -> C {
        self.comparator
    }

    /// The file that the builder writes to.
    pub closed spec fn file(&self) -> F {
        self.file
    }

    /// The codec that compresses the blocks.
    pub closed spec fn codec(&self) -> Z {
        self.codec
    }

    /// The entries of the data block being built, which are not written yet.
    pub closed spec fn buffered(&self) -> Seq<Pair> {
        self.data_block.entries()
    }

    /// How the contents of blocks are to be stored.
    pub closed spec fn compression(&self) -> CompressionType {
        self.compression
    }

    /// All bytes handed to the file so far, in their order.
    pub closed spec fn written(&self) -> Seq<u8> {
        self.written@
    }

    /// Every block written so far was stored as it is.
    pub closed spec fn plain(&self) -> bool {
        self.plain@
    }

    /// The policy of the filters of the table, if it is to have any.
    pub closed spec fn policy(&self) -> Option<P> {
        self.policy@
    }

    /// The number of entries from one restart point of a data block to the next, as asked
    /// for.
    pub closed spec fn interval(&self) -> nat {
        self.data_block.interval()
    }

    /// The size from which on the data block that is being built is written.
    pub closed spec fn limit(&self) -> nat {
        self.block_size as nat
    }

    /// A data block was written and no entry was added since: its index entry waits for
    /// the key that comes next.
    pub closed spec fn pending(&self) -> bool {
        self.pending_index_entry
    }

    /// What the builder was made with is the same in `self` and `other`.
    pub open spec fn same_setup(&self, other: &Self) -> bool {
        &&& self.comparator() == other.comparator()
        &&& self.codec() == other.codec()
        &&& self.compression() == other.compression()
        &&& self.policy() == other.policy()
        &&& self.interval() == other.interval()
        &&& self.limit() == other.limit()
    }

    /// `key` comes strictly after the last key added, if any was added.
    pub open spec fn comes_next(&self, key: Seq<u8>) -> bool {
        self.entries().len() > 0 ==> !self.comparator().le(key, self.entries().last().0)
    }

    /// The bytes `after` are what was written and, behind it, the block `raw` in a form in
    /// which it is stored, with its trailer.
    pub open spec fn appended(&self, raw: Seq<u8>, after: Seq<u8>) -> bool {
        exists|kind: CompressionType, stored: Seq<u8>|
            form_of(self.codec(), self.compression(), raw, kind, stored) && after
                == self.written() + #[trigger] sealed(stored, spec_compression_byte(kind))
    }

    /// What finishing an open builder comes to, told from what its steps came to.
    ///
    /// Where entries are buffered, their block is written first and the file flushed; the
    /// error of the first of the two that failed is the error of the whole. Then all that
    /// follows the data blocks is written: the filter block if there is to be one, the
    /// metaindex block, the index block and the footer, the file is flushed if `sync`, and it
    /// is closed. The length of the file comes back where all of these succeeded, and the
    /// error of the first that failed where one did.
    pub open spec fn finish_written(&self, sync: bool, r: Result<u64, Error>) -> bool {
        if self.buffered().len() == 0 {
            self.tail_written(sync, r)
        } else {
            exists|w: Result<BlockHandle, Error>|
                block_written::<F, Z>(
                    self.codec(),
                    self.compression(),
                    self.written().len() as u64,
                    encode_block(self.buffered(), self.interval()),
                    w,
                ) && #[trigger] self.finish_follows(w, sync, r)
        }
    }

    /// What follows the writing of the block of the entries buffered, which came to `w`:
    /// its error where it failed; the error of the flush where that failed; and else what
    /// writing all that follows the data blocks comes to.
    pub open spec fn finish_follows(
        &self,
        w: Result<BlockHandle, Error>,
        sync: bool,
        r: Result<u64, Error>,
    ) -> bool {
        match w {
            Err(e) => r matches Err(x) && x == e,
            Ok(h) => (r matches Err(e) && flush_failed::<F>(e)) || (flush_done::<F>()
                && self.after_flush(h).tail_written(sync, r)),
        }
    }

    /// `expand` is a way of undoing compression that suits what was written: it undoes the
    /// compression of the codec, or every block written was stored as it is.
    pub open spec fn suits(&self, expand: spec_fn(Seq<u8>) -> Option<Seq<u8>>) -> bool {
        self.plain() || compress_follows(self.codec(), expand)
    }

    /// What was written with a way of undoing compression, as a reader sees it.
    pub open spec fn image(&self, expand: spec_fn(Seq<u8>) -> Option<Seq<u8>>) -> Image {
        Image { bytes: self.written(), expand }
    }

    /// Every block written was kept in a form that the codec stands for.
    closed spec fn blocks_kept(&self) -> bool {
        forall|i: int|
            0 <= i < self.blocks@.len() ==> rec_kept(
                self.codec,
                self.plain@,
                #[trigger] self.blocks@[i],
            )
    }

    /// What was written hangs together with the blocks being built.
    closed spec fn hangs(&self) -> bool {
        &&& image_ok(
            self.written@,
            self.blocks@,
            self.index_block.entries(),
            self.data_block.entries(),
            self.pending_index_entry,
            self.comparator,
        )
        &&& self.blocks_kept()
        &&& self.entries@ == flat(rec_entries(self.blocks@)) + self.data_block.entries()
        &&& self.offset == self.written@.len()
        &&& self.pending_index_entry ==> self.pending_handle == self.blocks@.last().handle
        &&& (!self.pending_index_entry && self.data_block.entries().len() == 0)
            ==> self.blocks@.len() == 0
    }

    /// Every key added so far was added to the filter builder, with the offset of its
    /// block.
    closed spec fn filter_ok(&self) -> bool {
        match self.filter_block {
            Some(fb) => {
                &&& self.policy@ == Some(fb.policy())
                &&& fb.wf()
                &&& !fb.finished()
                &&& fb.current_offset() == self.offset
                &&& keys_added(
                    fb.added(),
                    self.blocks@,
                    self.data_block.entries(),
                    self.offset,
                )
                &&& fb.added() == all_keys(self.blocks@, self.data_block.entries(), self.offset)
            },
            None => self.policy@ is None,
        }
    }

    /// The metaindex block lies in what was written, and with a policy it holds the handle
    /// of the filter block, which lies in what was written and lets every key of every block
    /// written pass.
    closed spec fn meta_ok(&self) -> bool {
        &&& stored_as(self.written@, self.meta@.handle, self.meta@.kind, self.meta@.stored)
        &&& rec_kept(self.codec, self.plain@, self.meta@)
        &&& regular(self.meta@.raw)
        &&& sorted(block_entries(self.meta@.raw), BytewiseComparator {  })
        &&& self.policy@ matches Some(p) ==> {
            &&& holds(
                self.meta@.raw,
                seq![(spec_filter_key(p.spec_name()), spec_encode_handle(self.filter_handle@))],
            )
            &&& stored_as(
                self.written@,
                self.filter_handle@,
                CompressionType::NoCompression,
                self.filters@,
            )
            &&& blocks_pass(p, self.filters@, self.blocks@)
            &&& filter_block_of(
                p,
                written_keys(self.blocks@, self.blocks@.len() as int),
                self.filter_handle@.offset,
                self.filters@,
            )
        }
    }

    /// The index block lies in what was written and holds the index entries.
    closed spec fn index_ok(&self) -> bool {
        &&& stored_as(self.written@, self.index@.handle, self.index@.kind, self.index@.stored)
        &&& rec_kept(self.codec, self.plain@, self.index@)
        &&& regular(self.index@.raw)
        &&& holds(self.index@.raw, self.index_block.entries())
        &&& sorted(block_entries(self.index@.raw), self.comparator)
        &&& self.index@.raw == encode_block(self.index_block.entries(), 1)
    }

    /// The parts agree with each other.
    pub closed spec fn wf(&self) -> bool {
        &&& self.index_block.interval() == INDEX_RESTART_INTERVAL
        &&& self.data_block.wf()
        &&& self.index_block.wf()
        &&& self.data_block.comparator() == self.comparator
        &&& self.index_block.comparator() == self.comparator
        &&& self.state == BuilderState::Open ==> {
            &&& !self.data_block.finished()
            &&& !self.index_block.finished()
            &&& self.filter_ok()
            &&& self.hangs()
        }
        &&& self.num_entries == spec_count(self.entries@.len())
        &&& self.entries@.len() > 0 ==> self.last_key@ == self.entries@.last().0
        &&& increasing(self.entries@, self.comparator)
        &&& self.compression == CompressionType::NoCompression ==> self.plain@
    }

    /// A builder that writes to `file`, which must be empty, in the order `comparator`
    /// with what `options` asks for.
    pub fn new<K: BlockCache>(file: F, comparator: C, options: &Options<C, P, Z, K>) -> (b: Self)
        ensures
            b.wf(),
            b.state() == BuilderState::Open,
            b.entries() == Seq::<Pair>::empty(),
            b.written() == Seq::<u8>::empty(),
            b.file() == file,
            b.comparator() == comparator,
            b.codec() == options.codec,
            b.compression() == options.compression,
            b.policy() == options.filter_policy,
            b.interval() == options.block_restart_interval,
            b.limit() == options.block_size,
            b.buffered() == Seq::<Pair>::empty(),
            !b.pending(),
            b.plain(),
    {
        let filter_block = match options.filter_policy {
            Some(policy) => Some(FilterBlockBuilder::new(policy)),
            None => None,
        };
        let ghost nothing = BlockRec {
            handle: BlockHandle { offset: 0, size: 0 },
            raw: Seq::empty(),
            entries: Seq::empty(),
            kind: CompressionType::NoCompression,
            stored: Seq::empty(),
        };
        let b = TableBuilder {
            comparator,
            codec: options.codec,
            compression: options.compression,
            block_size: options.block_size,
            block_restart_interval: options.block_restart_interval,
            file,
            offset: 0,
            data_block: BlockBuilder::new(options.block_restart_interval, comparator),
            index_block: BlockBuilder::new(INDEX_RESTART_INTERVAL, comparator),
            last_key: Vec::new(),
            num_entries: 0,
            state: BuilderState::Open,
            filter_block,
            pending_index_entry: false,
            pending_handle: BlockHandle::new(0, 0),
            entries: Ghost(Seq::empty()),
            written: Ghost(Seq::empty()),
            blocks: Ghost(Seq::empty()),
            plain: Ghost(true),
            policy: Ghost(options.filter_policy),
            last: Ghost(nothing),
            meta: Ghost(nothing),
            index: Ghost(nothing),
            filter_handle: Ghost(BlockHandle { offset: 0, size: 0 }),
            filters: Ghost(Seq::empty()),
        };
        proof {
            lemma_keys_empty(0);
            lemma_image_empty(comparator);
            assert(b.entries@ =~= flat(rec_entries(b.blocks@)) + b.data_block.entries());
            assert(all_keys(b.blocks@, b.data_block.entries(), 0) =~= Seq::<KeyAt>::empty());
        }
        b
    }

    /// The number of entries added, as far as a `u64` can count.
    pub fn num_entries(&self) -> (n: u64)
        requires
            self.wf(),
        ensures
            n == spec_count(self.entries().len()),
    {
        self.num_entries
    }

    /// The length of the file so far: the bytes of all that has been written.
    pub fn file_size(&self) -> (n: u64)
        requires
            self.wf(),
        ensures
            self.state() == BuilderState::Open ==> n == self.written().len(),
    {
        self.offset
    }

    /// Gives the table up: every later call but this one fails.
    pub fn abandon(&mut self)
        requires
            old(self).wf(),
        ensures
            final(self).wf(),
            final(self).state() == BuilderState::Abandoned,
            final(self).entries() == old(self).entries(),
            final(self).same_setup(old(self)),
    {
        self.state = BuilderState::Abandoned;
    }

    /// Hands the file back.
    pub fn into_file(self) -> (f: F)
        ensures
            f == self.file(),
    {
        self.file
    }

    /// All but the file, its length, what was written and the block written last are the
    /// same in `self` and `other`.
    closed spec fn same_but_file(&self, other: &Self) -> bool {
        &&& self.comparator == other.comparator
        &&& self.codec == other.codec
        &&& self.compression == other.compression
        &&& self.block_size == other.block_size
        &&& self.block_restart_interval == other.block_restart_interval
        &&& self.data_block == other.data_block
        &&& self.index_block == other.index_block
        &&& self.last_key == other.last_key
        &&& self.num_entries == other.num_entries
        &&& self.state == other.state
        &&& self.filter_block == other.filter_block
        &&& self.pending_index_entry == other.pending_index_entry
        &&& self.pending_handle == other.pending_handle
        &&& self.entries == other.entries
        &&& self.blocks == other.blocks
        &&& self.policy == other.policy
        &&& self.meta == other.meta
        &&& self.index == other.index
        &&& self.filter_handle == other.filter_handle
        &&& self.filters == other.filters
    }

    /// What writing the filter block, if there is to be one, and the metaindex block comes
    /// to.
    ///
    /// Without a policy the metaindex block has no entry and is written where the file ends.
    /// With a policy the filter block is written there first, as it is; where that fails, so
    /// does the whole; and else what follows the filter block follows.
    #[verifier::opaque]
    pub closed spec fn meta_written(&self, r: Result<BlockHandle, Error>) -> bool {
        match self.policy@ {
            None => block_written::<F, Z>(
                self.codec,
                self.compression,
                self.offset,
                encode_block(Seq::empty(), self.block_restart_interval as nat),
                r,
            ),
            Some(p) => self.meta_with(p, r),
        }
    }

    /// What writing the filter block of the policy `p` and the metaindex block comes to:
    /// what follows the writing, where the file ends, of the filter block that the policy
    /// makes of the keys of the blocks written.
    closed spec fn meta_with(&self, p: P, r: Result<BlockHandle, Error>) -> bool {
        exists|filters: Seq<u8>, first: Result<BlockHandle, Error>|
            filter_block_of(
                p,
                written_keys(self.blocks@, self.blocks@.len() as int),
                self.offset,
                filters,
            ) && block_sealed::<F>(self.offset, filters, CompressionType::NoCompression, first)
                && #[trigger] self.meta_follows(p, filters, first, r)
    }

    /// What follows the writing of the filter block `filters`, which came to `first`: where
    /// it failed, its error; where the metaindex block has no room for the handle of the
    /// filter block under the key of the policy, the error that says so; and else what
    /// writing the metaindex block with that one entry after the filter block comes to.
    #[verifier::opaque]
    closed spec fn meta_follows(
        &self,
        p: P,
        filters: Seq<u8>,
        first: Result<BlockHandle, Error>,
        r: Result<BlockHandle, Error>,
    ) -> bool {
        let interval = self.block_restart_interval as nat;
        match first {
            Err(e) => r == Err::<BlockHandle, Error>(e),
            Ok(h) => {
                let key = spec_filter_key(p.spec_name());
                let value = spec_encode_handle(h);
                if has_room(Seq::empty(), interval, key, value) {
                    end_of(h) <= u64::MAX && block_written::<F, Z>(
                        self.codec,
                        self.compression,
                        end_of(h) as u64,
                        encode_block(seq![(key, value)], interval),
                        r,
                    )
                } else {
                    r matches Err(e) && no_room(e)
                }
            },
        }
    }

    /// What writing the index block at the offset `offset` comes to.
    ///
    /// Where the index entry of the last data block is still to come, it is added first,
    /// under a key that is no earlier than the last key added.
    #[verifier::opaque]
    pub closed spec fn index_written(&self, offset: u64, r: Result<BlockHandle, Error>) -> bool {
        if self.pending_index_entry {
            exists|next: Seq<u8>|
                self.comparator.le(self.last_key@, next) && #[trigger] self.index_follows(
                    offset,
                    next,
                    r,
                )
        } else {
            block_written::<F, Z>(
                self.codec,
                self.compression,
                offset,
                encode_block(self.index_block.entries(), self.index_block.interval()),
                r,
            )
        }
    }

    /// What follows the choice of the key `next` for the index entry of the last data
    /// block: where the index block refuses the entry, the error that says why; and else what
    /// writing the index block with that entry comes to.
    #[verifier::opaque]
    closed spec fn index_follows(&self, offset: u64, next: Seq<u8>, r: Result<BlockHandle, Error>) -> bool {
        let value = spec_encode_handle(self.pending_handle);
        let index = self.index_block.entries();
        let interval = self.index_block.interval();
        match add_fault(index, interval, self.comparator, false, next, value) {
            Some(fault) => r matches Err(e) && add_refused(e, fault),
            None => block_written::<F, Z>(
                self.codec,
                self.compression,
                offset,
                encode_block(index.push((next, value)), interval),
                r,
            ),
        }
    }

    /// What writing all that follows the data blocks comes to: the filter block and the
    /// metaindex block, then the index block after them, then the footer with the handles of
    /// the two; the error is that of the first of these that failed.
    #[verifier::opaque]
    pub closed spec fn tail_written(&self, sync: bool, r: Result<u64, Error>) -> bool {
        exists|meta: Result<BlockHandle, Error>|
            self.meta_written(meta) && #[trigger] self.tail_after_meta(meta, sync, r)
    }

    /// What follows the writing of the metaindex block, which came to `meta`.
    #[verifier::opaque]
    closed spec fn tail_after_meta(
        &self,
        meta: Result<BlockHandle, Error>,
        sync: bool,
        r: Result<u64, Error>,
    ) -> bool {
        match meta {
            Err(e) => r == Err::<u64, Error>(e),
            Ok(m) => end_of(m) <= u64::MAX && exists|index: Result<BlockHandle, Error>|
                self.index_written(end_of(m) as u64, index) && #[trigger] self.tail_after_index(
                    m,
                    index,
                    sync,
                    r,
                ),
        }
    }

    /// What follows the writing of the index block, which came to `index`.
    #[verifier::opaque]
    closed spec fn tail_after_index(
        &self,
        m: BlockHandle,
        index: Result<BlockHandle, Error>,
        sync: bool,
        r: Result<u64, Error>,
    ) -> bool {
        match index {
            Err(e) => r == Err::<u64, Error>(e),
            Ok(i) => end_of(i) <= u64::MAX && footer_written::<F>(
                end_of(i) as u64,
                Footer { meta_index_handle: m, index_handle: i },
                sync,
                r,
            ),
        }
    }

    /// With a policy, what writing the filter block and the metaindex block comes to is
    /// what follows the writing of the filter block.
    proof fn lemma_meta_with_filter(
        &self,
        p: P,
        filters: Seq<u8>,
        first: Result<BlockHandle, Error>,
        r: Result<BlockHandle, Error>,
    )
        requires
            self.policy@ == Some(p),
            filter_block_of(
                p,
                written_keys(self.blocks@, self.blocks@.len() as int),
                self.offset,
                filters,
            ),
            block_sealed::<F>(self.offset, filters, CompressionType::NoCompression, first),
            match first {
                Err(e) => r == Err::<BlockHandle, Error>(e),
                Ok(h) => if has_room(
                    Seq::empty(),
                    self.block_restart_interval as nat,
                    spec_filter_key(p.spec_name()),
                    spec_encode_handle(h),
                ) {
                    end_of(h) <= u64::MAX && block_written::<F, Z>(
                        self.codec,
                        self.compression,
                        end_of(h) as u64,
                        encode_block(
                            seq![(spec_filter_key(p.spec_name()), spec_encode_handle(h))],
                            self.block_restart_interval as nat,
                        ),
                        r,
                    )
                } else {
                    r matches Err(e) && no_room(e)
                },
            },
        ensures
            self.meta_written(r),
    {
        reveal(TableBuilder::meta_written);
        reveal(TableBuilder::meta_follows);
        assert(self.meta_follows(p, filters, first, r));
        assert(self.meta_with(p, r));
    }

    /// Without a policy, what writing the metaindex block comes to is what writing a block
    /// without entries comes to.
    proof fn lemma_meta_without_filter(&self, r: Result<BlockHandle, Error>)
        requires
            self.policy@ is None,
            block_written::<F, Z>(
                self.codec,
                self.compression,
                self.offset,
                encode_block(Seq::empty(), self.block_restart_interval as nat),
                r,
            ),
        ensures
            self.meta_written(r),
    {
        reveal(TableBuilder::meta_written);
    }

    /// Where an index entry is still to come, what writing the index block comes to is
    /// what follows the choice of a key for that entry.
    proof fn lemma_index_with_entry(&self, offset: u64, next: Seq<u8>, r: Result<BlockHandle, Error>)
        requires
            self.pending_index_entry,
            self.comparator.le(self.last_key@, next),
            match add_fault(
                self.index_block.entries(),
                self.index_block.interval(),
                self.comparator,
                false,
                next,
                spec_encode_handle(self.pending_handle),
            ) {
                Some(fault) => r matches Err(e) && add_refused(e, fault),
                None => block_written::<F, Z>(
                    self.codec,
                    self.compression,
                    offset,
                    encode_block(
                        self.index_block.entries().push(
                            (next, spec_encode_handle(self.pending_handle)),
                        ),
                        self.index_block.interval(),
                    ),
                    r,
                ),
            },
        ensures
            self.index_written(offset, r),
    {
        reveal(TableBuilder::index_written);
        reveal(TableBuilder::index_follows);
        assert(self.index_follows(offset, next, r));
    }

    /// Where no index entry is to come, what writing the index block comes to is what
    /// writing the block of the index entries comes to.
    proof fn lemma_index_without_entry(&self, offset: u64, r: Result<BlockHandle, Error>)
        requires
            !self.pending_index_entry,
            block_written::<F, Z>(
                self.codec,
                self.compression,
                offset,
                encode_block(self.index_block.entries(), self.index_block.interval()),
                r,
            ),
        ensures
            self.index_written(offset, r),
    {
        reveal(TableBuilder::index_written);
    }

    /// What writing the index block comes to is the same for two builders that agree in
    /// all that the index block is made from.
    proof fn lemma_index_same(&self, other: &Self, offset: u64, r: Result<BlockHandle, Error>)
        requires
            self.index_written(offset, r),
            self.pending_index_entry == other.pending_index_entry,
            self.pending_handle == other.pending_handle,
            self.last_key == other.last_key,
            self.index_block == other.index_block,
            self.comparator == other.comparator,
            self.codec == other.codec,
            self.compression == other.compression,
        ensures
            other.index_written(offset, r),
    {
        reveal(TableBuilder::index_written);
        reveal(TableBuilder::index_follows);
        if self.pending_index_entry {
            let next = choose|next: Seq<u8>|
                self.comparator.le(self.last_key@, next) && #[trigger] self.index_follows(
                    offset,
                    next,
                    r,
                );
            assert(other.index_follows(offset, next, r));
        }
    }

    /// The builder as it stands once the block that is being built was written at the
    /// handle `h`, as far as what follows the data blocks is made from it: the file ends
    /// where that block ends, the block is one more block written, and its index entry waits.
    pub closed spec fn after_flush(&self, h: BlockHandle) -> Self {
        TableBuilder {
            offset: end_of(h) as u64,
            pending_index_entry: true,
            pending_handle: h,
            blocks: Ghost(
                self.blocks@.push(
                    BlockRec {
                        handle: h,
                        raw: Seq::empty(),
                        entries: self.data_block.entries(),
                        kind: CompressionType::NoCompression,
                        stored: Seq::empty(),
                    },
                ),
            ),
            ..*self
        }
    }

    /// The two builders agree in all that what follows the data blocks is made from.
    pub closed spec fn tail_like(&self, other: &Self) -> bool {
        &&& self.offset == other.offset
        &&& written_keys(self.blocks@, self.blocks@.len() as int) == written_keys(
            other.blocks@,
            other.blocks@.len() as int,
        )
        &&& self.policy == other.policy
        &&& self.block_restart_interval == other.block_restart_interval
        &&& self.pending_index_entry == other.pending_index_entry
        &&& self.pending_handle == other.pending_handle
        &&& self.last_key == other.last_key
        &&& self.index_block == other.index_block
        &&& self.comparator == other.comparator
        &&& self.codec == other.codec
        &&& self.compression == other.compression
    }

    /// What writing the metaindex block comes to is the same for two builders that agree
    /// in all that it is made from.
    proof fn lemma_meta_same(&self, other: &Self, r: Result<BlockHandle, Error>)
        requires
            self.meta_written(r),
            self.tail_like(other),
        ensures
            other.meta_written(r),
    {
        reveal(TableBuilder::meta_written);
        reveal(TableBuilder::meta_follows);
        match self.policy@ {
            None => {},
            Some(p) => {
                let (filters, first) = choose|filters: Seq<u8>, first: Result<BlockHandle, Error>|
                    filter_block_of(
                        p,
                        written_keys(self.blocks@, self.blocks@.len() as int),
                        self.offset,
                        filters,
                    ) && block_sealed::<F>(
                        self.offset,
                        filters,
                        CompressionType::NoCompression,
                        first,
                    ) && #[trigger] self.meta_follows(p, filters, first, r);
                assert(other.meta_follows(p, filters, first, r));
                assert(other.meta_with(p, r));
            },
        }
    }

    /// What writing all that follows the data blocks comes to is the same for two
    /// builders that agree in all that it is made from.
    proof fn lemma_tail_same(&self, other: &Self, sync: bool, r: Result<u64, Error>)
        requires
            self.tail_written(sync, r),
            self.tail_like(other),
        ensures
            other.tail_written(sync, r),
    {
        reveal(TableBuilder::tail_written);
        reveal(TableBuilder::tail_after_meta);
        reveal(TableBuilder::tail_after_index);
        let meta = choose|meta: Result<BlockHandle, Error>|
            self.meta_written(meta) && #[trigger] self.tail_after_meta(meta, sync, r);
        self.lemma_meta_same(other, meta);
        match meta {
            Err(e) => {},
            Ok(m) => {
                let index = choose|index: Result<BlockHandle, Error>|
                    self.index_written(end_of(m) as u64, index)
                        && #[trigger] self.tail_after_index(m, index, sync, r);
                self.lemma_index_same(other, end_of(m) as u64, index);
                assert(other.tail_after_index(m, index, sync, r));
            },
        }
        assert(other.tail_after_meta(meta, sync, r));
    }

    /// Where the metaindex block could not be written, the error is that of the whole.
    proof fn lemma_tail_without_meta(
        &self,
        meta: Result<BlockHandle, Error>,
        sync: bool,
        r: Result<u64, Error>,
    )
        requires
            self.meta_written(meta),
            meta matches Err(e) && r == Err::<u64, Error>(e),
        ensures
            self.tail_written(sync, r),
    {
        reveal(TableBuilder::tail_written);
        reveal(TableBuilder::tail_after_meta);
        assert(self.tail_after_meta(meta, sync, r));
    }

    /// Where the metaindex block was written, what follows the writing of the index block
    /// is what the whole comes to.
    proof fn lemma_tail_with_meta(
        &self,
        m: BlockHandle,
        index: Result<BlockHandle, Error>,
        sync: bool,
        r: Result<u64, Error>,
    )
        requires
            self.meta_written(Ok::<BlockHandle, Error>(m)),
            end_of(m) <= u64::MAX,
            self.index_written(end_of(m) as u64, index),
            match index {
                Err(e) => r == Err::<u64, Error>(e),
                Ok(i) => end_of(i) <= u64::MAX && footer_written::<F>(
                    end_of(i) as u64,
                    Footer { meta_index_handle: m, index_handle: i },
                    sync,
                    r,
                ),
            },
        ensures
            self.tail_written(sync, r),
    {
        reveal(TableBuilder::tail_written);
        reveal(TableBuilder::tail_after_meta);
        reveal(TableBuilder::tail_after_index);
        assert(self.tail_after_index(m, index, sync, r));
        assert(self.tail_after_meta(Ok::<BlockHandle, Error>(m), sync, r));
    }

    /// Where the filter block and the metaindex block could not be written, a block could
    /// not be written or the metaindex block had no room.
    proof fn lemma_meta_fails(&self, r: Result<BlockHandle, Error>)
        requires
            self.meta_written(r),
            r is Err,
        ensures
            block_failed::<F>(r->Err_0) || entry_refused(r->Err_0),
    {
        reveal(TableBuilder::meta_written);
        reveal(TableBuilder::meta_follows);
        let e = r->Err_0;
        let interval = self.block_restart_interval as nat;
        match self.policy@ {
            None => {
                lemma_block_fails::<F, Z>(
                    self.codec,
                    self.compression,
                    self.offset,
                    encode_block(Seq::empty(), interval),
                    r,
                );
            },
            Some(p) => {
                let (filters, first) = choose|filters: Seq<u8>, first: Result<BlockHandle, Error>|
                    filter_block_of(
                        p,
                        written_keys(self.blocks@, self.blocks@.len() as int),
                        self.offset,
                        filters,
                    ) && block_sealed::<F>(
                        self.offset,
                        filters,
                        CompressionType::NoCompression,
                        first,
                    ) && #[trigger] self.meta_follows(p, filters, first, r);
                match first {
                    Err(x) => {
                        lemma_sealed_fails::<F>(
                            self.offset,
                            filters,
                            CompressionType::NoCompression,
                            first,
                        );
                    },
                    Ok(h) => {
                        let key = spec_filter_key(p.spec_name());
                        let value = spec_encode_handle(h);
                        if has_room(Seq::empty(), interval, key, value) {
                            lemma_block_fails::<F, Z>(
                                self.codec,
                                self.compression,
                                end_of(h) as u64,
                                encode_block(seq![(key, value)], interval),
                                r,
                            );
                        } else {
                            assert(add_refused(e, AddFault::NoRoom));
                        }
                    },
                }
            },
        }
    }

    /// Where the index block could not be written, a block could not be written or the
    /// index block refused an entry.
    proof fn lemma_index_fails(&self, offset: u64, r: Result<BlockHandle, Error>)
        requires
            self.index_written(offset, r),
            r is Err,
        ensures
            block_failed::<F>(r->Err_0) || entry_refused(r->Err_0),
    {
        reveal(TableBuilder::index_written);
        reveal(TableBuilder::index_follows);
        let e = r->Err_0;
        let index = self.index_block.entries();
        let interval = self.index_block.interval();
        if self.pending_index_entry {
            let next = choose|next: Seq<u8>|
                self.comparator.le(self.last_key@, next) && #[trigger] self.index_follows(
                    offset,
                    next,
                    r,
                );
            let value = spec_encode_handle(self.pending_handle);
            match add_fault(index, interval, self.comparator, false, next, value) {
                Some(fault) => {
                    assert(add_refused(e, fault));
                },
                None => {
                    lemma_block_fails::<F, Z>(
                        self.codec,
                        self.compression,
                        offset,
                        encode_block(index.push((next, value)), interval),
                        r,
                    );
                },
            }
        } else {
            lemma_block_fails::<F, Z>(
                self.codec,
                self.compression,
                offset,
                encode_block(index, interval),
                r,
            );
        }
    }

    /// Where all that follows the data blocks could not be written, a step of the
    /// building has failed; where it was written, the file was flushed, if that was asked
    /// for, and closed.
    proof fn lemma_tail_outcome(&self, sync: bool, r: Result<u64, Error>)
        requires
            self.tail_written(sync, r),
        ensures
            r matches Err(e) ==> build_failed::<F>(e),
            r is Ok ==> close_done::<F>() && (sync ==> flush_done::<F>()),
    {
        reveal(TableBuilder::tail_written);
        reveal(TableBuilder::tail_after_meta);
        reveal(TableBuilder::tail_after_index);
        let meta = choose|meta: Result<BlockHandle, Error>|
            self.meta_written(meta) && #[trigger] self.tail_after_meta(meta, sync, r);
        match meta {
            Err(e) => {
                self.lemma_meta_fails(meta);
            },
            Ok(m) => {
                let index = choose|index: Result<BlockHandle, Error>|
                    self.index_written(end_of(m) as u64, index)
                        && #[trigger] self.tail_after_index(m, index, sync, r);
                match index {
                    Err(e) => {
                        self.lemma_index_fails(end_of(m) as u64, index);
                    },
                    Ok(i) => {
                        lemma_footer_outcome::<F>(
                            end_of(i) as u64,
                            Footer { meta_index_handle: m, index_handle: i },
                            sync,
                            r,
                        );
                    },
                }
            },
        }
    }

    /// No block was written: the length of the file, what was written and the block written
    /// last are as they were.
    closed spec fn wrote_nothing(&self, before: &Self) -> bool {
        &&& self.offset == before.offset
        &&& self.written == before.written
        &&& self.plain == before.plain
        &&& self.last == before.last
    }

    /// A block was written: what was written grew by its stored form, sealed, at the handle
    /// returned, and the block written last is this block.
    closed spec fn wrote(&self, before: &Self, handle: BlockHandle, raw: Seq<u8>) -> bool {
        &&& self.same_but_file(before)
        &&& self.last@.handle == handle
        &&& self.last@.raw == raw
        &&& handle.offset == before.written@.len()
        &&& handle.size == self.last@.stored.len()
        &&& self.offset == self.written@.len()
        &&& self.written@ == before.written@ + sealed(
            self.last@.stored,
            spec_compression_byte(self.last@.kind),
        )
        &&& rec_kept(self.codec, self.plain@, self.last@)
        &&& self.plain@ == (before.plain@ && self.last@.kind == CompressionType::NoCompression)
    }

    /// Compresses, seals and writes the block `raw`; on success the file is longer by the
    /// stored block and its trailer.
    fn write_block(&mut self, raw: Vec<u8>) -> (r: Result<BlockHandle, Error>)
        requires
            old(self).offset == old(self).written@.len(),
            old(self).compression == CompressionType::NoCompression ==> old(self).plain@,
        ensures
            final(self).same_but_file(old(self)),
            final(self).compression == CompressionType::NoCompression ==> final(self).plain@,
            r matches Ok(h) ==> final(self).wrote(old(self), h, raw@),
            r is Err ==> final(self).wrote_nothing(old(self)),
            r matches Ok(h) ==> final(self).offset == end_of(h),
            r is Ok ==> form_of(
                old(self).codec,
                old(self).compression,
                raw@,
                final(self).last@.kind,
                final(self).last@.stored,
            ),
            block_written::<F, Z>(
                old(self).codec,
                old(self).compression,
                old(self).offset,
                raw@,
                r,
            ),
    {
        let bytes = raw.as_slice();
        let compressed = match self.compression {
            CompressionType::Snappy => self.codec.compress(bytes),
            CompressionType::NoCompression => None,
        };
        proof {
            if compressed is Some && self.compression == CompressionType::Snappy {
                assert(call_ensures(Z::compress, (&self.codec, bytes), compressed));
                assert(was_compressed(self.codec, raw@, compressed->Some_0@));
            }
        }
        let ghost raw_bytes = raw@;
        let ghost offset = self.offset;
        let (kind, stored) = stored_form(raw, compressed, self.compression);
        let r = self.write_stored(stored.as_slice(), kind, Ghost(raw_bytes));
        proof {
            if self.compression == CompressionType::Snappy {
                assert(call_ensures(Z::compress, (&self.codec, bytes), compressed));
            }
            assert(form_of(self.codec, self.compression, raw_bytes, kind, stored@));
            assert(block_sealed::<F>(offset, stored@, kind, r));
        }
        r
    }

    /// Seals and writes a block in the form given.
    fn write_stored(&mut self, stored: &[u8], kind: CompressionType, Ghost(raw): Ghost<Seq<u8>>) -> (r:
        Result<BlockHandle, Error>)
        requires
            old(self).offset == old(self).written@.len(),
            kind == CompressionType::NoCompression ==> stored@ == raw,
            kind == CompressionType::Snappy ==> was_compressed(old(self).codec, raw, stored@),
        ensures
            final(self).same_but_file(old(self)),
            kind == CompressionType::NoCompression ==> final(self).plain@ == old(self).plain@,
            r matches Ok(h) ==> final(self).wrote(old(self), h, raw) && final(self).last@.kind
                == kind && final(self).last@.stored == stored@,
            r is Err ==> final(self).wrote_nothing(old(self)),
            r matches Ok(h) ==> final(self).offset == end_of(h),
            block_sealed::<F>(old(self).offset, stored@, kind, r),
    {
        match write_sealed(&mut self.file, stored, kind, self.offset) {
            Ok(handle) => {
                self.offset = self.offset + stored.len() as u64 + BLOCK_TRAILER_SIZE as u64;
                proof {
                    self.written = Ghost(
                        self.written@ + sealed(stored@, spec_compression_byte(kind)),
                    );
                    self.plain = Ghost(self.plain@ && kind == CompressionType::NoCompression);
                    self.last = Ghost(
                        BlockRec {
                            handle,
                            raw,
                            entries: Seq::empty(),
                            kind,
                            stored: stored@,
                        },
                    );
                }
                Ok(handle)
            },
            Err(e) => Err(e),
        }
    }

    /// Ends the block that `builder` holds and empties the builder; returns the block.
    fn take_block(builder: &mut BlockBuilder<C>) -> (raw: Vec<u8>)
        requires
            old(builder).wf(),
        ensures
            final(builder).wf(),
            final(builder).entries() == Seq::<Pair>::empty(),
            final(builder).comparator() == old(builder).comparator(),
            final(builder).interval() == old(builder).interval(),
            !final(builder).finished(),
            good_block(raw@, old(builder).entries(), old(builder).comparator()),
            raw@ == encode_block(old(builder).entries(), old(builder).interval()),
    {
        reveal(good_block);
        let raw: Vec<u8> = slice_to_vec(builder.finish());
        builder.reset();
        raw
    }

    /// What was written hangs together after the data block that was being built has been
    /// written.
    proof fn lemma_flushed(&self, wrote: &Self, after: &Self, data: Seq<Pair>, handle: BlockHandle)
        requires
            self.hangs(),
            !self.pending_index_entry,
            data == self.data_block.entries(),
            data.len() > 0,
            good_block(wrote.last@.raw, data, self.comparator),
            wrote.written@ == self.written@ + sealed(
                wrote.last@.stored,
                spec_compression_byte(wrote.last@.kind),
            ),
            wrote.last@.handle == handle,
            handle.offset == self.written@.len(),
            handle.size == wrote.last@.stored.len(),
            rec_kept(self.codec, wrote.plain@, wrote.last@),
            wrote.plain@ ==> self.plain@,
            wrote.blocks == self.blocks,
            wrote.index_block == self.index_block,
            wrote.comparator == self.comparator,
            wrote.codec == self.codec,
            wrote.entries == self.entries,
            after.written == wrote.written,
            after.plain == wrote.plain,
            after.codec == self.codec,
            after.offset == after.written@.len(),
            after.comparator == self.comparator,
            after.index_block == self.index_block,
            after.entries == self.entries,
            after.data_block.entries() == Seq::<Pair>::empty(),
            after.pending_index_entry,
            after.pending_handle == handle,
            after.blocks@ == self.blocks@.push(
                BlockRec {
                    handle,
                    raw: wrote.last@.raw,
                    entries: data,
                    kind: wrote.last@.kind,
                    stored: wrote.last@.stored,
                },
            ),
        ensures
            after.hangs(),
    {
        let rec = BlockRec {
            handle,
            raw: wrote.last@.raw,
            entries: data,
            kind: wrote.last@.kind,
            stored: wrote.last@.stored,
        };
        reveal(good_block);
        lemma_image_flush(
            self.written@,
            self.blocks@,
            self.index_block.entries(),
            data,
            self.comparator,
            rec.raw,
            rec.stored,
            rec.kind,
            handle,
        );
        lemma_flat_push(rec_entries(self.blocks@), data);
        assert(rec_entries(after.blocks@) =~= rec_entries(self.blocks@).push(data));
        assert(after.entries@ =~= flat(rec_entries(after.blocks@)) + Seq::<Pair>::empty());
        assert forall|i: int| 0 <= i < after.blocks@.len() implies rec_kept(
            after.codec,
            after.plain@,
            #[trigger] after.blocks@[i],
        ) by {
            if i < self.blocks@.len() {
                assert(rec_kept(self.codec, self.plain@, self.blocks@[i]));
            }
        }
    }

    /// Ends the data block that is being built, if it has entries, writes it in the form in
    /// which it is stored, with its trailer, and flushes the file.
    ///
    /// Fails with `InvalidArgument` where the builder is not open. On an open builder it
    /// fails only where the block cannot be written, with the error of the write or that of a
    /// file that has grown as long as offsets can say, or where the flush fails, with its
    /// error; the table is given up then.
    pub fn flush(&mut self) -> (r: Result<(), Error>)
        requires
            old(self).wf(),
        ensures
            final(self).wf(),
            final(self).entries() == old(self).entries(),
            final(self).same_setup(old(self)),
            old(self).state() != BuilderState::Open ==> (r matches Err(e) && not_open(e))
                && final(self).state() == old(self).state(),
            r is Ok ==> final(self).state() == BuilderState::Open,
            r is Ok ==> final(self).buffered().len() == 0,
            r is Ok ==> final(self).pending() == (old(self).pending() || old(self).buffered().len()
                > 0),
            r is Err && old(self).state() == BuilderState::Open ==> final(self).state()
                == BuilderState::Abandoned,
            old(self).state() == BuilderState::Open && old(self).buffered().len() == 0 ==> r is Ok
                && final(self).written() == old(self).written(),
            old(self).state() == BuilderState::Open ==> (r matches Err(e) ==> block_failed::<F>(e)
                || flush_failed::<F>(e)),
            r is Ok && old(self).buffered().len() > 0 ==> flush_done::<F>(),
            old(self).state() == BuilderState::Open && old(self).buffered().len() > 0
                ==> block_flushed::<F, Z>(
                old(self).codec(),
                old(self).compression(),
                old(self).written().len() as u64,
                encode_block(old(self).buffered(), old(self).interval()),
                r,
            ),
            r is Ok && old(self).buffered().len() > 0 ==> old(self).appended(
                encode_block(old(self).buffered(), old(self).interval()),
                final(self).written(),
            ),
            r is Ok && old(self).buffered().len() == 0 ==> final(self).tail_like(old(self)),
            r is Ok && old(self).buffered().len() > 0 ==> exists|h: BlockHandle| #[trigger]
                block_written::<F, Z>(
                    old(self).codec(),
                    old(self).compression(),
                    old(self).written().len() as u64,
                    encode_block(old(self).buffered(), old(self).interval()),
                    Ok::<BlockHandle, Error>(h),
                ) && final(self).tail_like(&old(self).after_flush(h)),
    {
        if self.state != BuilderState::Open {
            return Err(Error::invalid_argument("the table builder is not open"));
        }
        if self.data_block.is_empty() {
            return Ok(());
        }
        let ghost data = self.data_block.entries();
        let raw: Vec<u8> = Self::take_block(&mut self.data_block);
        let ghost raw_bytes = raw@;
        let written = self.write_block(raw);
        proof {
            if written is Err {
                lemma_block_fails::<F, Z>(
                    old(self).codec,
                    old(self).compression,
                    old(self).offset,
                    raw_bytes,
                    written,
                );
            }
        }
        let ghost first = written;
        let handle = match written {
            Ok(h) => h,
            Err(e) => {
                proof {
                    assert(flush_follows::<F>(first, Err(e)));
                }
                self.state = BuilderState::Abandoned;
                return Err(e);
            },
        };
        let ghost wrote = *self;
        self.pending_index_entry = true;
        self.pending_handle = handle;
        proof {
            let rec = BlockRec {
                handle,
                raw: raw_bytes,
                entries: data,
                kind: self.last@.kind,
                stored: self.last@.stored,
            };
            self.blocks = Ghost(self.blocks@.push(rec));
            if old(self).pending_index_entry {
                lemma_image_pending(
                    old(self).written@,
                    old(self).blocks@,
                    old(self).index_block.entries(),
                    data,
                    old(self).comparator,
                );
            }
            old(self).lemma_flushed(&wrote, self, data, handle);
        }
        proof {
            assert(wrote.written@ == old(self).written@ + sealed(
                wrote.last@.stored,
                spec_compression_byte(wrote.last@.kind),
            ));
        }
        match self.file.flush() {
            Ok(_) => {
                proof {
                    assert(flush_follows::<F>(first, Ok(())));
                }
            },
            Err(e) => {
                proof {
                    assert(flush_follows::<F>(first, Err(e)));
                }
                self.state = BuilderState::Abandoned;
                return Err(e);
            },
        }
        let offset: u64 = self.offset;
        match &mut self.filter_block {
            Some(fb) => {
                proof {
                    lemma_keys_flush(
                        fb.added(),
                        old(self).blocks@,
                        data,
                        old(self).offset,
                        BlockRec {
                            handle,
                            raw: raw_bytes,
                            entries: data,
                            kind: wrote.last@.kind,
                            stored: wrote.last@.stored,
                        },
                        offset,
                    );
                    lemma_all_keys_flush(
                        old(self).blocks@,
                        data,
                        old(self).offset,
                        BlockRec {
                            handle,
                            raw: raw_bytes,
                            entries: data,
                            kind: wrote.last@.kind,
                            stored: wrote.last@.stored,
                        },
                        offset,
                    );
                }
                fb.start_block(offset);
            },
            None => {},
        }
        proof {
            let rec = BlockRec {
                handle,
                raw: raw_bytes,
                entries: data,
                kind: wrote.last@.kind,
                stored: wrote.last@.stored,
            };
            let like = old(self).after_flush(handle);
            let n = old(self).blocks@.len() as int;
            lemma_written_keys_push(old(self).blocks@, rec, n);
            lemma_written_keys_push(old(self).blocks@, like.blocks@[n], n);
            assert(self.blocks@[n] == rec);
            assert(written_keys(self.blocks@, n + 1) == written_keys(like.blocks@, n + 1));
            assert(self.tail_like(&like));
        }
        Ok(())
    }

    /// Adds an entry, and writes the data block that is being built once it is as large
    /// as the block size asked for.
    ///
    /// Fails with `InvalidArgument`, and adds nothing, where the builder is not open, `key`
    /// does not come strictly after the last key added, or the data block has no room for
    /// the entry. Where the file fails, fails with its error and gives the table up.
    /// Succeeds, without a write, where none of these holds, no index entry waits for the
    /// key, and the data block stays below the block size asked for. Where the data block
    /// reaches that size it is written as `flush` writes it, and a failure of that, or of
    /// the index block to take the entry that waits, gives the table up.
    pub fn add(&mut self, key: &[u8], value: &[u8]) -> (r: Result<(), Error>)
        requires
            old(self).wf(),
        ensures
            final(self).wf(),
            final(self).same_setup(old(self)),
            old(self).state() != BuilderState::Open ==> (r matches Err(e) && not_open(e))
                && final(self).state() == old(self).state(),
            r is Ok ==> final(self).state() == BuilderState::Open && final(self).entries()
                == old(self).entries().push((key@, value@)),
            old(self).state() == BuilderState::Open && !old(self).comes_next(key@) ==> (
            r matches Err(e) && out_of_order(e)) && final(self).entries() == old(self).entries()
                && final(self).state() == BuilderState::Open,
            old(self).state() == BuilderState::Open && old(self).comes_next(key@) && !has_room(
                old(self).buffered(),
                old(self).interval(),
                key@,
                value@,
            ) ==> (r matches Err(e) && no_room(e)) && final(self).entries() == old(self).entries()
                && final(self).state() == BuilderState::Open,
            old(self).state() == BuilderState::Open && old(self).comes_next(key@) && has_room(
                old(self).buffered(),
                old(self).interval(),
                key@,
                value@,
            ) && !old(self).pending() && block_size(
                old(self).buffered().push((key@, value@)),
                old(self).interval(),
            ) < old(self).limit() ==> r is Ok && final(self).buffered() == old(
                self,
            ).buffered().push((key@, value@)) && final(self).written() == old(self).written()
                && !final(self).pending(),
            r is Ok && block_size(
                old(self).buffered().push((key@, value@)),
                old(self).interval(),
            ) < old(self).limit() ==> final(self).buffered() == old(self).buffered().push(
                (key@, value@),
            ) && final(self).written() == old(self).written() && !final(self).pending(),
            r is Ok && block_size(
                old(self).buffered().push((key@, value@)),
                old(self).interval(),
            ) >= old(self).limit() ==> final(self).buffered().len() == 0 && final(self).pending(),
            old(self).state() == BuilderState::Open ==> (r matches Err(e) ==> entry_refused(e)
                || block_failed::<F>(e) || flush_failed::<F>(e)),
            old(self).state() == BuilderState::Open && old(self).comes_next(key@) && has_room(
                old(self).buffered(),
                old(self).interval(),
                key@,
                value@,
            ) ==> (r matches Err(e) ==> (old(self).pending() && entry_refused(e)) || (block_size(
                old(self).buffered().push((key@, value@)),
                old(self).interval(),
            ) >= old(self).limit() && block_flushed::<F, Z>(
                old(self).codec(),
                old(self).compression(),
                old(self).written().len() as u64,
                encode_block(old(self).buffered().push((key@, value@)), old(self).interval()),
                r,
            ))),
            r is Err && old(self).state() == BuilderState::Open && old(self).comes_next(key@)
                && has_room(old(self).buffered(), old(self).interval(), key@, value@)
                ==> final(self).state() == BuilderState::Abandoned && (final(self).entries()
                == old(self).entries() || final(self).entries() == old(self).entries().push(
                (key@, value@),
            )),
    {
        if self.state != BuilderState::Open {
            return Err(Error::invalid_argument("the table builder is not open"));
        }
        if self.num_entries > 0 {
            match self.comparator.compare(self.last_key.as_slice(), key) {
                Order::Less => {},
                _ => {
                    let e = Error::invalid_argument("key is not greater than the last added key");
                    proof {
                        assert(add_refused(e, AddFault::OutOfOrder));
                    }
                    return Err(e);
                },
            }
        }
        let ghost data = self.data_block.entries();
        let ghost index = self.index_block.entries();
        match self.data_block.add(key, value) {
            Ok(_) => {},
            Err(e) => {
                proof {
                    let fault = add_fault(
                        data,
                        old(self).data_block.interval(),
                        self.comparator,
                        false,
                        key@,
                        value@,
                    )->Some_0;
                    assert(add_refused(e, fault));
                }
                return Err(e);
            },
        }
        if self.pending_index_entry {
            let separator = self.comparator.separator(self.last_key.as_slice(), key);
            let handle = self.pending_handle.encoded();
            proof {
                lemma_image_pending(
                    self.written@,
                    self.blocks@,
                    index,
                    data,
                    self.comparator,
                );
                assert(self.entries@ =~= flat(rec_entries(self.blocks@)));
                assert(data =~= Seq::<Pair>::empty());
                assert(self.data_block.entries()[0] == (key@, value@));
                lemma_image_index(
                    self.written@,
                    self.blocks@,
                    index,
                    self.data_block.entries(),
                    self.comparator,
                    separator@,
                );
            }
            match self.index_block.add(separator.as_slice(), handle.as_slice()) {
                Ok(_) => {},
                Err(e) => {
                    proof {
                        let fault = add_fault(
                            index,
                            old(self).index_block.interval(),
                            self.comparator,
                            false,
                            separator@,
                            handle@,
                        )->Some_0;
                        assert(add_refused(e, fault));
                    }
                    self.state = BuilderState::Abandoned;
                    return Err(e);
                },
            }
            self.pending_index_entry = false;
        } else {
            proof {
                if data.len() > 0 {
                    lemma_image_add(
                        self.written@,
                        self.blocks@,
                        index,
                        data,
                        self.comparator,
                        (key@, value@),
                    );
                } else {
                    assert(data =~= Seq::<Pair>::empty());
                    assert(self.data_block.entries() =~= seq![(key@, value@)]);
                    lemma_image_first(
                        self.written@,
                        self.blocks@,
                        index,
                        self.comparator,
                        (key@, value@),
                    );
                }
            }
        }
        match &mut self.filter_block {
            Some(fb) => {
                proof {
                    lemma_keys_add(fb.added(), self.blocks@, data, self.offset, (key@, value@));
                    lemma_all_keys_add(self.blocks@, data, self.offset, (key@, value@));
                }
                fb.add_key(key);
            },
            None => {},
        }
        self.last_key.clear();
        append_range(&mut self.last_key, key, 0, key.len());
        if self.num_entries < u64::MAX {
            self.num_entries = self.num_entries + 1;
        }
        proof {
            assert(self.last_key@ =~= key@);
            lemma_increasing_push(self.entries@, self.comparator, key@, value@);
            self.entries = Ghost(self.entries@.push((key@, value@)));
            assert(self.entries@ =~= flat(rec_entries(self.blocks@))
                + self.data_block.entries());
        }
        if self.data_block.current_size_estimate() >= self.block_size {
            return self.flush();
        }
        Ok(())
    }

    /// Ends the table: writes the data block that is being built, the filter block if
    /// filters were asked for, the metaindex block, the index block and the footer, and
    /// returns the length of the file. With `sync`, the file is flushed before it is closed.
    ///
    /// What was written is a table in order that holds the entries added, in their order,
    /// and with a filter policy it has a filter block in order, which lets every key added
    /// pass: for every way of undoing compression that undoes the compression of the codec,
    /// and for every way at all where every block was stored as it is, as all are where no
    /// compression is asked for.
    ///
    /// Fails with `InvalidArgument` where the builder is not open. On an open builder it
    /// fails only where a step of `finish_written` fails, with the error of that step: a
    /// write, a flush or the closing of the file, a file that has grown as long as offsets
    /// can say, or a block that refuses an entry; the table is given up then. Where it
    /// succeeds the file was closed, after a flush if `sync`.
    pub fn finish(&mut self, sync: bool) -> (r: Result<u64, Error>)
        requires
            old(self).wf(),
        ensures
            final(self).wf(),
            final(self).entries() == old(self).entries(),
            final(self).same_setup(old(self)),
            old(self).state() != BuilderState::Open ==> (r matches Err(e) && not_open(e))
                && final(self).state() == old(self).state(),
            r is Ok ==> final(self).state() == BuilderState::Closed,
            r is Err && old(self).state() == BuilderState::Open ==> final(self).state()
                == BuilderState::Abandoned,
            r matches Ok(n) ==> n == final(self).written().len(),
            r is Ok ==> forall|expand: spec_fn(Seq<u8>) -> Option<Seq<u8>>| #[trigger]
                final(self).suits(expand) ==> final(self).finished(expand),
            old(self).state() == BuilderState::Open ==> (r matches Err(e) ==> build_failed::<F>(
                e,
            )),
            r is Ok ==> close_done::<F>() && (sync ==> flush_done::<F>()),
            old(self).state() == BuilderState::Open ==> old(self).finish_written(sync, r),
    {
        let flushed = self.flush();
        proof {
            if old(self).state() == BuilderState::Open && flushed is Err {
                let e = flushed->Err_0;
                let w = choose|w: Result<BlockHandle, Error>|
                    block_written::<F, Z>(
                        old(self).codec(),
                        old(self).compression(),
                        old(self).written().len() as u64,
                        encode_block(old(self).buffered(), old(self).interval()),
                        w,
                    ) && #[trigger] flush_follows::<F>(w, flushed);
                assert(old(self).finish_follows(w, sync, Err(e)));
            }
        }
        match flushed {
            Ok(_) => {},
            Err(e) => {
                return Err(e);
            },
        }
        let ghost after = *self;
        self.state = BuilderState::Closed;
        let ghost mid = *self;
        let tail = self.write_tail(sync);
        proof {
            mid.lemma_tail_outcome(sync, tail);
            if old(self).buffered().len() == 0 {
                mid.lemma_tail_same(old(self), sync, tail);
            } else {
                let h = choose|h: BlockHandle| #[trigger]
                    block_written::<F, Z>(
                        old(self).codec(),
                        old(self).compression(),
                        old(self).written().len() as u64,
                        encode_block(old(self).buffered(), old(self).interval()),
                        Ok::<BlockHandle, Error>(h),
                    ) && after.tail_like(&old(self).after_flush(h));
                mid.lemma_tail_same(&old(self).after_flush(h), sync, tail);
                assert(old(self).finish_follows(Ok(h), sync, tail));
            }
        }
        match tail {
            Ok(n) => Ok(n),
            Err(e) => {
                self.state = BuilderState::Abandoned;
                Err(e)
            },
        }
    }

    /// What was written, read with `expand` to undo compression, is a table in order that
    /// holds the entries added, in their order; its index block is built with a restart point
    /// at every entry; and with a filter policy it has a filter block in order, which is the
    /// one that the policy makes of the keys of the table.
    pub open spec fn finished(&self, expand: spec_fn(Seq<u8>) -> Option<Seq<u8>>) -> bool {
        &&& table_in_order(self.image(expand), self.comparator())
        &&& views_hold(table_entries(self.image(expand)), self.entries())
        &&& index_exact(self.image(expand))
        &&& self.policy() matches Some(p) ==> filter_in_order(self.image(expand), p)
            && filter_exact(self.image(expand), p)
    }

    /// Where no compression is asked for, every block is stored as it is.
    pub proof fn lemma_plain(&self)
        requires
            self.wf(),
            self.compression() == CompressionType::NoCompression,
        ensures
            self.plain(),
    {
    }

    /// Round trip: what a finished builder wrote, read as a table, has as many entries as
    /// were added, its entry number `i` has the key and the value of the entry added as
    /// number `i`, and the keys are strictly increasing: a cursor that goes forward through
    /// the table meets the entries added in the order in which they were added, and one that
    /// goes backward meets them in the reverse order.
    pub proof fn lemma_round_trip(&self, expand: spec_fn(Seq<u8>) -> Option<Seq<u8>>, i: int)
        requires
            self.wf(),
            self.finished(expand),
            0 <= i < self.entries().len(),
        ensures
            table_entries(self.image(expand)).len() == self.entries().len(),
            table_entries(self.image(expand))[i].key == self.entries()[i].0,
            table_entries(self.image(expand))[i].value == self.entries()[i].1,
            increasing(self.entries(), self.comparator()),
    {
    }

    /// The answer that a lookup finds in what a finished builder wrote is the value added
    /// with the key, and none where no entry was added with the key.
    pub proof fn lemma_lookup(
        &self,
        expand: spec_fn(Seq<u8>) -> Option<Seq<u8>>,
        key: Seq<u8>,
        answer: Option<Seq<u8>>,
    )
        requires
            self.wf(),
            self.finished(expand),
            found_in(table_entries(self.image(expand)), self.comparator(), key, answer),
        ensures
            match answer {
                Some(v) => exists|i: int|
                    0 <= i < self.entries().len() && equiv(
                        self.comparator(),
                        #[trigger] self.entries()[i].0,
                        key,
                    ) && v == self.entries()[i].1,
                None => forall|i: int|
                    0 <= i < self.entries().len() ==> !equiv(
                        self.comparator(),
                        #[trigger] self.entries()[i].0,
                        key,
                    ),
            },
    {
        let views = table_entries(self.image(expand));
        match answer {
            Some(v) => {
                let i = choose|i: int|
                    0 <= i < views.len() && self.comparator().le(#[trigger] views[i].key, key)
                        && self.comparator().le(key, views[i].key) && v == views[i].value;
                assert(equiv(self.comparator(), self.entries()[i].0, key));
            },
            None => {
                assert forall|i: int| 0 <= i < self.entries().len() implies !equiv(
                    self.comparator(),
                    #[trigger] self.entries()[i].0,
                    key,
                ) by {
                    assert(views[i].key == self.entries()[i].0);
                }
            },
        }
    }

    /// Writes the filter block, if there is one, and the metaindex block; returns the
    /// handle of the metaindex block.
    fn write_meta_blocks(&mut self) -> (r: Result<BlockHandle, Error>)
        requires
            old(self).wf(),
            old(self).hangs(),
            old(self).filter_ok(),
            old(self).data_block.entries().len() == 0,
            old(self).state == BuilderState::Closed,
        ensures
            final(self).wf(),
            final(self).entries == old(self).entries,
            final(self).block_size == old(self).block_size,
            final(self).data_block.interval() == old(self).data_block.interval(),
            final(self).comparator == old(self).comparator,
            final(self).codec == old(self).codec,
            final(self).compression == old(self).compression,
            final(self).policy == old(self).policy,
            final(self).state == old(self).state,
            final(self).index_block == old(self).index_block,
            final(self).data_block == old(self).data_block,
            final(self).blocks == old(self).blocks,
            r matches Ok(h) ==> final(self).hangs() && final(self).meta_ok() && h
                == final(self).meta@.handle,
            final(self).pending_index_entry == old(self).pending_index_entry,
            final(self).pending_handle == old(self).pending_handle,
            final(self).last_key == old(self).last_key,
            r matches Ok(h) ==> final(self).offset == end_of(h),
            old(self).meta_written(r),
    {
        let mut meta_block = BlockBuilder::new(
            self.block_restart_interval,
            BytewiseComparator::new(),
        );
        // the filter block, and what its writing came to
        let ghost mut seen: (Seq<u8>, Result<BlockHandle, Error>) = (
            Seq::empty(),
            Err(Error::NotFound),
        );
        let filter_block = self.filter_block.take();
        match filter_block {
            Some(mut fb) => {
                let name = filter_key(fb.policy_name());
                let ghost added = fb.added();
                let ghost policy = fb.policy();
                let contents: Vec<u8> = slice_to_vec(fb.finish());
                proof {
                    assert(added =~= written_keys(self.blocks@, self.blocks@.len() as int));
                }
                let ghost before = *self;
                let first = self.write_stored(
                    contents.as_slice(),
                    CompressionType::NoCompression,
                    Ghost(contents@),
                );
                proof {
                    seen = (contents@, first);
                }
                let handle = match first {
                    Ok(h) => h,
                    Err(e) => {
                        proof {
                            old(self).lemma_meta_with_filter(policy, seen.0, seen.1, Err(e));
                        }
                        return Err(e);
                    },
                };
                proof {
                    before.lemma_hangs_on(self);
                    lemma_raw_at_end(
                        before.written@,
                        contents@,
                        CompressionType::NoCompression,
                        handle,
                    );
                    lemma_keys_sound(
                        policy,
                        contents@,
                        added,
                        self.blocks@,
                        self.data_block.entries(),
                        old(self).offset,
                    );
                    self.filter_handle = Ghost(handle);
                    self.filters = Ghost(contents@);
                }
                match meta_block.add(name.as_slice(), handle.encoded().as_slice()) {
                    Ok(_) => {},
                    Err(e) => {
                        proof {
                            old(self).lemma_meta_with_filter(policy, seen.0, seen.1, Err(e));
                        }
                        return Err(e);
                    },
                }
            },
            None => {},
        }
        let meta: Vec<u8> = Self::take_meta(&mut meta_block);
        let ghost before = *self;
        let r = self.write_block(meta);
        proof {
            match old(self).policy@ {
                Some(p) => {
                    old(self).lemma_meta_with_filter(p, seen.0, seen.1, r);
                },
                None => {
                    old(self).lemma_meta_without_filter(r);
                },
            }
            if r is Ok {
                let wrote = *self;
                before.lemma_hangs_on(&wrote);
                before.lemma_meta_written(&wrote, r->Ok_0);
                self.meta = Ghost(self.last@);
            }
        }
        r
    }

    /// Ends the metaindex block that `builder` holds; returns the block.
    fn take_meta(builder: &mut BlockBuilder<BytewiseComparator>) -> (raw: Vec<u8>)
        requires
            old(builder).wf(),
        ensures
            raw@ == encode_block(old(builder).entries(), old(builder).interval()),
            regular(raw@),
            holds(raw@, old(builder).entries()),
            sorted(block_entries(raw@), BytewiseComparator {  }),
    {
        slice_to_vec(builder.finish())
    }

    /// The metaindex block and the filter block lie in what was written, once the
    /// metaindex block has been written after the filter block.
    proof fn lemma_meta_written(&self, after: &Self, handle: BlockHandle)
        requires
            after.wrote(self, handle, after.last@.raw),
            self.policy@ is Some ==> stored_as(
                self.written@,
                self.filter_handle@,
                CompressionType::NoCompression,
                self.filters@,
            ),
        ensures
            stored_as(after.written@, handle, after.last@.kind, after.last@.stored),
            after.policy@ is Some ==> stored_as(
                after.written@,
                after.filter_handle@,
                CompressionType::NoCompression,
                after.filters@,
            ),
    {
        lemma_raw_at_end(self.written@, after.last@.stored, after.last@.kind, handle);
        if self.policy@ is Some {
            lemma_stored_as_extend(
                self.written@,
                sealed(after.last@.stored, spec_compression_byte(after.last@.kind)),
                self.filter_handle@,
                CompressionType::NoCompression,
                self.filters@,
            );
        }
    }

    /// What was written hangs together still after one more block has been written.
    proof fn lemma_hangs_on(&self, after: &Self)
        requires
            self.hangs(),
            after.wrote(self, after.last@.handle, after.last@.raw),
        ensures
            after.hangs(),
    {
        lemma_image_grows(
            self.written@,
            sealed(after.last@.stored, spec_compression_byte(after.last@.kind)),
            self.blocks@,
            self.index_block.entries(),
            self.data_block.entries(),
            self.pending_index_entry,
            self.comparator,
        );
        assert forall|i: int| 0 <= i < after.blocks@.len() implies rec_kept(
            after.codec,
            after.plain@,
            #[trigger] after.blocks@[i],
        ) by {
            assert(rec_kept(self.codec, self.plain@, self.blocks@[i]));
        }
    }

    /// The metaindex block and the filter block lie still in what was written after more
    /// has been written.
    proof fn lemma_meta_grows(&self, after: &Self, more: Seq<u8>)
        requires
            self.meta_ok(),
            after.written@ == self.written@ + more,
            after.plain@ ==> self.plain@,
            after.codec == self.codec,
            after.policy == self.policy,
            after.meta == self.meta,
            after.filter_handle == self.filter_handle,
            after.filters == self.filters,
            after.blocks == self.blocks,
        ensures
            after.meta_ok(),
    {
        lemma_stored_as_extend(
            self.written@,
            more,
            self.meta@.handle,
            self.meta@.kind,
            self.meta@.stored,
        );
        if self.policy@ is Some {
            lemma_stored_as_extend(
                self.written@,
                more,
                self.filter_handle@,
                CompressionType::NoCompression,
                self.filters@,
            );
        }
    }

    /// Writes the index block, with the entry of the last data block; returns its handle.
    fn write_index_block(&mut self) -> (r: Result<BlockHandle, Error>)
        requires
            old(self).wf(),
            old(self).hangs(),
            old(self).meta_ok(),
            old(self).data_block.entries().len() == 0,
            old(self).state == BuilderState::Closed,
            !old(self).index_block.finished(),
        ensures
            final(self).wf(),
            final(self).entries == old(self).entries,
            final(self).block_size == old(self).block_size,
            final(self).data_block.interval() == old(self).data_block.interval(),
            final(self).comparator == old(self).comparator,
            final(self).codec == old(self).codec,
            final(self).compression == old(self).compression,
            final(self).policy == old(self).policy,
            final(self).state == old(self).state,
            final(self).blocks == old(self).blocks,
            final(self).meta@.handle == old(self).meta@.handle,
            r matches Ok(h) ==> {
                &&& final(self).meta_ok()
                &&& final(self).index_ok()
                &&& final(self).index@.handle == h
                &&& final(self).offset == final(self).written@.len()
                &&& final(self).blocks_kept()
                &&& final(self).entries@ == flat(rec_entries(final(self).blocks@))
                &&& image_ok(
                    final(self).written@,
                    final(self).blocks@,
                    final(self).index_block.entries(),
                    Seq::empty(),
                    false,
                    final(self).comparator,
                )
            },
            r matches Ok(h) ==> final(self).offset == end_of(h),
            old(self).index_written(old(self).offset, r),
    {
        // the key of the index entry of the last data block, once it is chosen
        let ghost mut next: Seq<u8> = Seq::empty();
        if self.pending_index_entry {
            let successor = self.comparator.successor(self.last_key.as_slice());
            let handle = self.pending_handle.encoded();
            proof {
                lemma_image_pending(
                    self.written@,
                    self.blocks@,
                    self.index_block.entries(),
                    self.data_block.entries(),
                    self.comparator,
                );
                assert(self.entries@ =~= flat(rec_entries(self.blocks@)));
                assert(self.data_block.entries() =~= Seq::<Pair>::empty());
                lemma_image_index(
                    self.written@,
                    self.blocks@,
                    self.index_block.entries(),
                    Seq::empty(),
                    self.comparator,
                    successor@,
                );
            }
            match self.index_block.add(successor.as_slice(), handle.as_slice()) {
                Ok(_) => {},
                Err(e) => {
                    proof {
                        old(self).lemma_index_with_entry(old(self).offset, successor@, Err(e));
                    }
                    return Err(e);
                },
            }
            self.pending_index_entry = false;
            proof {
                next = successor@;
            }
        }
        proof {
            assert(self.data_block.entries() =~= Seq::<Pair>::empty());
            assert(self.entries@ =~= flat(rec_entries(self.blocks@)));
        }
        let index: Vec<u8> = Self::take_index(&mut self.index_block);
        let ghost before = *self;
        let r = self.write_block(index);
        proof {
            if old(self).pending_index_entry {
                old(self).lemma_index_with_entry(old(self).offset, next, r);
            } else {
                old(self).lemma_index_without_entry(old(self).offset, r);
            }
            if r is Ok {
                let h = r->Ok_0;
                let more = sealed(self.last@.stored, spec_compression_byte(self.last@.kind));
                lemma_image_grows(
                    before.written@,
                    more,
                    before.blocks@,
                    before.index_block.entries(),
                    Seq::empty(),
                    false,
                    before.comparator,
                );
                before.lemma_meta_grows(self, more);
                lemma_raw_at_end(before.written@, self.last@.stored, self.last@.kind, h);
                self.index = Ghost(self.last@);
                assert forall|i: int| 0 <= i < self.blocks@.len() implies rec_kept(
                    self.codec,
                    self.plain@,
                    #[trigger] self.blocks@[i],
                ) by {
                    assert(rec_kept(before.codec, before.plain@, before.blocks@[i]));
                }
            }
        }
        r
    }

    /// Ends the index block that `builder` holds; returns the block.
    fn take_index(builder: &mut BlockBuilder<C>) -> (raw: Vec<u8>)
        requires
            old(builder).wf(),
        ensures
            final(builder).wf(),
            final(builder).entries() == old(builder).entries(),
            final(builder).comparator() == old(builder).comparator(),
            final(builder).interval() == old(builder).interval(),
            raw@ == encode_block(old(builder).entries(), old(builder).interval()),
            regular(raw@),
            holds(raw@, old(builder).entries()),
            sorted(block_entries(raw@), old(builder).comparator()),
    {
        slice_to_vec(builder.finish())
    }

    /// Writes the footer and ends the use of the file; returns the length of the file.
    fn write_footer(&mut self, meta_index_handle: BlockHandle, index_handle: BlockHandle, sync: bool) -> (r:
        Result<u64, Error>)
        requires
            old(self).offset == old(self).written@.len(),
        ensures
            final(self).same_but_file(old(self)),
            final(self).plain == old(self).plain,
            final(self).last == old(self).last,
            r matches Ok(n) ==> n == final(self).written@.len() && final(self).written@
                == old(self).written@ + spec_encode_footer(
                Footer { meta_index_handle, index_handle },
            ),
            r is Err ==> final(self).written@ == old(self).written@ || final(self).written@
                == old(self).written@ + spec_encode_footer(
                Footer { meta_index_handle, index_handle },
            ),
            footer_written::<F>(
                old(self).offset,
                Footer { meta_index_handle, index_handle },
                sync,
                r,
            ),
    {
        let footer = Footer::new(meta_index_handle, index_handle).encoded();
        if u64::MAX - self.offset < FOOTER_ENCODED_LENGTH as u64 {
            return Err(Error::invalid_argument("the table file is too long"));
        }
        match self.file.write(footer.as_slice()) {
            Ok(_) => {},
            Err(e) => {
                return Err(e);
            },
        }
        self.offset = self.offset + FOOTER_ENCODED_LENGTH as u64;
        proof {
            self.written = Ghost(self.written@ + footer@);
        }
        if sync {
            match self.file.flush() {
                Ok(_) => {},
                Err(e) => {
                    return Err(e);
                },
            }
        }
        match self.file.close() {
            Ok(_) => {},
            Err(e) => {
                return Err(e);
            },
        }
        Ok(self.offset)
    }

    /// Writes all that follows the data blocks.
    fn write_tail(&mut self, sync: bool) -> (r: Result<u64, Error>)
        requires
            old(self).wf(),
            old(self).hangs(),
            old(self).filter_ok(),
            old(self).data_block.entries().len() == 0,
            old(self).state == BuilderState::Closed,
            !old(self).index_block.finished(),
        ensures
            final(self).wf(),
            final(self).entries == old(self).entries,
            final(self).block_size == old(self).block_size,
            final(self).data_block.interval() == old(self).data_block.interval(),
            final(self).comparator == old(self).comparator,
            final(self).codec == old(self).codec,
            final(self).compression == old(self).compression,
            final(self).policy == old(self).policy,
            final(self).state == old(self).state,
            r matches Ok(n) ==> n == final(self).written@.len(),
            r is Ok ==> forall|expand: spec_fn(Seq<u8>) -> Option<Seq<u8>>| #[trigger]
                final(self).suits(expand) ==> final(self).finished(expand),
            old(self).tail_written(sync, r),
    {
        let meta = self.write_meta_blocks();
        let ghost meta_seen = meta;
        let meta_index_handle = match meta {
            Ok(h) => h,
            Err(e) => {
                proof {
                    old(self).lemma_tail_without_meta(meta_seen, sync, Err(e));
                }
                return Err(e);
            },
        };
        let ghost mid = *self;
        let index = self.write_index_block();
        let ghost index_seen = index;
        proof {
            mid.lemma_index_same(old(self), mid.offset, index_seen);
        }
        let index_handle = match index {
            Ok(h) => h,
            Err(e) => {
                proof {
                    old(self).lemma_tail_with_meta(meta_index_handle, index_seen, sync, Err(e));
                }
                return Err(e);
            },
        };
        let ghost before = *self;
        let r = self.write_footer(meta_index_handle, index_handle, sync);
        proof {
            old(self).lemma_tail_with_meta(meta_index_handle, index_seen, sync, r);
            if r is Ok {
                assert forall|expand: spec_fn(Seq<u8>) -> Option<Seq<u8>>| #[trigger]
                    self.suits(expand) implies self.finished(expand) by {
                    before.lemma_finished(
                        self,
                        Footer { meta_index_handle, index_handle },
                        expand,
                    );
                }
            }
        }
        r
    }

    /// What was written is a table in order, with its filter block if it has one, once the
    /// footer has been written.
    proof fn lemma_finished(
        &self,
        after: &Self,
        footer: Footer,
        expand: spec_fn(Seq<u8>) -> Option<Seq<u8>>,
    )
        requires
            image_ok(
                self.written@,
                self.blocks@,
                self.index_block.entries(),
                Seq::empty(),
                false,
                self.comparator,
            ),
            self.blocks_kept(),
            self.index_ok(),
            self.meta_ok(),
            footer.index_handle == self.index@.handle,
            footer.meta_index_handle == self.meta@.handle,
            self.entries@ == flat(rec_entries(self.blocks@)),
            after.same_but_file(self),
            after.plain == self.plain,
            after.written@ == self.written@ + spec_encode_footer(footer),
            after.suits(expand),
        ensures
            after.finished(expand),
    {
        let enc = spec_encode_footer(footer);
        let f = Image { bytes: after.written@, expand };
        lemma_footer_len(footer);
        assert(footer_bytes(f.bytes) =~= enc);
        lemma_image_grows(
            self.written@,
            enc,
            self.blocks@,
            self.index_block.entries(),
            Seq::empty(),
            false,
            self.comparator,
        );
        lemma_stored_as_extend(
            self.written@,
            enc,
            self.index@.handle,
            self.index@.kind,
            self.index@.stored,
        );
        assert forall|i: int| 0 <= i < self.blocks@.len() implies unpacks(
            expand,
            (#[trigger] self.blocks@[i]).kind,
            self.blocks@[i].stored,
            self.blocks@[i].raw,
        ) by {
            assert(rec_kept(self.codec, self.plain@, self.blocks@[i]));
            lemma_kept_unpacks(self.codec, self.plain@, self.blocks@[i], expand);
        }
        lemma_kept_unpacks(self.codec, self.plain@, self.index@, expand);
        lemma_image_is_table(
            f,
            self.blocks@,
            self.index_block.entries(),
            self.index@,
            footer,
            self.comparator,
        );
        assert(index_data(f) == encode_block(self.index_block.entries(), 1));
        match self.policy@ {
            Some(p) => {
                lemma_kept_unpacks(self.codec, self.plain@, self.meta@, expand);
                lemma_stored_as_extend(
                    self.written@,
                    enc,
                    self.meta@.handle,
                    self.meta@.kind,
                    self.meta@.stored,
                );
                lemma_stored_as_extend(
                    self.written@,
                    enc,
                    self.filter_handle@,
                    CompressionType::NoCompression,
                    self.filters@,
                );
                lemma_image_filter(
                    f,
                    self.blocks@,
                    p,
                    footer,
                    self.meta@,
                    self.filter_handle@,
                    self.filters@,
                );
                lemma_image_filter_exact(
                    f,
                    self.blocks@,
                    p,
                    self.filter_handle@,
                    self.filters@,
                );
            },
            None => {},
        }
    }
}

} // verus!
