//! Why the file that a table builder writes is a table in order that holds the entries
//! added.
use crate::filter::FilterPolicy;
use crate::options::{spec_compression_byte, CompressionType};
use crate::sstable::{
    lemma_footer_roundtrip, lemma_handle_roundtrip, spec_encode_footer, spec_encode_handle,
    BlockHandle, Footer, FOOTER_ENCODED_LENGTH,
};
use crate::sstable::block::{block_entries, regular, sorted, EntryView};
use crate::sstable::block_builder::Pair;
use crate::sstable::block_proofs::holds;
use crate::sstable::filter_block::{filter_block_of, spec_key_may_match, KeyAt};
use crate::sstable::seal::{lemma_open_sealed, sealed};
use crate::sstable::table_model::{
    block_at, block_count, block_in_order, block_keys, contents_at, data_at, data_handle,
    entry_handle, filter_entry, filter_exact, filter_in_order, flat, flat_upto, footer_bytes,
    footer_of, has_footer, in_file, index_data, meta_data, raw_at, readable_at, spec_filter_key,
    table_blocks, table_entries, table_in_order, table_keys, Image,
};
use crate::util::comparator::{BytewiseComparator, Comparator};
use vstd::prelude::*;

verus! {

/// A data block that a builder has written: where, its bytes before sealing, the entries
/// it was built from, and the form in which it was stored.
pub struct BlockRec {
    pub handle: BlockHandle,
    pub raw: Seq<u8>,
    pub entries: Seq<Pair>,
    pub kind: CompressionType,
    pub stored: Seq<u8>,
}

/// The bytes `raw` are a regular block that holds `entries`, in order.
#[verifier::opaque]
pub open spec fn good_block<C: Comparator>(raw: Seq<u8>, entries: Seq<Pair>, c: C) -> bool {
    &&& regular(raw)
    &&& holds(raw, entries)
    &&& sorted(block_entries(raw), c)
}

/// The entries of the blocks written, block by block.
pub open spec fn rec_entries(blocks: Seq<BlockRec>) -> Seq<Seq<Pair>> {
    Seq::new(blocks.len(), |i: int| blocks[i].entries)
}

/// The bytes `stored` lie in `w` at `h`, sealed under the compression type `kind`.
pub open spec fn stored_as(w: Seq<u8>, h: BlockHandle, kind: CompressionType, stored: Seq<u8>) -> bool {
    &&& in_file(w, h)
    &&& h.size == stored.len()
    &&& raw_at(w, h) == sealed(stored, spec_compression_byte(kind))
}

/// The bytes `stored`, kept under the compression type `kind`, stand for `raw`: they are
/// `raw` where they are kept as they are, and `expand` gives `raw` for them where they are
/// kept compressed.
pub open spec fn unpacks(
    expand: spec_fn(Seq<u8>) -> Option<Seq<u8>>,
    kind: CompressionType,
    stored: Seq<u8>,
    raw: Seq<u8>,
) -> bool {
    match kind {
        CompressionType::NoCompression => stored == raw,
        CompressionType::Snappy => expand(stored) == Some(raw),
    }
}

/// The stored bytes of every block written stand for the block.
pub open spec fn recs_unpack(blocks: Seq<BlockRec>, expand: spec_fn(Seq<u8>) -> Option<Seq<u8>>) -> bool {
    forall|i: int|
        0 <= i < blocks.len() ==> unpacks(
            expand,
            (#[trigger] blocks[i]).kind,
            blocks[i].stored,
            blocks[i].raw,
        )
}

/// A block written is a regular block that holds its entries, which are some and in
/// order, and its stored form lies sealed in what was written; a block kept as it is has
/// its own bytes as its stored form.
pub open spec fn block_rec_ok<C: Comparator>(w: Seq<u8>, rec: BlockRec, c: C) -> bool {
    &&& rec.entries.len() > 0
    &&& regular(rec.raw)
    &&& holds(rec.raw, rec.entries)
    &&& sorted(block_entries(rec.raw), c)
    &&& stored_as(w, rec.handle, rec.kind, rec.stored)
    &&& rec.kind == CompressionType::NoCompression ==> rec.stored == rec.raw
}

/// The index entry of block `i` holds the handle of that block, and its key is no earlier
/// than the last key of the block and strictly earlier than the key that follows: the
/// first of the next block written, or of the block being built.
pub open spec fn index_entry_ok<C: Comparator>(
    blocks: Seq<BlockRec>,
    index: Seq<Pair>,
    data: Seq<Pair>,
    c: C,
    i: int,
) -> bool {
    &&& index[i].1 == spec_encode_handle(blocks[i].handle)
    &&& c.le(blocks[i].entries.last().0, index[i].0)
    &&& i + 1 < blocks.len() ==> !c.le(blocks[i + 1].entries[0].0, index[i].0)
    &&& (i + 1 == blocks.len() && data.len() > 0) ==> !c.le(data[0].0, index[i].0)
}

/// What a builder has written so far hangs together: the bytes `w`, the data blocks
/// written, the entries of the index block, the entries of the data block being built, and
/// whether the index entry of the last block written is still to come.
#[verifier::opaque]
pub open spec fn image_ok<C: Comparator>(
    w: Seq<u8>,
    blocks: Seq<BlockRec>,
    index: Seq<Pair>,
    data: Seq<Pair>,
    pending: bool,
    c: C,
) -> bool {
    &&& forall|i: int| 0 <= i < blocks.len() ==> block_rec_ok(w, #[trigger] blocks[i], c)
    &&& index.len() + (if pending {
        1int
    } else {
        0int
    }) == blocks.len()
    &&& pending ==> data.len() == 0
    &&& forall|i: int| 0 <= i < index.len() ==> #[trigger] index_entry_ok(blocks, index, data, c, i)
}

/// Bytes written later do not change what lies at a handle.
pub proof fn lemma_raw_at_extend(w: Seq<u8>, more: Seq<u8>, h: BlockHandle)
    requires
        in_file(w, h),
    ensures
        in_file(w + more, h),
        raw_at(w + more, h) == raw_at(w, h),
        contents_at(w + more, h) == contents_at(w, h),
{
    assert(raw_at(w + more, h) =~= raw_at(w, h));
    assert(contents_at(w + more, h) =~= contents_at(w, h));
}

/// A block written at the end of what was written lies there, sealed.
pub proof fn lemma_raw_at_end(w: Seq<u8>, stored: Seq<u8>, kind: CompressionType, h: BlockHandle)
    requires
        h.offset == w.len(),
        h.size == stored.len(),
    ensures
        stored_as(w + sealed(stored, spec_compression_byte(kind)), h, kind, stored),
{
    let more = sealed(stored, spec_compression_byte(kind));
    assert(raw_at(w + more, h) =~= more);
}

/// A stored form that lies in what was written lies there still after more was written.
pub proof fn lemma_stored_as_extend(
    w: Seq<u8>,
    more: Seq<u8>,
    h: BlockHandle,
    kind: CompressionType,
    stored: Seq<u8>,
)
    requires
        stored_as(w, h, kind, stored),
    ensures
        stored_as(w + more, h, kind, stored),
{
    lemma_raw_at_extend(w, more, h);
}

/// What was written hangs together still after more bytes were written.
pub proof fn lemma_image_grows<C: Comparator>(
    w: Seq<u8>,
    more: Seq<u8>,
    blocks: Seq<BlockRec>,
    index: Seq<Pair>,
    data: Seq<Pair>,
    pending: bool,
    c: C,
)
    requires
        image_ok(w, blocks, index, data, pending, c),
    ensures
        image_ok(w + more, blocks, index, data, pending, c),
{
    reveal(image_ok);
    assert forall|i: int| 0 <= i < blocks.len() implies block_rec_ok(
        w + more,
        #[trigger] blocks[i],
        c,
    ) by {
        assert(block_rec_ok(w, blocks[i], c));
        lemma_raw_at_extend(w, more, blocks[i].handle);
    }
    assert forall|i: int| 0 <= i < index.len() implies #[trigger] index_entry_ok(
        blocks,
        index,
        data,
        c,
        i,
    ) by {}
}

/// Writing the data block being built keeps what was written hanging together: the block
/// is one more block written, and its index entry is to come.
pub proof fn lemma_image_flush<C: Comparator>(
    w: Seq<u8>,
    blocks: Seq<BlockRec>,
    index: Seq<Pair>,
    data: Seq<Pair>,
    c: C,
    raw: Seq<u8>,
    stored: Seq<u8>,
    kind: CompressionType,
    h: BlockHandle,
)
    requires
        image_ok(w, blocks, index, data, false, c),
        data.len() > 0,
        regular(raw),
        holds(raw, data),
        sorted(block_entries(raw), c),
        h.offset == w.len(),
        h.size == stored.len(),
        kind == CompressionType::NoCompression ==> stored == raw,
    ensures
        image_ok(
            w + sealed(stored, spec_compression_byte(kind)),
            blocks.push(BlockRec { handle: h, raw, entries: data, kind, stored }),
            index,
            Seq::empty(),
            true,
            c,
        ),
{
    reveal(image_ok);
    let more = sealed(stored, spec_compression_byte(kind));
    let grown = blocks.push(BlockRec { handle: h, raw, entries: data, kind, stored });
    lemma_raw_at_end(w, stored, kind, h);
    assert forall|i: int| 0 <= i < grown.len() implies block_rec_ok(
        w + more,
        #[trigger] grown[i],
        c,
    ) by {
        if i < blocks.len() {
            assert(block_rec_ok(w, blocks[i], c));
            lemma_raw_at_extend(w, more, blocks[i].handle);
        }
    }
    assert forall|i: int| 0 <= i < index.len() implies #[trigger] index_entry_ok(
        grown,
        index,
        Seq::empty(),
        c,
        i,
    ) by {
        assert(index_entry_ok(blocks, index, data, c, i));
        assert(grown[i] == blocks[i]);
        if i + 1 < blocks.len() {
            assert(grown[i + 1] == blocks[i + 1]);
        }
    }
}

/// Adding the index entry that was to come keeps what was written hanging together, if
/// its key is no earlier than the last key of the last block written.
pub proof fn lemma_image_index<C: Comparator>(
    w: Seq<u8>,
    blocks: Seq<BlockRec>,
    index: Seq<Pair>,
    data: Seq<Pair>,
    c: C,
    separator: Seq<u8>,
)
    requires
        image_ok(w, blocks, index, Seq::empty(), true, c),
        c.le(blocks.last().entries.last().0, separator),
        data.len() > 0 ==> !c.le(data[0].0, separator),
    ensures
        image_ok(
            w,
            blocks,
            index.push((separator, spec_encode_handle(blocks.last().handle))),
            data,
            false,
            c,
        ),
{
    reveal(image_ok);
    let grown = index.push((separator, spec_encode_handle(blocks.last().handle)));
    assert forall|i: int| 0 <= i < grown.len() implies #[trigger] index_entry_ok(
        blocks,
        grown,
        data,
        c,
        i,
    ) by {
        if i < index.len() {
            assert(index_entry_ok(blocks, index, Seq::empty(), c, i));
            assert(grown[i] == index[i]);
        }
    }
}

/// Adding an entry to the data block being built keeps what was written hanging together.
pub proof fn lemma_image_add<C: Comparator>(
    w: Seq<u8>,
    blocks: Seq<BlockRec>,
    index: Seq<Pair>,
    data: Seq<Pair>,
    c: C,
    entry: Pair,
)
    requires
        image_ok(w, blocks, index, data, false, c),
        data.len() > 0,
    ensures
        image_ok(w, blocks, index, data.push(entry), false, c),
{
    reveal(image_ok);
    let grown = data.push(entry);
    assert forall|i: int| 0 <= i < index.len() implies #[trigger] index_entry_ok(
        blocks,
        index,
        grown,
        c,
        i,
    ) by {
        assert(index_entry_ok(blocks, index, data, c, i));
        assert(grown[0] == data[0]);
    }
}

/// While the index entry of the last block written is to come, there is such a block, it
/// has entries, and no block is being built.
pub proof fn lemma_image_pending<C: Comparator>(
    w: Seq<u8>,
    blocks: Seq<BlockRec>,
    index: Seq<Pair>,
    data: Seq<Pair>,
    c: C,
)
    requires
        image_ok(w, blocks, index, data, true, c),
    ensures
        blocks.len() > 0,
        blocks.last().entries.len() > 0,
        data.len() == 0,
        flat(rec_entries(blocks)).len() > 0,
        flat(rec_entries(blocks)).last() == blocks.last().entries.last(),
{
    reveal(image_ok);
    assert(block_rec_ok(w, blocks[blocks.len() - 1], c));
    assert(rec_entries(blocks).last() == blocks.last().entries);
    crate::sstable::table_model::lemma_flat_last(rec_entries(blocks));
}

/// Nothing written, nothing built: that hangs together.
pub proof fn lemma_image_empty<C: Comparator>(c: C)
    ensures
        image_ok(
            Seq::<u8>::empty(),
            Seq::<BlockRec>::empty(),
            Seq::<Pair>::empty(),
            Seq::<Pair>::empty(),
            false,
            c,
        ),
        flat(rec_entries(Seq::<BlockRec>::empty())) == Seq::<Pair>::empty(),
{
    reveal(image_ok);
    assert(flat(rec_entries(Seq::<BlockRec>::empty())) =~= Seq::<Pair>::empty());
}

/// The first entry of a block being built hangs together with what was written, where
/// no block has been written.
pub proof fn lemma_image_first<C: Comparator>(
    w: Seq<u8>,
    blocks: Seq<BlockRec>,
    index: Seq<Pair>,
    c: C,
    entry: Pair,
)
    requires
        image_ok(w, blocks, index, Seq::empty(), false, c),
        blocks.len() == 0,
    ensures
        image_ok(w, blocks, index, seq![entry], false, c),
{
    reveal(image_ok);
}

/// Entry views that hold the keys and values of pairs, one for one.
pub open spec fn views_hold(views: Seq<EntryView>, pairs: Seq<Pair>) -> bool {
    &&& views.len() == pairs.len()
    &&& forall|i: int|
        0 <= i < pairs.len() ==> (#[trigger] views[i]).key == pairs[i].0 && views[i].value
            == pairs[i].1
}

/// Blocks of views that hold blocks of pairs, one for one, hold them one block after the
/// other too.
pub proof fn lemma_flat_holds(views: Seq<Seq<EntryView>>, pairs: Seq<Seq<Pair>>, n: int)
    requires
        0 <= n <= views.len(),
        views.len() == pairs.len(),
        forall|b: int| 0 <= b < views.len() ==> views_hold(#[trigger] views[b], pairs[b]),
    ensures
        views_hold(flat_upto(views, n), flat_upto(pairs, n)),
    decreases n,
{
    if n > 0 {
        lemma_flat_holds(views, pairs, n - 1);
        assert(views_hold(views[n - 1], pairs[n - 1]));
        let v0 = flat_upto(views, n - 1);
        let p0 = flat_upto(pairs, n - 1);
        let v = flat_upto(views, n);
        let p = flat_upto(pairs, n);
        assert forall|i: int| 0 <= i < p.len() implies (#[trigger] v[i]).key == p[i].0
            && v[i].value == p[i].1 by {
            if i < p0.len() {
                assert(v[i] == v0[i]);
                assert(p[i] == p0[i]);
            } else {
                assert(v[i] == views[n - 1][i - v0.len()]);
                assert(p[i] == pairs[n - 1][i - p0.len()]);
            }
        }
    }
}

/// The file that ends a builder's work is a table in order, and read as a table it holds
/// the entries of the blocks written: given that the stored form of every block stands for
/// the block, that every block written has its index entry, that the index block lies in
/// the file where the footer says, and that the file ends in that footer.
pub proof fn lemma_image_is_table<C: Comparator>(
    f: Image,
    blocks: Seq<BlockRec>,
    index: Seq<Pair>,
    index_rec: BlockRec,
    footer: Footer,
    c: C,
)
    requires
        image_ok(f.bytes, blocks, index, Seq::empty(), false, c),
        recs_unpack(blocks, f.expand),
        regular(index_rec.raw),
        holds(index_rec.raw, index),
        sorted(block_entries(index_rec.raw), c),
        index_rec.handle == footer.index_handle,
        stored_as(f.bytes, index_rec.handle, index_rec.kind, index_rec.stored),
        unpacks(f.expand, index_rec.kind, index_rec.stored, index_rec.raw),
        f.bytes.len() >= FOOTER_ENCODED_LENGTH,
        footer_bytes(f.bytes) == spec_encode_footer(footer),
    ensures
        table_in_order(f, c),
        has_footer(f.bytes),
        footer_of(f.bytes) == footer,
        block_count(f) == blocks.len(),
        index_data(f) == index_rec.raw,
        forall|b: int|
            0 <= b < blocks.len() ==> data_handle(f, b) == (#[trigger] blocks[b]).handle
                && data_at(f, b) == blocks[b].raw && holds(blocks[b].raw, blocks[b].entries),
        views_hold(table_entries(f), flat(rec_entries(blocks))),
{
    reveal(table_in_order);
    reveal(image_ok);
    lemma_image_index_block(f, blocks, index, index_rec, footer, c);
    assert forall|b: int| 0 <= b < blocks.len() implies data_handle(f, b) == (
    #[trigger] blocks[b]).handle && data_at(f, b) == blocks[b].raw && block_in_order(f, c, b)
        && holds(blocks[b].raw, blocks[b].entries) by {
        lemma_block_of_image(f, blocks, index, index_rec.raw, c, b);
        assert(block_rec_ok(f.bytes, blocks[b], c));
    }
    assert forall|b: int| 0 <= b < block_count(f) implies #[trigger] block_in_order(f, c, b) by {
        assert(data_handle(f, b) == blocks[b].handle);
    }
    lemma_image_entries(f, blocks, c);
}

proof fn lemma_image_index_block<C: Comparator>(
    f: Image,
    blocks: Seq<BlockRec>,
    index: Seq<Pair>,
    index_rec: BlockRec,
    footer: Footer,
    c: C,
)
    requires
        image_ok(f.bytes, blocks, index, Seq::empty(), false, c),
        holds(index_rec.raw, index),
        index_rec.handle == footer.index_handle,
        stored_as(f.bytes, index_rec.handle, index_rec.kind, index_rec.stored),
        unpacks(f.expand, index_rec.kind, index_rec.stored, index_rec.raw),
        f.bytes.len() >= FOOTER_ENCODED_LENGTH,
        footer_bytes(f.bytes) == spec_encode_footer(footer),
    ensures
        has_footer(f.bytes),
        footer_of(f.bytes) == footer,
        readable_at(f, footer.index_handle),
        index_data(f) == index_rec.raw,
        block_count(f) == blocks.len(),
{
    reveal(image_ok);
    lemma_footer_roundtrip(footer);
    lemma_stored_as(f, index_rec.handle, index_rec.kind, index_rec.stored, index_rec.raw);
}

proof fn lemma_image_entries<C: Comparator>(f: Image, blocks: Seq<BlockRec>, c: C)
    requires
        block_count(f) == blocks.len(),
        forall|b: int|
            0 <= b < blocks.len() ==> data_at(f, b) == (#[trigger] blocks[b]).raw && holds(
                blocks[b].raw,
                blocks[b].entries,
            ),
    ensures
        views_hold(table_entries(f), flat(rec_entries(blocks))),
{
    let tv = table_blocks(f);
    let tp = rec_entries(blocks);
    assert forall|b: int| 0 <= b < tv.len() implies views_hold(#[trigger] tv[b], tp[b]) by {
        assert(data_at(f, b) == blocks[b].raw);
    }
    lemma_flat_holds(tv, tp, tv.len() as int);
}

/// A stored form that lies sealed in the file and stands for a block can be read, and
/// read it is that block.
pub proof fn lemma_stored_as(
    f: Image,
    h: BlockHandle,
    kind: CompressionType,
    stored: Seq<u8>,
    raw: Seq<u8>,
)
    requires
        stored_as(f.bytes, h, kind, stored),
        unpacks(f.expand, kind, stored, raw),
    ensures
        readable_at(f, h),
        block_at(f, h) == raw,
{
    lemma_open_sealed(stored, spec_compression_byte(kind), true);
    assert(contents_at(f.bytes, h) =~= raw_at(f.bytes, h).subrange(0, h.size as int));
    assert(sealed(stored, spec_compression_byte(kind)).subrange(0, stored.len() as int)
        =~= stored);
}

proof fn lemma_block_of_image<C: Comparator>(
    f: Image,
    blocks: Seq<BlockRec>,
    index: Seq<Pair>,
    index_raw: Seq<u8>,
    c: C,
    b: int,
)
    requires
        image_ok(f.bytes, blocks, index, Seq::empty(), false, c),
        recs_unpack(blocks, f.expand),
        holds(index_raw, index),
        index_data(f) == index_raw,
        0 <= b < blocks.len(),
    ensures
        data_handle(f, b) == blocks[b].handle,
        data_at(f, b) == blocks[b].raw,
        block_in_order(f, c, b),
{
    reveal(image_ok);
    reveal(block_in_order);
    let views = block_entries(index_raw);
    assert(index_entry_ok(blocks, index, Seq::empty(), c, b));
    assert(views[b].value == index[b].1);
    assert(views[b].key == index[b].0);
    let h = blocks[b].handle;
    let enc = spec_encode_handle(h);
    assert(Seq::<u8>::empty() + enc + Seq::<u8>::empty() =~= enc);
    lemma_handle_roundtrip(h, Seq::empty(), Seq::empty());
    assert(data_handle(f, b) == h);
    assert(block_rec_ok(f.bytes, blocks[b], c));
    assert(unpacks(f.expand, blocks[b].kind, blocks[b].stored, blocks[b].raw));
    lemma_stored_as(f, h, blocks[b].kind, blocks[b].stored, blocks[b].raw);
    let es = block_entries(blocks[b].raw);
    assert(es.last().key == blocks[b].entries.last().0);
    if b + 1 < blocks.len() {
        assert(index_entry_ok(blocks, index, Seq::empty(), c, b + 1));
        assert(views[b + 1].value == index[b + 1].1);
        let h2 = blocks[b + 1].handle;
        let enc2 = spec_encode_handle(h2);
        assert(Seq::<u8>::empty() + enc2 + Seq::<u8>::empty() =~= enc2);
        lemma_handle_roundtrip(h2, Seq::empty(), Seq::empty());
        assert(block_rec_ok(f.bytes, blocks[b + 1], c));
        assert(unpacks(f.expand, blocks[b + 1].kind, blocks[b + 1].stored, blocks[b + 1].raw));
        lemma_stored_as(
            f,
            h2,
            blocks[b + 1].kind,
            blocks[b + 1].stored,
            blocks[b + 1].raw,
        );
        assert(data_at(f, b + 1) == blocks[b + 1].raw);
        assert(block_entries(blocks[b + 1].raw)[0].key == blocks[b + 1].entries[0].0);
    }
}

/// The keys of `entries`, each with the offset `offset` of their block.
pub open spec fn keys_at(offset: u64, entries: Seq<Pair>) -> Seq<KeyAt> {
    Seq::new(entries.len(), |j: int| (offset, entries[j].0))
}

/// The keys of the first `n` blocks written, each with the offset of its block, in the
/// order in which they were added.
pub open spec fn written_keys(blocks: Seq<BlockRec>, n: int) -> Seq<KeyAt>
    decreases n,
{
    if n <= 0 {
        Seq::empty()
    } else {
        written_keys(blocks, n - 1) + keys_at(blocks[n - 1].handle.offset, blocks[n - 1].entries)
    }
}

/// The keys of all blocks written and of the block being built, which is to start at
/// `offset`.
pub open spec fn all_keys(blocks: Seq<BlockRec>, data: Seq<Pair>, offset: u64) -> Seq<KeyAt> {
    written_keys(blocks, blocks.len() as int) + keys_at(offset, data)
}

/// The keys of the first blocks written are the same after another block was written.
pub proof fn lemma_written_keys_push(blocks: Seq<BlockRec>, rec: BlockRec, n: int)
    requires
        n <= blocks.len(),
    ensures
        written_keys(blocks.push(rec), n) == written_keys(blocks, n),
    decreases n,
{
    if n > 0 {
        lemma_written_keys_push(blocks, rec, n - 1);
        assert(blocks.push(rec)[n - 1] == blocks[n - 1]);
    }
}

/// A key added to the block being built is one more key, with the offset of that block.
pub proof fn lemma_all_keys_add(blocks: Seq<BlockRec>, data: Seq<Pair>, offset: u64, entry: Pair)
    ensures
        all_keys(blocks, data.push(entry), offset) == all_keys(blocks, data, offset).push(
            (offset, entry.0),
        ),
{
    assert(keys_at(offset, data.push(entry)) =~= keys_at(offset, data).push((offset, entry.0)));
    assert(all_keys(blocks, data.push(entry), offset) =~= all_keys(blocks, data, offset).push(
        (offset, entry.0),
    ));
}

/// The keys are the same after the block being built was written where it was to start.
pub proof fn lemma_all_keys_flush(
    blocks: Seq<BlockRec>,
    data: Seq<Pair>,
    offset: u64,
    rec: BlockRec,
    next: u64,
)
    requires
        rec.handle.offset == offset,
        rec.entries == data,
    ensures
        all_keys(blocks.push(rec), Seq::empty(), next) == all_keys(blocks, data, offset),
{
    lemma_written_keys_push(blocks, rec, blocks.len() as int);
    assert(blocks.push(rec)[blocks.len() as int] == rec);
    assert(all_keys(blocks.push(rec), Seq::empty(), next) =~= all_keys(blocks, data, offset));
}

/// The keys of the data blocks of the file that ends a builder's work are the keys of the
/// blocks written.
pub proof fn lemma_table_keys(f: Image, blocks: Seq<BlockRec>, n: int)
    requires
        0 <= n <= blocks.len(),
        forall|b: int|
            0 <= b < blocks.len() ==> data_handle(f, b) == (#[trigger] blocks[b]).handle
                && data_at(f, b) == blocks[b].raw && holds(blocks[b].raw, blocks[b].entries),
    ensures
        table_keys(f, n) == written_keys(blocks, n),
    decreases n,
{
    if n > 0 {
        lemma_table_keys(f, blocks, n - 1);
        let rec = blocks[n - 1];
        assert(data_at(f, n - 1) == rec.raw && holds(rec.raw, rec.entries));
        assert(block_keys(f, n - 1) =~= keys_at(rec.handle.offset, rec.entries));
    }
}

/// Every key of every block written, and of the block being built, was added to the
/// filter builder, with the offset of its block.
#[verifier::opaque]
pub open spec fn keys_added(
    added: Seq<KeyAt>,
    blocks: Seq<BlockRec>,
    data: Seq<Pair>,
    offset: u64,
) -> bool {
    &&& forall|i: int, j: int|
        0 <= i < blocks.len() && 0 <= j < blocks[i].entries.len() ==> added.contains(
            (blocks[i].handle.offset, (#[trigger] blocks[i].entries[j]).0),
        )
    &&& forall|j: int| 0 <= j < data.len() ==> added.contains((offset, (#[trigger] data[j]).0))
}

/// Before anything is added, all keys are added.
pub proof fn lemma_keys_empty(offset: u64)
    ensures
        keys_added(Seq::empty(), Seq::empty(), Seq::empty(), offset),
{
    reveal(keys_added);
}

/// All keys stay added when a key is added both to the filter builder and to the block
/// being built.
pub proof fn lemma_keys_add(
    added: Seq<KeyAt>,
    blocks: Seq<BlockRec>,
    data: Seq<Pair>,
    offset: u64,
    entry: Pair,
)
    requires
        keys_added(added, blocks, data, offset),
    ensures
        keys_added(added.push((offset, entry.0)), blocks, data.push(entry), offset),
{
    reveal(keys_added);
    let grown = added.push((offset, entry.0));
    assert forall|x: KeyAt| added.contains(x) implies grown.contains(x) by {
        let k = choose|k: int| 0 <= k < added.len() && added[k] == x;
        assert(grown[k] == x);
    }
    assert(grown[added.len() as int] == (offset, entry.0));
    assert forall|j: int| 0 <= j < data.push(entry).len() implies grown.contains(
        (offset, (#[trigger] data.push(entry)[j]).0),
    ) by {
        if j < data.len() {
            assert(added.contains((offset, data[j].0)));
        }
    }
    assert forall|i: int, j: int|
        0 <= i < blocks.len() && 0 <= j < blocks[i].entries.len() implies grown.contains(
        (blocks[i].handle.offset, (#[trigger] blocks[i].entries[j]).0),
    ) by {
        assert(added.contains((blocks[i].handle.offset, blocks[i].entries[j].0)));
    }
}

/// All keys stay added when the block being built is written where its keys were added
/// for.
pub proof fn lemma_keys_flush(
    added: Seq<KeyAt>,
    blocks: Seq<BlockRec>,
    data: Seq<Pair>,
    offset: u64,
    rec: BlockRec,
    next: u64,
)
    requires
        keys_added(added, blocks, data, offset),
        rec.handle.offset == offset,
        rec.entries == data,
    ensures
        keys_added(added, blocks.push(rec), Seq::empty(), next),
{
    reveal(keys_added);
    let grown = blocks.push(rec);
    assert forall|i: int, j: int|
        0 <= i < grown.len() && 0 <= j < grown[i].entries.len() implies added.contains(
        (grown[i].handle.offset, (#[trigger] grown[i].entries[j]).0),
    ) by {
        if i < blocks.len() {
            assert(grown[i] == blocks[i]);
            assert(added.contains((blocks[i].handle.offset, blocks[i].entries[j].0)));
        } else {
            assert(added.contains((offset, data[j].0)));
        }
    }
}

/// A filter block that lets every key pass that was added lets every key of every block
/// written pass.
pub proof fn lemma_keys_sound<P: FilterPolicy>(
    policy: P,
    filters: Seq<u8>,
    added: Seq<KeyAt>,
    blocks: Seq<BlockRec>,
    data: Seq<Pair>,
    offset: u64,
)
    requires
        keys_added(added, blocks, data, offset),
        forall|k: int|
            0 <= k < added.len() ==> spec_key_may_match(
                policy,
                filters,
                (#[trigger] added[k]).0,
                added[k].1,
            ),
    ensures
        blocks_pass(policy, filters, blocks),
{
    reveal(keys_added);
    assert forall|i: int, j: int|
        0 <= i < blocks.len() && 0 <= j < blocks[i].entries.len() implies spec_key_may_match(
        policy,
        filters,
        blocks[i].handle.offset,
        (#[trigger] blocks[i].entries[j]).0,
    ) by {
        let x = (blocks[i].handle.offset, blocks[i].entries[j].0);
        assert(added.contains(x));
        let k = choose|k: int| 0 <= k < added.len() && added[k] == x;
        assert(spec_key_may_match(policy, filters, added[k].0, added[k].1));
    }
}

/// The filter block `filters` lets every key of every block written pass.
pub open spec fn blocks_pass<P: FilterPolicy>(
    policy: P,
    filters: Seq<u8>,
    blocks: Seq<BlockRec>,
) -> bool {
    forall|i: int, j: int|
        0 <= i < blocks.len() && 0 <= j < blocks[i].entries.len() ==> spec_key_may_match(
            policy,
            filters,
            blocks[i].handle.offset,
            (#[trigger] blocks[i].entries[j]).0,
        )
}

/// The file that ends a builder's work has a filter block in order: given what
/// `lemma_image_is_table` gives, that the metaindex block lies in the file where the footer
/// says and holds the handle of the filter block under the key of the policy, that the filter
/// block lies in the file at that handle, and that it lets every key of every block written
/// pass.
pub proof fn lemma_image_filter<P: FilterPolicy>(
    f: Image,
    blocks: Seq<BlockRec>,
    policy: P,
    footer: Footer,
    meta_rec: BlockRec,
    filter_handle: BlockHandle,
    filters: Seq<u8>,
)
    requires
        has_footer(f.bytes),
        footer_of(f.bytes) == footer,
        block_count(f) == blocks.len(),
        forall|b: int|
            0 <= b < blocks.len() ==> data_handle(f, b) == (#[trigger] blocks[b]).handle
                && data_at(f, b) == blocks[b].raw && holds(blocks[b].raw, blocks[b].entries),
        meta_rec.handle == footer.meta_index_handle,
        stored_as(f.bytes, meta_rec.handle, meta_rec.kind, meta_rec.stored),
        unpacks(f.expand, meta_rec.kind, meta_rec.stored, meta_rec.raw),
        regular(meta_rec.raw),
        holds(
            meta_rec.raw,
            seq![(spec_filter_key(policy.spec_name()), spec_encode_handle(filter_handle))],
        ),
        sorted(block_entries(meta_rec.raw), BytewiseComparator {  }),
        stored_as(f.bytes, filter_handle, CompressionType::NoCompression, filters),
        blocks_pass(policy, filters, blocks),
    ensures
        filter_in_order(f, policy),
        filter_entry(f, policy, 0),
        entry_handle(block_entries(meta_data(f))[0]) == filter_handle,
        block_at(f, filter_handle) == filters,
{
    reveal(filter_in_order);
    lemma_stored_as(f, meta_rec.handle, meta_rec.kind, meta_rec.stored, meta_rec.raw);
    lemma_stored_as(f, filter_handle, CompressionType::NoCompression, filters, filters);
    let es = block_entries(meta_rec.raw);
    assert(es.len() == 1);
    assert(es[0].key == spec_filter_key(policy.spec_name()));
    assert(es[0].value == spec_encode_handle(filter_handle));
    let enc = spec_encode_handle(filter_handle);
    assert(Seq::<u8>::empty() + enc + Seq::<u8>::empty() =~= enc);
    lemma_handle_roundtrip(filter_handle, Seq::empty(), Seq::empty());
    assert(entry_handle(es[0]) == filter_handle);
    assert forall|b: int, e: int|
        0 <= b < block_count(f) && 0 <= e < block_entries(data_at(f, b)).len() implies spec_key_may_match(
        policy,
        filters,
        data_handle(f, b).offset,
        (#[trigger] block_entries(data_at(f, b))[e]).key,
    ) by {
        assert(data_at(f, b) == blocks[b].raw);
        assert(block_entries(blocks[b].raw)[e].key == (#[trigger] blocks[b].entries[e]).0);
    }
    assert(filter_entry(f, policy, 0));
}

/// The filter block of the file that ends a builder's work is the one that the policy
/// makes of the keys of the table: given what `lemma_image_filter` gives, and that the
/// filter block written is the one that the policy makes of the keys of the blocks written.
pub proof fn lemma_image_filter_exact<P: FilterPolicy>(
    f: Image,
    blocks: Seq<BlockRec>,
    policy: P,
    filter_handle: BlockHandle,
    filters: Seq<u8>,
)
    requires
        block_count(f) == blocks.len(),
        forall|b: int|
            0 <= b < blocks.len() ==> data_handle(f, b) == (#[trigger] blocks[b]).handle
                && data_at(f, b) == blocks[b].raw && holds(blocks[b].raw, blocks[b].entries),
        filter_entry(f, policy, 0),
        entry_handle(block_entries(meta_data(f))[0]) == filter_handle,
        block_at(f, filter_handle) == filters,
        filter_block_of(
            policy,
            written_keys(blocks, blocks.len() as int),
            filter_handle.offset,
            filters,
        ),
    ensures
        filter_exact(f, policy),
{
    reveal(filter_exact);
    lemma_table_keys(f, blocks, blocks.len() as int);
}

} // verus!
