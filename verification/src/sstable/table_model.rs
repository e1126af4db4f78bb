//! What a table file holds, told from its bytes and from what undoing compression gives:
//! the footer names the index block,
//! every entry of the index block names a data block, and the entries of the data blocks,
//! one block after the other, are the entries of the table.
use crate::filter::FilterPolicy;
use crate::options::CompressionType;
use crate::sstable::{
    spec_decode_footer, spec_decode_handle, BlockHandle, Footer, BLOCK_TRAILER_SIZE,
    FOOTER_ENCODED_LENGTH,
};
use crate::sstable::block::{block_entries, regular, sorted, EntryView};
use crate::sstable::block_builder::{encode_block, Pair};
use crate::sstable::filter_block::{filter_block_of, spec_key_may_match, KeyAt};
use crate::sstable::seal::spec_open_block;
use crate::sstable::table_order::{block_ordered, lemma_flat_sorted, ordered_blocks};
use crate::util::comparator::{BytewiseComparator, Comparator};
use vstd::prelude::*;

verus! {

/// The block of `h` and its trailer lie within the file.
pub open spec fn in_file(f: Seq<u8>, h: BlockHandle) -> bool {
    h.offset + h.size + BLOCK_TRAILER_SIZE <= f.len()
}

/// The bytes of the block of `h` and of its trailer.
pub open spec fn raw_at(f: Seq<u8>, h: BlockHandle) -> Seq<u8> {
    f.subrange(h.offset as int, h.offset + h.size + BLOCK_TRAILER_SIZE)
}

/// The bytes of the block of `h`.
pub open spec fn contents_at(f: Seq<u8>, h: BlockHandle) -> Seq<u8> {
    f.subrange(h.offset as int, h.offset + h.size)
}

/// A table file as a reader sees it: its bytes, and what undoing the compression gives for
/// the stored bytes of a block.
pub struct Image {
    pub bytes: Seq<u8>,
    pub expand: spec_fn(Seq<u8>) -> Option<Seq<u8>>,
}

/// The block of `h` lies within the file and has the checksum that its trailer says, and
/// if it is stored compressed its stored bytes are a compressed form.
pub open spec fn readable_at(f: Image, h: BlockHandle) -> bool {
    &&& in_file(f.bytes, h)
    &&& spec_open_block(raw_at(f.bytes, h), h.size as nat, true) matches Ok(x)
    &&& x.0 == CompressionType::Snappy ==> (f.expand)(x.1) is Some
}

/// The bytes of the block of `h`, the compression undone.
pub open spec fn block_at(f: Image, h: BlockHandle) -> Seq<u8> {
    match spec_open_block(raw_at(f.bytes, h), h.size as nat, true) {
        Ok((CompressionType::Snappy, stored)) => (f.expand)(stored)->Some_0,
        _ => contents_at(f.bytes, h),
    }
}

/// The last 48 bytes of the file.
pub open spec fn footer_bytes(f: Seq<u8>) -> Seq<u8> {
    f.subrange(f.len() - FOOTER_ENCODED_LENGTH, f.len() as int)
}

/// The file ends in a footer.
pub open spec fn has_footer(f: Seq<u8>) -> bool {
    f.len() >= FOOTER_ENCODED_LENGTH && spec_decode_footer(footer_bytes(f)) is Ok
}

/// The footer of the file.
pub open spec fn footer_of(f: Seq<u8>) -> Footer {
    spec_decode_footer(footer_bytes(f))->Ok_0.0
}

/// The bytes of the index block.
pub open spec fn index_data(f: Image) -> Seq<u8> {
    block_at(f, footer_of(f.bytes).index_handle)
}

/// The index block is one that a block builder makes of some entries with a restart
/// point at every entry.
pub open spec fn index_exact(f: Image) -> bool {
    exists|index: Seq<Pair>| index_data(f) == #[trigger] encode_block(index, 1)
}

/// The handle that an index entry holds.
pub open spec fn entry_handle(e: EntryView) -> BlockHandle {
    spec_decode_handle(e.value, 0)->Some_0.0
}

/// The handle of the `b`-th data block.
pub open spec fn data_handle(f: Image, b: int) -> BlockHandle {
    entry_handle(block_entries(index_data(f))[b])
}

/// The bytes of the `b`-th data block.
pub open spec fn data_at(f: Image, b: int) -> Seq<u8> {
    block_at(f, data_handle(f, b))
}

/// The number of data blocks.
pub open spec fn block_count(f: Image) -> int {
    block_entries(index_data(f)).len() as int
}

/// The `b`-th data block is in order: its index entry holds a handle, the block can be
/// read, it is regular, it has entries, their keys are strictly
/// increasing, and the key of the index entry is no earlier than the last of them and
/// strictly earlier than the first key of the next block.
#[verifier::opaque]
pub open spec fn block_in_order<C: Comparator>(f: Image, c: C, b: int) -> bool {
    let index = block_entries(index_data(f));
    let es = block_entries(data_at(f, b));
    &&& spec_decode_handle(index[b].value, 0) is Some
    &&& readable_at(f, data_handle(f, b))
    &&& regular(data_at(f, b))
    &&& sorted(es, c)
    &&& es.len() > 0
    &&& c.le(es.last().key, index[b].key)
    &&& b + 1 < index.len() ==> !c.le(block_entries(data_at(f, b + 1))[0].key, index[b].key)
}

/// The file is a table as a builder leaves it: it ends in a footer, the index block can be
/// read and is regular, and every data block is in order.
#[verifier::opaque]
pub open spec fn table_in_order<C: Comparator>(f: Image, c: C) -> bool {
    &&& has_footer(f.bytes)
    &&& readable_at(f, footer_of(f.bytes).index_handle)
    &&& regular(index_data(f))
    &&& sorted(block_entries(index_data(f)), c)
    &&& forall|b: int| 0 <= b < block_count(f) ==> #[trigger] block_in_order(f, c, b)
}

/// The entries of the data blocks, block by block.
pub open spec fn table_blocks(f: Image) -> Seq<Seq<EntryView>> {
    Seq::new(block_count(f) as nat, |b: int| block_entries(data_at(f, b)))
}

/// The number of items in the first `b` of `blocks`.
pub open spec fn count_before<T>(blocks: Seq<Seq<T>>, b: int) -> int
    decreases b,
{
    if b <= 0 {
        0
    } else {
        count_before(blocks, b - 1) + blocks[b - 1].len()
    }
}

/// The items of the first `b` of `blocks`, one block after the other.
pub open spec fn flat_upto<T>(blocks: Seq<Seq<T>>, b: int) -> Seq<T>
    decreases b,
{
    if b <= 0 {
        Seq::empty()
    } else {
        flat_upto(blocks, b - 1) + blocks[b - 1]
    }
}

/// The items of all of `blocks`, one block after the other.
pub open spec fn flat<T>(blocks: Seq<Seq<T>>) -> Seq<T> {
    flat_upto(blocks, blocks.len() as int)
}

/// The entries of the table: those of its data blocks, one block after the other.
pub open spec fn table_entries(f: Image) -> Seq<EntryView> {
    flat(table_blocks(f))
}

/// The first `b` blocks have as many items as `count_before` counts.
pub proof fn lemma_flat_len<T>(blocks: Seq<Seq<T>>, b: int)
    ensures
        flat_upto(blocks, b).len() == count_before(blocks, b),
        count_before(blocks, b) >= 0,
    decreases b,
{
    if b > 0 {
        lemma_flat_len(blocks, b - 1);
    }
}

/// Counting more blocks counts no fewer items.
pub proof fn lemma_count_monotone<T>(blocks: Seq<Seq<T>>, a: int, b: int)
    requires
        a <= b,
    ensures
        count_before(blocks, a) <= count_before(blocks, b),
    decreases b - a,
{
    lemma_flat_len(blocks, a);
    if a < b {
        lemma_count_monotone(blocks, a, b - 1);
    }
}

/// Item `e` of block `b` is item `count_before(b) + e` of all items.
pub proof fn lemma_flat_index<T>(blocks: Seq<Seq<T>>, b: int, e: int)
    requires
        0 <= b < blocks.len(),
        0 <= e < blocks[b].len(),
    ensures
        0 <= count_before(blocks, b) + e < flat(blocks).len(),
        flat(blocks)[count_before(blocks, b) + e] == blocks[b][e],
{
    lemma_flat_index_upto(blocks, b, e, blocks.len() as int);
}

proof fn lemma_flat_index_upto<T>(blocks: Seq<Seq<T>>, b: int, e: int, n: int)
    requires
        0 <= b < n,
        0 <= e < blocks[b].len(),
    ensures
        0 <= count_before(blocks, b) + e < flat_upto(blocks, n).len(),
        flat_upto(blocks, n)[count_before(blocks, b) + e] == blocks[b][e],
    decreases n,
{
    lemma_flat_len(blocks, b);
    lemma_flat_len(blocks, n - 1);
    lemma_flat_len(blocks, n);
    if b < n - 1 {
        lemma_flat_index_upto(blocks, b, e, n - 1);
    }
}

/// Every item of all items is item `e` of some block `b`.
pub proof fn lemma_flat_locate<T>(blocks: Seq<Seq<T>>, g: int) -> (r: (int, int))
    requires
        0 <= g < flat(blocks).len(),
    ensures
        0 <= r.0 < blocks.len(),
        0 <= r.1 < blocks[r.0].len(),
        g == count_before(blocks, r.0) + r.1,
{
    lemma_flat_locate_upto(blocks, g, blocks.len() as int)
}

proof fn lemma_flat_locate_upto<T>(blocks: Seq<Seq<T>>, g: int, n: int) -> (r: (int, int))
    requires
        0 <= g < flat_upto(blocks, n).len(),
    ensures
        0 <= r.0 < n,
        0 <= r.1 < blocks[r.0].len(),
        g == count_before(blocks, r.0) + r.1,
    decreases n,
{
    lemma_flat_len(blocks, n - 1);
    lemma_flat_len(blocks, n);
    if g < count_before(blocks, n - 1) {
        lemma_flat_locate_upto(blocks, g, n - 1)
    } else {
        (n - 1, g - count_before(blocks, n - 1))
    }
}

/// One more block adds its items after all items.
pub proof fn lemma_flat_push<T>(blocks: Seq<Seq<T>>, block: Seq<T>)
    ensures
        flat(blocks.push(block)) == flat(blocks) + block,
{
    let grown = blocks.push(block);
    lemma_flat_same(grown, blocks, blocks.len() as int);
    assert(grown[grown.len() - 1] == block);
}

/// The items of the first `n` blocks depend on those blocks only.
pub proof fn lemma_flat_same<T>(a: Seq<Seq<T>>, b: Seq<Seq<T>>, n: int)
    requires
        n <= a.len(),
        n <= b.len(),
        forall|i: int| 0 <= i < n ==> a[i] == b[i],
    ensures
        flat_upto(a, n) == flat_upto(b, n),
    decreases n,
{
    if n > 0 {
        lemma_flat_same(a, b, n - 1);
    }
}

/// Where the last block has items, the last of all items is the last item of the last
/// block.
pub proof fn lemma_flat_last<T>(blocks: Seq<Seq<T>>)
    requires
        blocks.len() > 0,
        blocks.last().len() > 0,
    ensures
        flat(blocks).len() > 0,
        flat(blocks).last() == blocks.last().last(),
{
}

/// The entries of the index block.
pub open spec fn index_entries(f: Image) -> Seq<EntryView> {
    block_entries(index_data(f))
}

/// A table in order ends in a footer that names an index block that can be read, which
/// is a regular block with strictly increasing keys.
pub proof fn lemma_table_index<C: Comparator>(f: Image, c: C)
    requires
        table_in_order(f, c),
    ensures
        has_footer(f.bytes),
        readable_at(f, footer_of(f.bytes).index_handle),
        regular(index_data(f)),
        sorted(index_entries(f), c),
{
    reveal(table_in_order);
}

/// In a table in order, the blocks are ordered blocks under the entries of the index
/// block, block `b` is a regular block that can be read at the handle that index entry
/// `b` holds, and all entries are in order.
pub proof fn lemma_table_ordered<C: Comparator>(f: Image, c: C)
    requires
        table_in_order(f, c),
    ensures
        regular(index_data(f)),
        ordered_blocks(table_blocks(f), index_entries(f), c),
        sorted(table_entries(f), c),
        forall|b: int|
            0 <= b < block_count(f) ==> {
                &&& spec_decode_handle((#[trigger] index_entries(f)[b]).value, 0) is Some
                &&& readable_at(f, data_handle(f, b))
                &&& regular(data_at(f, b))
                &&& sorted(block_entries(data_at(f, b)), c)
            },
{
    let blocks = table_blocks(f);
    let index = index_entries(f);
    reveal(table_in_order);
    reveal(block_in_order);
    assert forall|b: int| 0 <= b < blocks.len() implies #[trigger] block_ordered(
        blocks,
        index,
        c,
        b,
    ) by {
        assert(block_in_order(f, c, b));
    }
    assert forall|b: int| 0 <= b < block_count(f) implies {
        &&& spec_decode_handle((#[trigger] index_entries(f)[b]).value, 0) is Some
        &&& readable_at(f, data_handle(f, b))
        &&& regular(data_at(f, b))
        &&& sorted(block_entries(data_at(f, b)), c)
    } by {
        assert(block_in_order(f, c, b));
    }
    lemma_flat_sorted(blocks, index, c);
}

/// The key under which the metaindex block keeps the handle of the filter block of the
/// policy called `name`.
pub open spec fn spec_filter_key(name: Seq<char>) -> Seq<u8> {
    vstd::utf8::encode_utf8("filter."@) + vstd::utf8::encode_utf8(name)
}

/// The filter block `filters` lets every key of the table pass, at the offset of the data
/// block that holds the key.
pub open spec fn filter_sound<P: FilterPolicy>(f: Image, policy: P, filters: Seq<u8>) -> bool {
    forall|b: int, e: int|
        0 <= b < block_count(f) && 0 <= e < block_entries(data_at(f, b)).len()
            ==> spec_key_may_match(
            policy,
            filters,
            data_handle(f, b).offset,
            (#[trigger] block_entries(data_at(f, b))[e]).key,
        )
}

/// The bytes of the metaindex block.
pub open spec fn meta_data(f: Image) -> Seq<u8> {
    block_at(f, footer_of(f.bytes).meta_index_handle)
}

/// The metaindex block can be read and is a regular block whose keys are strictly
/// increasing in the order of bytes.
pub open spec fn meta_in_order(f: Image) -> bool {
    &&& readable_at(f, footer_of(f.bytes).meta_index_handle)
    &&& regular(meta_data(f))
    &&& sorted(block_entries(meta_data(f)), BytewiseComparator {  })
}

/// Entry `p` of the metaindex block is the entry of the filter block of `policy`: it has
/// the key of that policy and holds the handle of a block that can be read, whose bytes
/// are a filter block that lets every key of the table pass.
pub open spec fn filter_entry<P: FilterPolicy>(f: Image, policy: P, p: int) -> bool {
    let es = block_entries(meta_data(f));
    &&& 0 <= p < es.len()
    &&& es[p].key == spec_filter_key(policy.spec_name())
    &&& spec_decode_handle(es[p].value, 0) is Some
    &&& readable_at(f, entry_handle(es[p]))
    &&& filter_sound(f, policy, block_at(f, entry_handle(es[p])))
}

/// The keys of data block `b`, each with the offset of the block.
pub open spec fn block_keys(f: Image, b: int) -> Seq<KeyAt> {
    let es = block_entries(data_at(f, b));
    Seq::new(es.len(), |j: int| (data_handle(f, b).offset, es[j].key))
}

/// The keys of the first `n` data blocks, each with the offset of its block, in the order
/// of the table.
pub open spec fn table_keys(f: Image, n: int) -> Seq<KeyAt>
    decreases n,
{
    if n <= 0 {
        Seq::empty()
    } else {
        table_keys(f, n - 1) + block_keys(f, n - 1)
    }
}

/// The filter block of the table is the one that `policy` makes of the keys of the table:
/// the metaindex block names it under the key of the policy, it lies where the data blocks
/// end, and it holds, for every range of offsets up to there, the filter that the policy
/// made from the keys of the data blocks that start in the range.
#[verifier::opaque]
pub open spec fn filter_exact<P: FilterPolicy>(f: Image, policy: P) -> bool {
    exists|p: int| #[trigger]
        filter_entry(f, policy, p) && filter_block_of(
            policy,
            table_keys(f, block_count(f)),
            entry_handle(block_entries(meta_data(f))[p]).offset,
            block_at(f, entry_handle(block_entries(meta_data(f))[p])),
        )
}

/// The table has a filter block of `policy` that is in order: the metaindex block is in
/// order and has an entry of that filter block.
#[verifier::opaque]
pub open spec fn filter_in_order<P: FilterPolicy>(f: Image, policy: P) -> bool {
    meta_in_order(f) && exists|p: int| #[trigger] filter_entry(f, policy, p)
}

} // verus!
