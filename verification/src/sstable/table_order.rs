//! The order of the entries of a table: what follows from every block being in order and
//! every block lying, in the order, between the index keys around it.
use crate::sstable::block::{is_lower_bound, sorted, EntryView};
use crate::sstable::table_model::{
    count_before, flat, lemma_count_monotone, lemma_flat_index, lemma_flat_len, lemma_flat_locate,
};
use crate::util::comparator::{lemma_le_lt, lemma_lt_implies_le, lemma_lt_le, Comparator};
use vstd::prelude::*;

verus! {

/// Blocks of entries with one index key for each: every block has entries, their keys are
/// strictly increasing, the index key of a block is no earlier than its last key and
/// strictly earlier than the first key of the next block; and the index keys are strictly
/// increasing.
pub open spec fn ordered_blocks<C: Comparator>(
    blocks: Seq<Seq<EntryView>>,
    index: Seq<EntryView>,
    c: C,
) -> bool {
    &&& index.len() == blocks.len()
    &&& sorted(index, c)
    &&& forall|b: int| 0 <= b < blocks.len() ==> #[trigger] block_ordered(blocks, index, c, b)
}

/// Block `b` has entries, in order, and lies between the index keys around it.
pub open spec fn block_ordered<C: Comparator>(
    blocks: Seq<Seq<EntryView>>,
    index: Seq<EntryView>,
    c: C,
    b: int,
) -> bool {
    &&& blocks[b].len() > 0
    &&& sorted(blocks[b], c)
    &&& c.le(blocks[b].last().key, index[b].key)
    &&& b + 1 < blocks.len() ==> !c.le(blocks[b + 1][0].key, index[b].key)
}

/// Every key of a block is no later than the index key of the block.
pub proof fn lemma_within_index_key<C: Comparator>(
    blocks: Seq<Seq<EntryView>>,
    index: Seq<EntryView>,
    c: C,
    b: int,
    e: int,
)
    requires
        ordered_blocks(blocks, index, c),
        0 <= b < blocks.len(),
        0 <= e < blocks[b].len(),
    ensures
        c.le(blocks[b][e].key, index[b].key),
{
    assert(block_ordered(blocks, index, c, b));
    let last = blocks[b].len() - 1;
    if e < last {
        assert(!c.le(blocks[b][last].key, blocks[b][e].key));
        lemma_lt_le(c, blocks[b][e].key, blocks[b][last].key, index[b].key);
        lemma_lt_implies_le(c, blocks[b][e].key, index[b].key);
    }
}

/// Every key of a later block is strictly later than the index key of an earlier block.
pub proof fn lemma_beyond_index_key<C: Comparator>(
    blocks: Seq<Seq<EntryView>>,
    index: Seq<EntryView>,
    c: C,
    a: int,
    b: int,
    e: int,
)
    requires
        ordered_blocks(blocks, index, c),
        0 <= a < b < blocks.len(),
        0 <= e < blocks[b].len(),
    ensures
        !c.le(blocks[b][e].key, index[a].key),
{
    assert(block_ordered(blocks, index, c, b - 1));
    assert(block_ordered(blocks, index, c, b));
    let first = blocks[b][0].key;
    let k = blocks[b][e].key;
    // index[a] <= index[b - 1] < first <= k
    if a < b - 1 {
        assert(!c.le(index[b - 1].key, index[a].key));
        lemma_lt_implies_le(c, index[a].key, index[b - 1].key);
        lemma_le_lt(c, index[a].key, index[b - 1].key, first);
    }
    if e > 0 {
        assert(!c.le(blocks[b][e].key, blocks[b][0].key));
        if c.le(k, index[a].key) {
            lemma_lt_implies_le(c, first, k);
            c.lemma_transitive(first, k, index[a].key);
        }
    }
}

/// The keys of all entries, one block after the other, are strictly increasing.
pub proof fn lemma_flat_sorted<C: Comparator>(
    blocks: Seq<Seq<EntryView>>,
    index: Seq<EntryView>,
    c: C,
)
    requires
        ordered_blocks(blocks, index, c),
    ensures
        sorted(flat(blocks), c),
{
    let all = flat(blocks);
    assert forall|i: int, j: int| 0 <= i < j < all.len() implies !c.le(
        #[trigger] all[j].key,
        #[trigger] all[i].key,
    ) by {
        let (bi, ei) = lemma_flat_locate(blocks, i);
        let (bj, ej) = lemma_flat_locate(blocks, j);
        lemma_flat_index(blocks, bi, ei);
        lemma_flat_index(blocks, bj, ej);
        if bi == bj {
            assert(block_ordered(blocks, index, c, bi));
            assert(!c.le(blocks[bi][ej].key, blocks[bi][ei].key));
        } else {
            if bj < bi {
                lemma_count_monotone(blocks, bj + 1, bi);
                lemma_flat_len(blocks, bj + 1);
                assert(false);
            }
            lemma_within_index_key(blocks, index, c, bi, ei);
            lemma_beyond_index_key(blocks, index, c, bi, bj, ej);
            // all[i] <= index[bi] < all[j]
            lemma_le_lt(c, all[i].key, index[bi].key, all[j].key);
        }
    }
}

/// Where a cursor over a table stands that stands on entry `e` of block `b`: on the entry
/// after all entries of the blocks before. With `e` the number of entries of the block,
/// that is the first entry of the next block; with `b` the number of blocks, it is past
/// all entries.
pub open spec fn place<T>(blocks: Seq<Seq<T>>, b: int, e: int) -> int {
    if b < blocks.len() {
        count_before(blocks, b) + e
    } else {
        count_before(blocks, blocks.len() as int)
    }
}

/// The first entry of the table that is no earlier than a target is found in two steps:
/// the first block whose index key is no earlier than the target, then the first entry in
/// that block that is no earlier. Where that block has no such entry, it is the first entry
/// of the next block; where there is no such block, there is no such entry.
pub proof fn lemma_two_step_lower_bound<C: Comparator>(
    blocks: Seq<Seq<EntryView>>,
    index: Seq<EntryView>,
    c: C,
    target: Seq<u8>,
    b: int,
    e: int,
)
    requires
        ordered_blocks(blocks, index, c),
        is_lower_bound(index, c, target, b),
        b < blocks.len() ==> is_lower_bound(blocks[b], c, target, e),
    ensures
        is_lower_bound(flat(blocks), c, target, place(blocks, b, e)),
{
    let all = flat(blocks);
    let n = blocks.len() as int;
    let v = place(blocks, b, e);
    lemma_flat_len(blocks, n);
    lemma_flat_len(blocks, b);
    if b < n {
        lemma_flat_len(blocks, b + 1);
        lemma_count_monotone(blocks, b + 1, n);
    }
    assert forall|g: int| 0 <= g < v implies !c.le(target, #[trigger] all[g].key) by {
        let (bg, eg) = lemma_flat_locate(blocks, g);
        lemma_flat_index(blocks, bg, eg);
        if bg < b {
            lemma_within_index_key(blocks, index, c, bg, eg);
            assert(!c.le(target, index[bg].key));
            lemma_le_lt(c, all[g].key, index[bg].key, target);
        } else if bg == b {
            assert(!c.le(target, blocks[b][eg].key));
        } else {
            lemma_count_monotone(blocks, b + 1, bg);
            assert(false);
        }
    }
    if v < all.len() {
        if e < blocks[b].len() {
            lemma_flat_index(blocks, b, e);
        } else {
            // the first entry of the next block
            assert(b + 1 < n) by {
                if b + 1 >= n {
                    assert(count_before(blocks, b + 1) == count_before(blocks, n));
                }
            }
            assert(block_ordered(blocks, index, c, b));
            assert(block_ordered(blocks, index, c, b + 1));
            lemma_flat_index(blocks, b + 1, 0);
            let first = blocks[b + 1][0].key;
            // target <= index[b] < first
            lemma_le_lt(c, target, index[b].key, first);
            lemma_lt_implies_le(c, target, first);
        }
    }
}

/// What a lookup of `key` among `es` may answer: the value of an entry whose key stands
/// at the same place in the order as `key`, or nothing where there is no such entry.
pub open spec fn found_in<C: Comparator>(
    es: Seq<EntryView>,
    c: C,
    key: Seq<u8>,
    answer: Option<Seq<u8>>,
) -> bool {
    match answer {
        Some(v) => exists|i: int|
            0 <= i < es.len() && c.le(#[trigger] es[i].key, key) && c.le(key, es[i].key) && v
                == es[i].value,
        None => forall|i: int|
            0 <= i < es.len() ==> !(c.le(#[trigger] es[i].key, key) && c.le(key, es[i].key)),
    }
}

/// Among entries in order, the first entry that is no earlier than a key decides a lookup
/// of the key: it is the entry looked for if it is no later than the key either, and else
/// there is none.
pub proof fn lemma_lower_bound_decides<C: Comparator>(
    es: Seq<EntryView>,
    c: C,
    key: Seq<u8>,
    p: int,
)
    requires
        sorted(es, c),
        is_lower_bound(es, c, key, p),
    ensures
        found_in(
            es,
            c,
            key,
            if p < es.len() && c.le(es[p].key, key) {
                Some(es[p].value)
            } else {
                None
            },
        ),
{
    if p < es.len() && c.le(es[p].key, key) {
    } else {
        assert forall|i: int| 0 <= i < es.len() implies !(c.le(#[trigger] es[i].key, key) && c.le(
            key,
            es[i].key,
        )) by {
            if i > p {
                // key < es[p] < es[i]
                assert(!c.le(es[i].key, es[p].key));
                if c.le(es[i].key, key) {
                    c.lemma_transitive(es[i].key, key, es[p].key);
                }
            }
        }
    }
}

/// A lookup in a table is decided in the block that the index names for the key: the
/// first block whose index key is no earlier than the key. What a lookup in that block
/// answers is what a lookup among all entries answers; where there is no such block, there
/// is no such entry.
pub proof fn lemma_two_step_lookup<C: Comparator>(
    blocks: Seq<Seq<EntryView>>,
    index: Seq<EntryView>,
    c: C,
    key: Seq<u8>,
    b: int,
    answer: Option<Seq<u8>>,
)
    requires
        ordered_blocks(blocks, index, c),
        is_lower_bound(index, c, key, b),
        b < blocks.len() ==> found_in(blocks[b], c, key, answer),
        b >= blocks.len() ==> answer is None,
    ensures
        found_in(flat(blocks), c, key, answer),
{
    let all = flat(blocks);
    match answer {
        Some(v) => {
            let e = choose|i: int|
                0 <= i < blocks[b].len() && c.le(#[trigger] blocks[b][i].key, key) && c.le(
                    key,
                    blocks[b][i].key,
                ) && v == blocks[b][i].value;
            lemma_flat_index(blocks, b, e);
            let g = count_before(blocks, b) + e;
            assert(c.le(all[g].key, key) && c.le(key, all[g].key) && v == all[g].value);
        },
        None => {
            assert forall|g: int| 0 <= g < all.len() implies !(c.le(#[trigger] all[g].key, key)
                && c.le(key, all[g].key)) by {
                let (bg, eg) = lemma_flat_locate(blocks, g);
                lemma_flat_index(blocks, bg, eg);
                if bg < b {
                    // all[g] <= index[bg] < key
                    lemma_within_index_key(blocks, index, c, bg, eg);
                    lemma_le_lt(c, all[g].key, index[bg].key, key);
                } else if bg == b {
                    assert(!(c.le(blocks[b][eg].key, key) && c.le(key, blocks[b][eg].key)));
                } else {
                    // key <= index[b] < all[g]
                    lemma_beyond_index_key(blocks, index, c, b, bg, eg);
                    lemma_le_lt(c, key, index[b].key, all[g].key);
                }
            }
        },
    }
}

/// Among entries in order, the first entry that is no earlier than a key is the entry
/// with that key, if there is one.
pub proof fn lemma_bound_at_key<C: Comparator>(
    es: Seq<EntryView>,
    c: C,
    key: Seq<u8>,
    q: int,
    p: int,
)
    requires
        sorted(es, c),
        is_lower_bound(es, c, key, q),
        0 <= p < es.len(),
        es[p].key == key,
    ensures
        q == p,
{
    c.lemma_total(key, key);
    if q < p {
        // key <= es[q] < es[p] == key
        assert(!c.le(es[p].key, es[q].key));
    } else if p < q {
        assert(!c.le(key, es[p].key));
    }
}

} // verus!
