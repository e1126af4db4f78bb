//! A cursor over all entries of a table.
use crate::error::{same_error, Error};
use crate::filter::FilterPolicy;
use crate::options::{BlockCache, Codec, ReadOptions};
use crate::sstable::{spec_decode_handle, BlockHandle};
use crate::sstable::block::{
    bad_entry, block_entries, is_lower_bound, regular, sorted, BlockIterator, Cursor,
};
use crate::sstable::seal::{is_seal_fault, SealFault};
use crate::sstable::table::{serves_faulty, Table};
use crate::sstable::table_model::{
    block_count, count_before, index_entries, lemma_count_monotone, lemma_flat_index,
    lemma_flat_len, lemma_table_ordered, table_blocks, table_entries, Image,
};
use crate::sstable::table_order::{block_ordered, lemma_two_step_lower_bound, place};
use crate::storage::File;
use crate::util::comparator::Comparator;
use std::sync::Arc;
use vstd::prelude::*;

verus! {

/// The bytes are a regular block whose keys are strictly increasing.
#[verifier::opaque]
pub open spec fn tidy<C: Comparator>(data: Seq<u8>, c: C) -> bool {
    regular(data) && sorted(block_entries(data), c)
}

/// A cursor over the entries of a table, in the order of their keys: a cursor over the
/// index block, and under it a cursor over the data block that the index entry names.
pub struct TableIterator<F: File, C: Comparator, P: FilterPolicy, Z: Codec, K: BlockCache> {
    table: Arc<Table<F, C, P, Z, K>>,
    options: ReadOptions,
    index_iter: BlockIterator<C>,
    data_iter: Option<BlockIterator<C>>,
    err: Option<Error>,
    // the handle from which the block under the data cursor was read
    source: Ghost<BlockHandle>,
}

/// A cursor over the entries of `table`, not yet positioned.
pub fn new_table_iterator<F: File, C: Comparator, P: FilterPolicy, Z: Codec, K: BlockCache>(
    comparator: C,
    table: Arc<Table<F, C, P, Z, K>>,
    options: ReadOptions,
) -> (it: TableIterator<F, C, P, Z, K>)
    requires
        table.wf(),
        comparator == table.comparator(),
    ensures
        it.inv(),
        it.steady(),
        !it.is_valid(),
        it.comparator() == comparator,
        forall|f: Image| table.reads(f) <==> #[trigger] it.reads(f),
{
    let index_iter = table.index_iter();
    let it = TableIterator {
        table,
        options,
        index_iter,
        data_iter: None,
        err: None,
        source: Ghost(BlockHandle { offset: 0, size: 0 }),
    };
    proof {
        reveal(TableIterator::idx_at);
        reveal(TableIterator::has_block);
    }
    it
}

impl<F: File, C: Comparator, P: FilterPolicy, Z: Codec, K: BlockCache> TableIterator<
    F,
    C,
    P,
    Z,
    K,
> {
    /// The index cursor is over the index block of the table.
    closed spec fn base(&self) -> bool {
        &&& self.table.wf()
        &&& self.index_iter.inv()
        &&& self.index_iter.data() == self.table.index()
        &&& self.index_iter.comparator() == self.table.comparator()
    }

    /// The two cursors are in order: the index cursor is over the index block of the
    /// table, and the data cursor, where there is one, is over the block read from the
    /// handle that the index entry under the index cursor holds.
    pub closed spec fn inv(&self) -> bool {
        &&& self.base()
        &&& self.data_iter matches Some(d) ==> {
            &&& d.inv()
            &&& d.comparator() == self.table.comparator()
            &&& self.index_iter.cursor() matches Cursor::At(ie)
            &&& spec_decode_handle(ie.value, 0) matches Some(x)
            &&& x.0 == self.source@
            &&& self.table.block_came_from(self.source@, d.data())
            &&& self.table.unfaulty(self.source@, self.options)
        }
        &&& self.err is Some ==> self.data_iter is None
        &&& self.index_iter.cursor() matches Cursor::At(ie) ==> match self.err {
            Some(e) => spec_decode_handle(ie.value, 0) matches Some(x)
                ==> self.table.refused_with(x.0, self.options, e),
            None => self.data_iter is Some,
        }
    }

    /// The index cursor stands on the entry of a data block that cannot be opened, for
    /// `fault`: the file of the table serves `f`, in which the block lies, the checksum is
    /// looked at as the cursor and the table ask, and the cache hands out no block for it.
    pub closed spec fn under_faulty(&self, f: Seq<u8>, fault: SealFault) -> bool {
        &&& self.index_iter.cursor() matches Cursor::At(ie)
        &&& spec_decode_handle(ie.value, 0) matches Some(x)
        &&& !self.table.keeps(x.0.offset)
        &&& serves_faulty(&self.table.file(), f, x.0, self.table.looks(self.options), fault)
    }

    /// The cursor has met the error of the fault `fault`.
    pub closed spec fn met(&self, fault: SealFault) -> bool {
        self.err matches Some(e) && is_seal_fault(e, fault)
    }

    /// A cursor whose index cursor stands on the entry of a data block that cannot be
    /// opened has met the error of the fault, and stands on no entry.
    pub proof fn lemma_fault_is_met(&self, f: Seq<u8>, fault: SealFault)
        requires
            self.inv(),
            self.under_faulty(f, fault),
        ensures
            self.met(fault),
            !self.is_valid(),
    {
        let ie = self.index_iter.cursor()->At_0;
        let h = spec_decode_handle(ie.value, 0)->Some_0.0;
        match self.err {
            Some(e) => {
                self.table.lemma_refused_with(h, self.options, e, f, fault);
            },
            None => {
                self.table.lemma_unfaulty(h, self.options, f, fault);
            },
        }
    }

    /// The table of the cursor reads `f`.
    pub closed spec fn reads(&self, f: Image) -> bool {
        self.table.reads(f)
    }

    /// The order of the keys.
    pub closed spec fn comparator(&self) -> C {
        self.table.comparator()
    }

    /// No move has met an error, and wherever the index cursor stands on an entry there is
    /// a data cursor.
    pub closed spec fn steady(&self) -> bool {
        &&& self.err is None
        &&& self.idx_at() ==> self.has_block()
    }

    /// The cursor stands on an entry.
    pub closed spec fn is_valid(&self) -> bool {
        self.data_iter matches Some(d) && d.cursor() is At
    }

    /// Where the index cursor stands: the index of its entry, or the number of index
    /// entries.
    #[verifier::opaque]
    closed spec fn idx(&self) -> int {
        self.index_iter.landing()
    }

    /// Whether the index cursor stands on an entry.
    #[verifier::opaque]
    closed spec fn idx_at(&self) -> bool {
        self.index_iter.cursor() is At
    }

    /// The number of index entries.
    #[verifier::opaque]
    closed spec fn idx_len(&self) -> int {
        block_entries(self.index_iter.data()).len() as int
    }

    /// Whether there is a data cursor.
    #[verifier::opaque]
    closed spec fn has_block(&self) -> bool {
        self.data_iter is Some
    }

    /// Where the data cursor stands in its block: the index of its entry, or the number of
    /// entries of the block.
    #[verifier::opaque]
    closed spec fn blk(&self) -> int {
        self.data_iter->Some_0.landing()
    }

    /// Whether the data cursor stands on an entry.
    #[verifier::opaque]
    closed spec fn blk_at(&self) -> bool {
        self.data_iter matches Some(d) && d.cursor() is At
    }

    /// The number of entries of the block under the data cursor.
    #[verifier::opaque]
    closed spec fn blk_len(&self) -> int {
        block_entries(self.data_iter->Some_0.data()).len() as int
    }

    /// The index block, and the block under the data cursor if there is one, are regular
    /// blocks with strictly increasing keys.
    #[verifier::opaque]
    closed spec fn fine(&self) -> bool {
        &&& tidy(self.index_iter.data(), self.table.comparator())
        &&& self.data_iter matches Some(d) ==> tidy(d.data(), self.table.comparator())
    }

    /// The index cursor stands on the first index entry whose key is no earlier than
    /// `target`.
    #[verifier::opaque]
    closed spec fn idx_bound(&self, target: Seq<u8>) -> bool {
        is_lower_bound(
            block_entries(self.index_iter.data()),
            self.table.comparator(),
            target,
            self.index_iter.landing(),
        )
    }

    /// The data cursor stands on the first entry of its block whose key is no earlier than
    /// `target`.
    #[verifier::opaque]
    closed spec fn blk_bound(&self, target: Seq<u8>) -> bool {
        is_lower_bound(
            block_entries(self.data_iter->Some_0.data()),
            self.table.comparator(),
            target,
            self.data_iter->Some_0.landing(),
        )
    }

    /// Over a table that reads `f`: the index of the entry under the cursor among the
    /// entries of the table, and their number where the cursor stands on none.
    pub closed spec fn landing(&self, f: Image) -> int {
        if self.blk_at() {
            count_before(table_blocks(f), self.idx()) + self.blk()
        } else {
            table_entries(f).len() as int
        }
    }

    /// Where the cursor is headed on its way forward: the entry under the data cursor, or
    /// the first entry after the block of the data cursor when that cursor has run off its
    /// block.
    closed spec fn forward_place(&self, f: Image) -> int {
        if self.has_block() {
            count_before(table_blocks(f), self.idx()) + self.blk()
        } else {
            table_entries(f).len() as int
        }
    }

    /// Where the cursor is headed on its way back: the entry under the data cursor, or the
    /// last entry before the block of the data cursor when that cursor has run off its block;
    /// -1 stands for no entry.
    closed spec fn backward_place(&self, f: Image) -> int {
        if self.has_block() {
            if self.blk_at() {
                count_before(table_blocks(f), self.idx()) + self.blk()
            } else {
                count_before(table_blocks(f), self.idx()) - 1
            }
        } else {
            -1
        }
    }

    /// How the two cursors stand, over a table that reads `f`.
    proof fn lemma_shape(&self, f: Image)
        requires
            self.inv(),
            self.reads(f),
        ensures
            self.fine(),
            self.idx_len() == block_count(f),
            0 <= self.idx() <= block_count(f),
            self.idx_at() <==> self.idx() < block_count(f),
            self.has_block() ==> self.idx_at(),
            self.blk_at() ==> self.has_block(),
            self.has_block() ==> {
                &&& self.blk_len() > 0
                &&& 0 <= self.blk() <= self.blk_len()
                &&& self.blk_at() <==> self.blk() < self.blk_len()
                &&& count_before(table_blocks(f), self.idx() + 1) == count_before(
                    table_blocks(f),
                    self.idx(),
                ) + self.blk_len()
                &&& count_before(table_blocks(f), self.idx() + 1) <= table_entries(f).len()
            },
            table_entries(f).len() == count_before(table_blocks(f), block_count(f)),
            count_before(table_blocks(f), self.idx()) >= 0,
            count_before(table_blocks(f), 0) == 0,
            self.is_valid() == self.blk_at(),
    {
        reveal(tidy);
        reveal(TableIterator::idx);
        reveal(TableIterator::idx_at);
        reveal(TableIterator::idx_len);
        reveal(TableIterator::has_block);
        reveal(TableIterator::blk);
        reveal(TableIterator::blk_at);
        reveal(TableIterator::blk_len);
        reveal(TableIterator::fine);
        let blocks = table_blocks(f);
        self.table.lemma_reads(f);
        lemma_table_ordered(f, self.table.comparator());
        lemma_flat_len(blocks, block_count(f));
        lemma_flat_len(blocks, self.index_iter.landing());
        self.index_iter.lemma_inv_regular();
        match self.data_iter {
            Some(d) => {
                let b = self.index_iter.position();
                self.table.lemma_reads_blocks(f, b);
                d.lemma_inv_regular();
                assert(block_ordered(blocks, index_entries(f), self.table.comparator(), b));
                lemma_count_monotone(blocks, b + 1, block_count(f));
            },
            None => {},
        }
    }

    /// The entry under the cursor, over a table that reads `f`, is the entry of the table
    /// at the landing.
    proof fn lemma_entry(&self, f: Image)
        requires
            self.inv(),
            self.reads(f),
            self.is_valid(),
        ensures
            0 <= self.landing(f) < table_entries(f).len(),
            self.data_iter matches Some(d) && d.cursor() == Cursor::At(
                table_entries(f)[self.landing(f)],
            ),
    {
        self.lemma_shape(f);
        reveal(tidy);
        reveal(TableIterator::idx);
        reveal(TableIterator::blk);
        reveal(TableIterator::blk_at);
        reveal(TableIterator::blk_len);
        reveal(TableIterator::fine);
        let d = self.data_iter->Some_0;
        let b = self.index_iter.position();
        self.table.lemma_reads(f);
        self.table.lemma_reads_blocks(f, b);
        self.index_iter.lemma_inv_regular();
        d.lemma_inv_regular();
        lemma_flat_index(table_blocks(f), b, d.position());
    }

    /// The bounds that the two cursors found are the bound among all entries of the table.
    proof fn lemma_bound(&self, f: Image, target: Seq<u8>)
        requires
            self.inv(),
            self.reads(f),
            self.steady(),
            self.idx_bound(target),
            self.has_block() ==> self.blk_bound(target),
        ensures
            is_lower_bound(table_entries(f), self.table.comparator(), target, self.forward_place(f)),
    {
        self.lemma_shape(f);
        reveal(TableIterator::idx);
        reveal(TableIterator::idx_at);
        reveal(TableIterator::has_block);
        reveal(TableIterator::blk);
        reveal(TableIterator::idx_bound);
        reveal(TableIterator::blk_bound);
        let blocks = table_blocks(f);
        let b = self.index_iter.landing();
        self.table.lemma_reads(f);
        lemma_table_ordered(f, self.table.comparator());
        self.index_iter.lemma_inv_regular();
        let e = match self.data_iter {
            Some(d) => d.landing(),
            None => 0,
        };
        if b < block_count(f) {
            self.table.lemma_reads_blocks(f, b);
        }
        lemma_two_step_lower_bound(
            blocks,
            index_entries(f),
            self.table.comparator(),
            target,
            b,
            e,
        );
        assert(self.forward_place(f) == place(blocks, b, e));
    }

    /// Whether the cursor stands on an entry.
    pub fn valid(&self) -> (b: bool)
        requires
            self.inv(),
        ensures
            b == self.is_valid(),
            forall|f: Image| #[trigger]
                self.reads(f) && self.steady() ==> (b <==> self.landing(f) < table_entries(
                    f,
                ).len()),
    {
        proof {
            assert forall|f: Image| #[trigger] self.reads(f) && self.steady() implies (
            self.is_valid() <==> self.landing(f) < table_entries(f).len()) by {
                self.lemma_shape(f);
                if self.is_valid() {
                    self.lemma_entry(f);
                }
            }
        }
        match &self.data_iter {
            Some(d) => d.valid(),
            None => false,
        }
    }

    /// The key of the entry under the cursor.
    pub fn key(&self) -> (k: &[u8])
        requires
            self.inv(),
            self.is_valid(),
        ensures
            forall|f: Image| #[trigger]
                self.reads(f) ==> k@ == table_entries(f)[self.landing(f)].key,
    {
        proof {
            assert forall|f: Image| #[trigger] self.reads(f) implies self.data_iter matches Some(
                d,
            ) && d.cursor() == Cursor::At(table_entries(f)[self.landing(f)]) by {
                self.lemma_entry(f);
            }
        }
        match &self.data_iter {
            Some(d) => d.key(),
            None => vstd::pervasive::unreached(),
        }
    }

    /// The value of the entry under the cursor.
    pub fn value(&self) -> (v: &[u8])
        requires
            self.inv(),
            self.is_valid(),
        ensures
            forall|f: Image| #[trigger]
                self.reads(f) ==> v@ == table_entries(f)[self.landing(f)].value,
    {
        proof {
            assert forall|f: Image| #[trigger] self.reads(f) implies self.data_iter matches Some(
                d,
            ) && d.cursor() == Cursor::At(table_entries(f)[self.landing(f)]) by {
                self.lemma_entry(f);
            }
        }
        match &self.data_iter {
            Some(d) => d.value(),
            None => vstd::pervasive::unreached(),
        }
    }

    /// An error stands in the way of the cursor: a move has met one while it read a data
    /// block, or one of the two cursors has met an entry that cannot be read.
    pub closed spec fn failed(&self) -> bool {
        ||| self.err is Some
        ||| self.index_iter.cursor() is Broken
        ||| (self.data_iter matches Some(d) && d.cursor() is Broken)
    }

    /// `e` is the error that stands in the way of the cursor: the one that a move met while
    /// it read a data block, if one did, and else that of an entry that cannot be read.
    pub closed spec fn reports(&self, e: Error) -> bool {
        match self.err {
            Some(met) => same_error(e, met),
            None => bad_entry(e),
        }
    }

    /// The error that stands in the way of the cursor, if one does: the first that a move
    /// met while it read a data block, else that of the index cursor, else that of the data
    /// cursor. A cursor with an error stands on no entry; a cursor over a table in order
    /// that has met no error has none.
    pub fn status(&mut self) -> (r: Result<(), Error>)
        requires
            old(self).inv(),
        ensures
            *final(self) == *old(self),
            match r {
                Ok(_) => !old(self).failed(),
                Err(e) => old(self).failed() && old(self).reports(e) && !old(self).is_valid(),
            },
            forall|fault: SealFault| #[trigger]
                old(self).met(fault) ==> (r matches Err(e) && is_seal_fault(e, fault)),
            forall|f: Image| #[trigger] old(self).reads(f) && old(self).steady() ==> r is Ok,
    {
        proof {
            assert forall|f: Image| #[trigger] old(self).reads(f) && old(self).steady() implies !(
            self.index_iter.cursor() is Broken) && (self.data_iter matches Some(d) ==> !(
            d.cursor() is Broken)) by {
                self.lemma_shape(f);
                reveal(tidy);
                reveal(TableIterator::fine);
                self.index_iter.lemma_inv_regular();
                if self.data_iter is Some {
                    self.data_iter->Some_0.lemma_inv_regular();
                }
            }
        }
        match &self.err {
            Some(e) => {
                return Err(e.duplicate());
            },
            None => {},
        }
        match self.index_iter.status() {
            Ok(_) => {},
            Err(e) => {
                return Err(e);
            },
        }
        match &mut self.data_iter {
            Some(d) => d.status(),
            None => Ok(()),
        }
    }

    /// Opens the data block that the index entry under the index cursor names; leaves no
    /// data cursor where the index cursor stands on no entry or the block cannot be had.
    fn init_data_block(&mut self)
        requires
            old(self).base(),
            old(self).err is None,
        ensures
            final(self).inv(),
            final(self).table == old(self).table,
            final(self).idx() == old(self).idx(),
            final(self).idx_at() == old(self).idx_at(),
            final(self).idx_bound_same(old(self)),
            final(self).index_iter.remaining() == old(self).index_iter.remaining(),
            final(self).index_iter.consumed() == old(self).index_iter.consumed(),
            !final(self).blk_at(),
            forall|f: Image| #[trigger] old(self).reads(f) ==> final(self).steady(),
    {
        proof {
            reveal(TableIterator::idx);
            reveal(TableIterator::idx_at);
            reveal(TableIterator::idx_bound);
            reveal(TableIterator::blk_at);
            reveal(TableIterator::has_block);
        }
        self.data_iter = None;
        if !self.index_iter.valid() {
            return ;
        }
        let decoded = BlockHandle::decode_from(self.index_iter.value());
        proof {
            assert forall|f: Image| #[trigger] old(self).reads(f) implies (decoded matches Ok(
                x,
            ) && self.table.reads_block(f, x.0)) by {
                self.table.lemma_reads(f);
                lemma_table_ordered(f, self.table.comparator());
                self.index_iter.lemma_inv_regular();
                self.table.lemma_reads_blocks(f, self.index_iter.position());
            }
        }
        let handle = match decoded {
            Ok((h, _)) => h,
            Err(e) => {
                self.err = Some(e);
                return ;
            },
        };
        match self.table.read_data_block(&handle, self.options) {
            Ok(block) => {
                self.data_iter = Some(block.iter(self.table.order()));
                self.source = Ghost(handle);
            },
            Err(e) => {
                self.err = Some(e);
            },
        }
    }

    /// The index cursors of `self` and `other` found the same bounds.
    closed spec fn idx_bound_same(&self, other: &Self) -> bool {
        forall|target: Seq<u8>| #[trigger] self.idx_bound(target) == other.idx_bound(target)
    }

    /// Drops the data cursor and moves the index cursor on.
    fn index_next(&mut self)
        requires
            old(self).base(),
        ensures
            final(self).base(),
            final(self).table == old(self).table,
            final(self).err == old(self).err,
            old(self).idx_at() ==> final(self).index_iter.remaining()
                < old(self).index_iter.remaining(),
            old(self).fine() && old(self).idx_at() ==> final(self).idx() == old(self).idx() + 1,
    {
        proof {
            reveal(tidy);
            reveal(TableIterator::idx);
            reveal(TableIterator::idx_at);
            reveal(TableIterator::fine);
        }
        self.data_iter = None;
        self.index_iter.next();
    }

    /// Drops the data cursor and moves the index cursor back.
    fn index_prev(&mut self)
        requires
            old(self).base(),
        ensures
            final(self).base(),
            final(self).table == old(self).table,
            final(self).err == old(self).err,
            old(self).idx_at() ==> final(self).index_iter.consumed()
                < old(self).index_iter.consumed(),
            old(self).fine() && old(self).idx_at() ==> (final(self).idx_at() <==> old(self).idx()
                > 0) && (final(self).idx_at() ==> final(self).idx() == old(self).idx() - 1),
    {
        proof {
            reveal(tidy);
            reveal(TableIterator::idx);
            reveal(TableIterator::idx_at);
            reveal(TableIterator::fine);
        }
        self.data_iter = None;
        self.index_iter.prev();
    }

    /// Drops the data cursor and moves the index cursor to the first index entry.
    fn index_first(&mut self)
        requires
            old(self).base(),
        ensures
            final(self).base(),
            final(self).table == old(self).table,
            final(self).err == old(self).err,
            old(self).fine() ==> final(self).idx() == 0,
    {
        proof {
            reveal(tidy);
            reveal(TableIterator::idx);
            reveal(TableIterator::fine);
            if regular(self.index_iter.data()) {
                self.index_iter.lemma_inv_regular();
            }
        }
        self.data_iter = None;
        self.index_iter.seek_to_first();
    }

    /// Drops the data cursor and moves the index cursor to the last index entry.
    fn index_last(&mut self)
        requires
            old(self).base(),
        ensures
            final(self).base(),
            final(self).table == old(self).table,
            final(self).err == old(self).err,
            old(self).fine() ==> (final(self).idx_at() <==> old(self).idx_len() > 0) && (
            final(self).idx_at() ==> final(self).idx() == old(self).idx_len() - 1),
    {
        proof {
            reveal(tidy);
            reveal(TableIterator::idx);
            reveal(TableIterator::idx_at);
            reveal(TableIterator::idx_len);
            reveal(TableIterator::fine);
        }
        self.data_iter = None;
        self.index_iter.seek_to_last();
    }

    /// Drops the data cursor and moves the index cursor to the first index entry whose key
    /// is no earlier than `target`.
    fn index_seek(&mut self, target: &[u8])
        requires
            old(self).base(),
        ensures
            final(self).base(),
            final(self).table == old(self).table,
            final(self).err == old(self).err,
            old(self).fine() ==> final(self).idx_bound(target@),
    {
        proof {
            reveal(tidy);
            reveal(TableIterator::idx_bound);
            reveal(TableIterator::fine);
        }
        self.data_iter = None;
        self.index_iter.seek(target);
    }

    /// What a move of the data cursor leaves as it was.
    closed spec fn same_but_block_cursor(&self, other: &Self) -> bool {
        &&& self.table == other.table
        &&& self.index_iter == other.index_iter
        &&& self.err == other.err
        &&& self.idx() == other.idx()
        &&& self.idx_at() == other.idx_at()
        &&& self.has_block() == other.has_block()
        &&& self.blk_len() == other.blk_len()
        &&& self.fine() == other.fine()
        &&& self.idx_bound_same(other)
    }

    /// Moves the data cursor, if there is one, to the first entry of its block.
    fn data_first(&mut self)
        requires
            old(self).inv(),
        ensures
            final(self).inv(),
            final(self).same_but_block_cursor(old(self)),
            final(self).fine() && final(self).has_block() ==> final(self).blk() == 0,
    {
        proof {
            reveal(tidy);
            reveal(TableIterator::idx);
            reveal(TableIterator::idx_at);
            reveal(TableIterator::idx_len);
            reveal(TableIterator::has_block);
            reveal(TableIterator::blk);
            reveal(TableIterator::blk_at);
            reveal(TableIterator::blk_len);
            reveal(TableIterator::fine);
            reveal(TableIterator::idx_bound);
            reveal(TableIterator::blk_bound);
        }
        match &mut self.data_iter {
            Some(d) => {
                proof {
                    if regular(d.data()) {
                        d.lemma_inv_regular();
                    }
                }
                d.seek_to_first();
            },
            None => {},
        }
    }

    /// Moves the data cursor, if there is one, to the last entry of its block.
    fn data_last(&mut self)
        requires
            old(self).inv(),
        ensures
            final(self).inv(),
            final(self).same_but_block_cursor(old(self)),
            final(self).fine() && final(self).has_block() ==> (final(self).blk_at()
                <==> final(self).blk_len() > 0) && (final(self).blk_at() ==> final(self).blk()
                == final(self).blk_len() - 1),
    {
        proof {
            reveal(tidy);
            reveal(TableIterator::idx);
            reveal(TableIterator::idx_at);
            reveal(TableIterator::idx_len);
            reveal(TableIterator::has_block);
            reveal(TableIterator::blk);
            reveal(TableIterator::blk_at);
            reveal(TableIterator::blk_len);
            reveal(TableIterator::fine);
            reveal(TableIterator::idx_bound);
            reveal(TableIterator::blk_bound);
        }
        match &mut self.data_iter {
            Some(d) => {
                d.seek_to_last();
            },
            None => {},
        }
    }

    /// Moves the data cursor, if there is one, to the first entry of its block whose key
    /// is no earlier than `target`.
    fn data_seek(&mut self, target: &[u8])
        requires
            old(self).inv(),
        ensures
            final(self).inv(),
            final(self).same_but_block_cursor(old(self)),
            final(self).fine() && final(self).has_block() ==> final(self).blk_bound(target@),
    {
        proof {
            reveal(tidy);
            reveal(TableIterator::idx);
            reveal(TableIterator::idx_at);
            reveal(TableIterator::idx_len);
            reveal(TableIterator::has_block);
            reveal(TableIterator::blk);
            reveal(TableIterator::blk_at);
            reveal(TableIterator::blk_len);
            reveal(TableIterator::fine);
            reveal(TableIterator::idx_bound);
            reveal(TableIterator::blk_bound);
        }
        match &mut self.data_iter {
            Some(d) => {
                d.seek(target);
            },
            None => {},
        }
    }

    /// Moves the data cursor, if it stands on an entry, to the next entry of its block;
    /// says whether it did.
    fn data_next(&mut self) -> (moved: bool)
        requires
            old(self).inv(),
        ensures
            final(self).inv(),
            final(self).same_but_block_cursor(old(self)),
            moved == old(self).is_valid(),
            !moved ==> *final(self) == *old(self),
            final(self).fine() && moved ==> final(self).blk() == old(self).blk() + 1,
    {
        proof {
            reveal(tidy);
            reveal(TableIterator::idx);
            reveal(TableIterator::idx_at);
            reveal(TableIterator::idx_len);
            reveal(TableIterator::has_block);
            reveal(TableIterator::blk);
            reveal(TableIterator::blk_at);
            reveal(TableIterator::blk_len);
            reveal(TableIterator::fine);
            reveal(TableIterator::idx_bound);
            reveal(TableIterator::blk_bound);
        }
        match &mut self.data_iter {
            Some(d) => {
                if !d.valid() {
                    return false;
                }
                d.next();
                true
            },
            None => false,
        }
    }

    /// Moves the data cursor, if it stands on an entry, to the entry before in its block;
    /// says whether it did.
    fn data_prev(&mut self) -> (moved: bool)
        requires
            old(self).inv(),
        ensures
            final(self).inv(),
            final(self).same_but_block_cursor(old(self)),
            moved == old(self).is_valid(),
            !moved ==> *final(self) == *old(self),
            final(self).fine() && moved ==> (final(self).blk_at() <==> old(self).blk() > 0) && (
            final(self).blk_at() ==> final(self).blk() == old(self).blk() - 1),
    {
        proof {
            reveal(tidy);
            reveal(TableIterator::idx);
            reveal(TableIterator::idx_at);
            reveal(TableIterator::idx_len);
            reveal(TableIterator::has_block);
            reveal(TableIterator::blk);
            reveal(TableIterator::blk_at);
            reveal(TableIterator::blk_len);
            reveal(TableIterator::fine);
            reveal(TableIterator::idx_bound);
            reveal(TableIterator::blk_bound);
        }
        match &mut self.data_iter {
            Some(d) => {
                if !d.valid() {
                    return false;
                }
                d.prev();
                true
            },
            None => false,
        }
    }

    /// Moves on over index entries until the data cursor stands on an entry or the index
    /// entries are used up.
    fn skip_forward(&mut self)
        requires
            old(self).inv(),
        ensures
            final(self).inv(),
            final(self).table == old(self).table,
            forall|f: Image| #[trigger]
                old(self).reads(f) && old(self).steady() ==> final(self).steady()
                    && final(self).landing(f) == old(self).forward_place(f),
    {
        loop
            invariant
                self.inv(),
                self.table == old(self).table,
                forall|f: Image| #[trigger]
                    old(self).reads(f) && old(self).steady() ==> self.steady()
                        && self.forward_place(f) == old(self).forward_place(f),
            decreases self.index_iter.remaining(),
        {
            if self.err.is_some() {
                return ;
            }
            let settled: bool = match &self.data_iter {
                Some(d) => d.valid(),
                None => false,
            };
            if settled {
                proof {
                    assert forall|f: Image| #[trigger]
                        old(self).reads(f) && old(self).steady() implies self.landing(f)
                        == self.forward_place(f) by {
                        assert(self.reads(f));
                        self.lemma_shape(f);
                    }
                }
                return ;
            }
            if !self.index_iter.valid() {
                proof {
                    assert forall|f: Image| #[trigger]
                        old(self).reads(f) && old(self).steady() implies self.landing(f)
                        == self.forward_place(f) by {
                        assert(self.reads(f));
                        self.lemma_shape(f);
                        reveal(TableIterator::idx_at);
                    }
                }
                return ;
            }
            let ghost before = *self;
            proof {
                reveal(TableIterator::idx_at);
            }
            self.index_next();
            let ghost moved = *self;
            self.init_data_block();
            let ghost mid = *self;
            self.data_first();
            proof {
                assert forall|f: Image| #[trigger]
                    old(self).reads(f) && old(self).steady() implies self.steady()
                    && self.forward_place(f) == old(self).forward_place(f) by {
                    assert(before.reads(f));
                    assert(moved.reads(f));
                    assert(mid.reads(f));
                    assert(self.reads(f));
                    before.lemma_shape(f);
                    mid.lemma_shape(f);
                    self.lemma_shape(f);
                    assert(before.is_valid() == settled);
                }
            }
        }
    }

    /// Moves back over index entries until the data cursor stands on an entry or the index
    /// entries are used up.
    fn skip_backward(&mut self)
        requires
            old(self).inv(),
        ensures
            final(self).inv(),
            final(self).table == old(self).table,
            forall|f: Image| #[trigger]
                old(self).reads(f) && old(self).steady() ==> final(self).steady() && (
                final(self).is_valid() <==> old(self).backward_place(f) >= 0) && (
                final(self).is_valid() ==> final(self).landing(f) == old(self).backward_place(f)),
    {
        loop
            invariant
                self.inv(),
                self.table == old(self).table,
                forall|f: Image| #[trigger]
                    old(self).reads(f) && old(self).steady() ==> self.steady()
                        && self.backward_place(f) == old(self).backward_place(f),
            decreases self.index_iter.consumed(),
        {
            if self.err.is_some() {
                return ;
            }
            let settled: bool = match &self.data_iter {
                Some(d) => d.valid(),
                None => false,
            };
            if settled {
                proof {
                    assert forall|f: Image| #[trigger]
                        old(self).reads(f) && old(self).steady() implies self.backward_place(f)
                        >= 0 && self.landing(f) == self.backward_place(f) by {
                        assert(self.reads(f));
                        self.lemma_shape(f);
                    }
                }
                return ;
            }
            if !self.index_iter.valid() {
                proof {
                    assert forall|f: Image| #[trigger]
                        old(self).reads(f) && old(self).steady() implies self.backward_place(f)
                        < 0 by {
                        assert(self.reads(f));
                        self.lemma_shape(f);
                        reveal(TableIterator::idx_at);
                    }
                }
                return ;
            }
            let ghost before = *self;
            proof {
                reveal(TableIterator::idx_at);
            }
            self.index_prev();
            let ghost moved = *self;
            self.init_data_block();
            let ghost mid = *self;
            self.data_last();
            proof {
                assert forall|f: Image| #[trigger]
                    old(self).reads(f) && old(self).steady() implies self.steady()
                    && self.backward_place(f) == old(self).backward_place(f) by {
                    assert(before.reads(f));
                    assert(moved.reads(f));
                    assert(mid.reads(f));
                    assert(self.reads(f));
                    before.lemma_shape(f);
                    mid.lemma_shape(f);
                    self.lemma_shape(f);
                    assert(before.is_valid() == settled);
                }
            }
        }
    }

    /// Moves to the first entry of the table.
    ///
    /// Over a table that reads a table in order, the cursor lands on the first entry of
    /// the table, or on none where the table has none.
    pub fn seek_to_first(&mut self)
        requires
            old(self).inv(),
        ensures
            final(self).inv(),
            final(self).comparator() == old(self).comparator(),
            forall|f: Image| old(self).reads(f) <==> #[trigger] final(self).reads(f),
            forall|f: Image| #[trigger]
                old(self).reads(f) && old(self).steady() ==> final(self).steady()
                    && final(self).landing(f) == 0,
    {
        if self.err.is_some() {
            return ;
        }
        self.index_first();
        let ghost moved = *self;
        self.init_data_block();
        let ghost mid = *self;
        self.data_first();
        proof {
            assert forall|f: Image| #[trigger]
                old(self).reads(f) && old(self).steady() implies self.steady()
                && self.forward_place(f) == 0 by {
                assert(moved.reads(f));
                assert(mid.reads(f));
                assert(self.reads(f));
                old(self).lemma_shape(f);
                mid.lemma_shape(f);
                self.lemma_shape(f);
            }
        }
        let ghost before = *self;
        self.skip_forward();
        proof {
            assert forall|f: Image| #[trigger]
                old(self).reads(f) && old(self).steady() implies self.steady() && self.landing(f)
                == 0 by {
                assert(before.reads(f));
            }
        }
    }

    /// Moves to the last entry of the table.
    ///
    /// Over a table that reads a table in order, the cursor lands on the last entry of the
    /// table, or on none where the table has none.
    pub fn seek_to_last(&mut self)
        requires
            old(self).inv(),
        ensures
            final(self).inv(),
            final(self).comparator() == old(self).comparator(),
            forall|f: Image| old(self).reads(f) <==> #[trigger] final(self).reads(f),
            forall|f: Image| #[trigger]
                old(self).reads(f) && old(self).steady() ==> final(self).steady() && (
                final(self).is_valid() <==> table_entries(f).len() > 0) && (final(self).is_valid()
                    ==> final(self).landing(f) == table_entries(f).len() - 1),
    {
        if self.err.is_some() {
            return ;
        }
        self.index_last();
        let ghost moved = *self;
        self.init_data_block();
        let ghost mid = *self;
        self.data_last();
        proof {
            assert forall|f: Image| #[trigger]
                old(self).reads(f) && old(self).steady() implies self.steady()
                && self.backward_place(f) == table_entries(f).len() - 1 by {
                assert(moved.reads(f));
                assert(mid.reads(f));
                assert(self.reads(f));
                old(self).lemma_shape(f);
                mid.lemma_shape(f);
                self.lemma_shape(f);
            }
        }
        let ghost before = *self;
        self.skip_backward();
        proof {
            assert forall|f: Image| #[trigger]
                old(self).reads(f) && old(self).steady() implies self.steady() && (
            self.is_valid() <==> table_entries(f).len() > 0) && (self.is_valid() ==> self.landing(f)
                == table_entries(f).len() - 1) by {
                assert(before.reads(f));
            }
        }
    }

    /// Moves to the first entry whose key is no earlier than `target`.
    ///
    /// Over a table that reads a table in order, the cursor lands on the entry of the
    /// table with the smallest key that is no earlier than `target`, or on none where every
    /// key is earlier.
    pub fn seek(&mut self, target: &[u8])
        requires
            old(self).inv(),
        ensures
            final(self).inv(),
            final(self).comparator() == old(self).comparator(),
            forall|f: Image| old(self).reads(f) <==> #[trigger] final(self).reads(f),
            forall|f: Image| #[trigger]
                old(self).reads(f) && old(self).steady() ==> final(self).steady()
                    && is_lower_bound(
                    table_entries(f),
                    old(self).comparator(),
                    target@,
                    final(self).landing(f),
                ),
    {
        if self.err.is_some() {
            return ;
        }
        self.index_seek(target);
        let ghost moved = *self;
        self.init_data_block();
        let ghost mid = *self;
        self.data_seek(target);
        proof {
            assert forall|f: Image| #[trigger]
                old(self).reads(f) && old(self).steady() implies self.steady() && is_lower_bound(
                table_entries(f),
                self.table.comparator(),
                target@,
                self.forward_place(f),
            ) by {
                assert(moved.reads(f));
                assert(mid.reads(f));
                assert(self.reads(f));
                old(self).lemma_shape(f);
                mid.lemma_shape(f);
                self.lemma_shape(f);
                self.lemma_bound(f, target@);
            }
        }
        let ghost before = *self;
        self.skip_forward();
        proof {
            assert forall|f: Image| #[trigger]
                old(self).reads(f) && old(self).steady() implies self.steady() && is_lower_bound(
                table_entries(f),
                old(self).comparator(),
                target@,
                self.landing(f),
            ) by {
                assert(before.reads(f));
            }
        }
    }

    /// Moves to the entry after the one under the cursor. A cursor that stands on no entry
    /// stays as it is.
    ///
    /// Over a table that reads a table in order, the cursor lands on the next entry of the
    /// table, or on none after the last.
    pub fn next(&mut self)
        requires
            old(self).inv(),
        ensures
            final(self).inv(),
            final(self).comparator() == old(self).comparator(),
            forall|f: Image| old(self).reads(f) <==> #[trigger] final(self).reads(f),
            !old(self).is_valid() ==> *final(self) == *old(self),
            forall|f: Image| #[trigger]
                old(self).reads(f) && old(self).steady() ==> final(self).steady() && (
                old(self).is_valid() ==> final(self).landing(f) == old(self).landing(f) + 1),
    {
        if !self.data_next() {
            return ;
        }
        proof {
            assert forall|f: Image| #[trigger]
                old(self).reads(f) && old(self).steady() implies self.steady()
                && self.forward_place(f) == old(self).landing(f) + 1 by {
                assert(self.reads(f));
                old(self).lemma_shape(f);
                self.lemma_shape(f);
            }
        }
        let ghost before = *self;
        self.skip_forward();
        proof {
            assert forall|f: Image| #[trigger]
                old(self).reads(f) && old(self).steady() implies self.steady() && self.landing(f)
                == old(self).landing(f) + 1 by {
                assert(before.reads(f));
            }
        }
    }

    /// Moves to the entry before the one under the cursor. A cursor that stands on no entry
    /// stays as it is.
    ///
    /// Over a table that reads a table in order, the cursor lands on the entry before, or
    /// on none before the first.
    pub fn prev(&mut self)
        requires
            old(self).inv(),
        ensures
            final(self).inv(),
            final(self).comparator() == old(self).comparator(),
            forall|f: Image| old(self).reads(f) <==> #[trigger] final(self).reads(f),
            !old(self).is_valid() ==> *final(self) == *old(self),
            forall|f: Image| #[trigger]
                old(self).reads(f) && old(self).steady() && old(self).is_valid()
                    ==> final(self).steady() && (final(self).is_valid() <==> old(self).landing(f)
                    > 0) && (final(self).is_valid() ==> final(self).landing(f) == old(self).landing(
                    f,
                ) - 1),
    {
        if !self.data_prev() {
            return ;
        }
        proof {
            assert forall|f: Image| #[trigger]
                old(self).reads(f) && old(self).steady() implies self.steady()
                && self.backward_place(f) == old(self).landing(f) - 1 by {
                assert(self.reads(f));
                old(self).lemma_shape(f);
                self.lemma_shape(f);
            }
        }
        let ghost before = *self;
        self.skip_backward();
        proof {
            assert forall|f: Image| #[trigger]
                old(self).reads(f) && old(self).steady() && old(self).is_valid() implies self.steady()
                && (self.is_valid() <==> old(self).landing(f) > 0) && (self.is_valid()
                ==> self.landing(f) == old(self).landing(f) - 1) by {
                assert(before.reads(f));
            }
        }
    }
}

} // verus!
