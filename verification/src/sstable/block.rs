//! Blocks: a run of key/value entries with prefix-compressed keys, followed by the offsets
//! of its restart points and their count.
//!
//! An entry is `shared | non_shared | value_len | key delta | value`, the three lengths as
//! varints; its key is the first `shared` bytes of the key before it, then the delta. At a
//! restart point `shared` is zero, so a key can be read there without what came before.
use crate::error::Error;
use crate::sstable::block_proofs::{
    lemma_next_lands, lemma_restart_entry, lemma_scan_chain, lemma_scan_offsets,
};
use crate::util::coding::{decode_fixed_32_at, spec_decode_fixed_32};
use crate::util::comparator::{Comparator, Order};
use crate::util::varint::{spec_read_u32, VarintU32};
use std::sync::Arc;
use vstd::prelude::*;
use vstd::slice::slice_subrange;

verus! {

/// The three lengths at the head of an entry, and where its key delta starts.
pub struct EntryHeader {
    pub shared: nat,
    pub non_shared: nat,
    pub value_len: nat,
    pub key_start: int,
}

/// An entry as read from a block: where it starts, its full key, its value, and where the
/// entry after it starts.
pub struct EntryView {
    pub offset: int,
    pub key: Seq<u8>,
    pub value: Seq<u8>,
    pub next: int,
}

/// The header of the entry at `off` in the entry area `body`: `None` when one of the three
/// varints cannot be read, or the key delta and the value would reach past the end of `body`.
pub open spec fn header_at(body: Seq<u8>, off: int) -> Option<EntryHeader> {
    match spec_read_u32(body, off) {
        None => None,
        Some((shared, n0)) => match spec_read_u32(body, off + n0) {
            None => None,
            Some((non_shared, n1)) => match spec_read_u32(body, off + n0 + n1) {
                None => None,
                Some((value_len, n2)) => {
                    let key_start = off + n0 + n1 + n2;
                    if key_start + non_shared + value_len <= body.len() {
                        Some(
                            EntryHeader {
                                shared: shared as nat,
                                non_shared: non_shared as nat,
                                value_len: value_len as nat,
                                key_start,
                            },
                        )
                    } else {
                        None
                    }
                },
            },
        },
    }
}

/// The entry at `off` in `body`, the key before it being `prev`: `None` when its header
/// cannot be read or it shares more bytes than `prev` has.
pub open spec fn entry_at(body: Seq<u8>, off: int, prev: Seq<u8>) -> Option<EntryView> {
    match header_at(body, off) {
        None => None,
        Some(h) => if h.shared <= prev.len() {
            Some(
                EntryView {
                    offset: off,
                    key: prev.take(h.shared as int) + body.subrange(
                        h.key_start,
                        h.key_start + h.non_shared,
                    ),
                    value: body.subrange(
                        h.key_start + h.non_shared,
                        h.key_start + h.non_shared + h.value_len,
                    ),
                    next: h.key_start + h.non_shared + h.value_len,
                },
            )
        } else {
            None
        },
    }
}

/// Where a cursor stands after a move: on an entry, past the last entry, or nowhere
/// because the bytes it had to read were no entry.
pub enum Cursor {
    At(EntryView),
    End,
    Broken,
}

/// Where a cursor lands that reads at `off` with `prev` as the key before: past the last
/// entry where the entries end at `off`, on the entry at `off` if there is one, and nowhere
/// where there is none or `off` lies beyond the entries.
pub open spec fn land(body: Seq<u8>, off: int, prev: Seq<u8>) -> Cursor {
    if off == body.len() {
        Cursor::End
    } else if off > body.len() {
        Cursor::Broken
    } else {
        match entry_at(body, off, prev) {
            Some(e) => Cursor::At(e),
            None => Cursor::Broken,
        }
    }
}

/// The entries read one after the other from `off` on, up to the end of `body` or the
/// first bytes that are no entry.
pub open spec fn entries_from(body: Seq<u8>, off: int, prev: Seq<u8>) -> Seq<EntryView>
    decreases body.len() - off,
{
    if off < 0 || off >= body.len() {
        Seq::empty()
    } else {
        match entry_at(body, off, prev) {
            None => Seq::empty(),
            Some(e) => if e.next > off {
                seq![e] + entries_from(body, e.next, e.key)
            } else {
                Seq::empty()
            },
        }
    }
}

/// Reading entries from `off` on reaches the end of `body` exactly.
pub open spec fn clean_from(body: Seq<u8>, off: int, prev: Seq<u8>) -> bool
    decreases body.len() - off,
{
    if off == body.len() {
        true
    } else if off < 0 || off > body.len() {
        false
    } else {
        match entry_at(body, off, prev) {
            None => false,
            Some(e) => e.next > off && clean_from(body, e.next, e.key),
        }
    }
}

/// Reading entries from `from` on, the key before being `prev`, comes to `to` with `key`
/// as the key before.
pub open spec fn scan_reaches(body: Seq<u8>, from: int, prev: Seq<u8>, to: int, key: Seq<u8>) -> bool
    decreases body.len() - from,
{
    if from == to {
        prev == key
    } else if from < 0 || from >= body.len() {
        false
    } else {
        match entry_at(body, from, prev) {
            None => false,
            Some(e) => e.next > from && scan_reaches(body, e.next, e.key, to, key),
        }
    }
}

/// Reading that comes to an entry comes to what follows the entry.
pub proof fn lemma_reach_step(
    body: Seq<u8>,
    from: int,
    prev: Seq<u8>,
    at: int,
    before: Seq<u8>,
    e: EntryView,
)
    requires
        scan_reaches(body, from, prev, at, before),
        0 <= at < body.len(),
        entry_at(body, at, before) == Some(e),
        e.next > at,
    ensures
        scan_reaches(body, from, prev, e.next, e.key),
    decreases body.len() - from,
{
    if from == at {
        assert(scan_reaches(body, e.next, e.key, e.next, e.key));
    } else {
        let first = entry_at(body, from, prev)->Some_0;
        lemma_reach_step(body, first.next, first.key, at, before, e);
        if from == e.next {
            lemma_reach_forward(body, first.next, first.key, e.next, e.key);
        }
    }
}

/// Reading comes only to places that are no earlier than where it starts.
pub proof fn lemma_reach_forward(body: Seq<u8>, from: int, prev: Seq<u8>, to: int, key: Seq<u8>)
    requires
        scan_reaches(body, from, prev, to, key),
    ensures
        from <= to,
    decreases body.len() - from,
{
    if from != to {
        let first = entry_at(body, from, prev)->Some_0;
        lemma_reach_forward(body, first.next, first.key, to, key);
    }
}

/// Reading that comes to a place from which the rest reads to the end reads to the end.
pub proof fn lemma_reach_clean(body: Seq<u8>, from: int, prev: Seq<u8>, to: int, key: Seq<u8>)
    requires
        scan_reaches(body, from, prev, to, key),
        clean_from(body, to, key),
    ensures
        clean_from(body, from, prev),
    decreases body.len() - from,
{
    if from != to {
        let first = entry_at(body, from, prev)->Some_0;
        lemma_reach_clean(body, first.next, first.key, to, key);
        lemma_reach_forward(body, first.next, first.key, to, key);
    }
}

/// The number of restart points that the last four bytes of a block announce.
pub open spec fn announced_restarts(data: Seq<u8>) -> nat {
    spec_decode_fixed_32(data, data.len() - 4)
}

/// A block holds its own trailer: the count of restart points and that many offsets.
pub open spec fn parsable(data: Seq<u8>) -> bool {
    data.len() >= 4 && 4 * announced_restarts(data) + 4 <= data.len()
}

/// The number of restart points of a block; none where it is not parsable.
pub open spec fn restart_count(data: Seq<u8>) -> nat {
    if parsable(data) {
        announced_restarts(data)
    } else {
        0
    }
}

/// Where the entries end and the restart offsets begin.
pub open spec fn restart_area(data: Seq<u8>) -> int {
    if parsable(data) {
        data.len() - 4 - 4 * announced_restarts(data)
    } else {
        0
    }
}

/// The entry area of a block.
pub open spec fn block_body(data: Seq<u8>) -> Seq<u8> {
    data.subrange(0, restart_area(data))
}

/// The `j`-th restart offset of a block.
pub open spec fn restart_point(data: Seq<u8>, j: int) -> nat {
    spec_decode_fixed_32(data, restart_area(data) + 4 * j)
}

/// The entries of a block, read from its start.
pub open spec fn block_entries(data: Seq<u8>) -> Seq<EntryView> {
    entries_from(block_body(data), 0, Seq::empty())
}

/// `off` is where one of the entries `es` starts.
pub open spec fn starts_entry(es: Seq<EntryView>, off: int) -> bool {
    exists|i: int| 0 <= i < es.len() && #[trigger] es[i].offset == off
}

/// The index of the entry of `es` that starts at `off`.
pub open spec fn index_of_offset(es: Seq<EntryView>, off: int) -> int {
    choose|i: int| 0 <= i < es.len() && #[trigger] es[i].offset == off
}

/// A block as a builder leaves it: the entry area is entries from start to end, there is a
/// restart point, the first one is offset zero, and every restart point is the start of an
/// entry that shares nothing with the key before it.
pub open spec fn regular(data: Seq<u8>) -> bool {
    &&& parsable(data)
    &&& restart_count(data) >= 1
    &&& clean_from(block_body(data), 0, Seq::empty())
    &&& restart_point(data, 0) == 0
    &&& forall|j: int|
        1 <= j < restart_count(data) ==> {
            &&& starts_entry(block_entries(data), #[trigger] restart_point(data, j) as int)
            &&& header_at(block_body(data), restart_point(data, j) as int) matches Some(h)
            &&& h.shared == 0
        }
}

/// The keys of `es` are strictly increasing in the order `c`.
pub open spec fn sorted<C: Comparator>(es: Seq<EntryView>, c: C) -> bool {
    forall|i: int, j: int| 0 <= i < j < es.len() ==> !c.le(#[trigger] es[j].key, #[trigger] es[i].key)
}

/// Where a cursor lands that moves to the first entry: where reading at the first restart
/// point lands, and past the end in a block without restart points.
pub open spec fn first_landing(data: Seq<u8>) -> Cursor {
    if restart_count(data) == 0 {
        Cursor::End
    } else {
        land(block_body(data), restart_point(data, 0) as int, Seq::empty())
    }
}

/// `p` is the index of the first of the entries `es` whose key is no earlier than `target`,
/// or their number where all keys are earlier.
pub open spec fn is_lower_bound<C: Comparator>(
    es: Seq<EntryView>,
    c: C,
    target: Seq<u8>,
    p: int,
) -> bool {
    &&& 0 <= p <= es.len()
    &&& forall|i: int| 0 <= i < p ==> !c.le(target, #[trigger] es[i].key)
    &&& p < es.len() ==> c.le(target, es[p].key)
}

/// Where the cursor stands on an entry, that is an entry of the bytes: the one that they
/// hold where it starts, read with some key before it.
pub open spec fn reads_entry(data: Seq<u8>, c: Cursor) -> bool {
    c matches Cursor::At(e) ==> exists|prev: Seq<u8>| #[trigger]
        entry_at(block_body(data), e.offset, prev) == Some(e)
}

/// Where the cursor stands past the entries of a block with restart points, the entries
/// read from one of the restart points on end where the entry area ends.
pub open spec fn ends_cleanly(data: Seq<u8>, c: Cursor) -> bool {
    c is End && restart_count(data) > 0 ==> exists|j: int|
        0 <= j < restart_count(data) && clean_from(
            block_body(data),
            #[trigger] restart_point(data, j) as int,
            Seq::empty(),
        )
}

/// The error of an entry that cannot be read.
pub open spec fn bad_entry(e: Error) -> bool {
    e matches Error::Corruption(m) && m@ == "bad entry in block"@
}

/// The error of a block that does not hold its own trailer.
pub open spec fn bad_block(e: Error) -> bool {
    e matches Error::Corruption(m) && m@ == "[block] read invalid block content"@
}

/// `Arc::clone` of std: a second handle to the value behind `a`. The contract claims that
/// the new handle holds the same value.
#[verifier::external_body]
fn share(a: &Arc<Vec<u8>>) -> (r: Arc<Vec<u8>>)
    ensures
        r == *a,
{
    a.clone()
}

/// The bytes of a block, checked to hold their own trailer, and shared by the iterators
/// over them.
pub struct Block {
    data: Arc<Vec<u8>>,
    restart_offset: usize,
    restarts_len: usize,
}

impl View for Block {
    type V = Seq<u8>;

    closed spec fn view(&self) -> Seq<u8> {
        self.data@
    }
}

impl Block {
    /// The fields agree with the bytes.
    pub closed spec fn wf(&self) -> bool {
        &&& self.restart_offset == restart_area(self.data@)
        &&& self.restarts_len == restart_count(self.data@)
    }

    /// Takes the bytes of a block. Fails with `Corruption` exactly when they are too short
    /// for the count of restart points or for the restart offsets that the count announces.
    pub fn new(data: Vec<u8>) -> (r: Result<Block, Error>)
        ensures
            match r {
                Ok(b) => parsable(data@) && b@ == data@ && b.wf(),
                Err(e) => !parsable(data@) && bad_block(e),
            },
    {
        Self::from_shared(Arc::new(data))
    }

    /// Takes the bytes of a block that are shared with others, as `new` takes bytes of
    /// its own.
    pub fn from_shared(data: Arc<Vec<u8>>) -> (r: Result<Block, Error>)
        ensures
            match r {
                Ok(b) => parsable(data@) && b@ == data@ && b.wf(),
                Err(e) => !parsable(data@) && bad_block(e),
            },
    {
        let size: usize = data.len();
        if size >= 4 {
            let max_restarts_allowed: usize = (size - 4) / 4;
            let restarts_len: usize = decode_fixed_32_at(data.as_slice(), size - 4) as usize;
            if restarts_len <= max_restarts_allowed {
                let restart_offset: usize = size - 4 - 4 * restarts_len;
                return Ok(Block { data, restart_offset, restarts_len });
            }
        }
        Err(Error::corruption("[block] read invalid block content"))
    }

    /// A second handle to the bytes of the block.
    pub fn shared(&self) -> (data: Arc<Vec<u8>>)
        ensures
            data@ == self@,
    {
        share(&self.data)
    }

    /// An iterator over the entries of the block in the order `comparator`, not yet
    /// positioned.
    pub fn iter<C: Comparator>(&self, comparator: C) -> (it: BlockIterator<C>)
        requires
            self.wf(),
        ensures
            it.inv(),
            it.data() == self@,
            it.comparator() == comparator,
            it.cursor() == Cursor::End,
    {
        BlockIterator {
            comparator,
            data: share(&self.data),
            restarts: self.restart_offset,
            restarts_len: self.restarts_len,
            current: self.restart_offset,
            restart_index: self.restarts_len,
            key: Vec::new(),
            value_offset: self.restart_offset,
            value_len: 0,
            err: None,
            pos: Ghost(0),
            before: Ghost(Seq::empty()),
        }
    }
}

impl Default for Block {
    /// A block without bytes: it has no entries and no restart points.
    fn default() -> (b: Block)
        ensures
            b@ == Seq::<u8>::empty(),
            b.wf(),
    {
        Block { data: Arc::new(Vec::new()), restart_offset: 0, restarts_len: 0 }
    }
}

/// Reads the header of the entry at `off` in `body`.
fn read_header(body: &[u8], off: usize) -> (r: Option<(usize, usize, usize, usize)>)
    ensures
        match r {
            Some((shared, non_shared, value_len, key_start)) => header_at(body@, off as int)
                == Some(
                EntryHeader {
                    shared: shared as nat,
                    non_shared: non_shared as nat,
                    value_len: value_len as nat,
                    key_start: key_start as int,
                },
            ) && off + 3 <= key_start && key_start + non_shared + value_len <= body@.len(),
            None => header_at(body@, off as int) is None,
        },
{
    let (shared, n0) = match VarintU32::read_at(body, off) {
        Some(x) => x,
        None => {
            return None;
        },
    };
    let (non_shared, n1) = match VarintU32::read_at(body, off + n0) {
        Some(x) => x,
        None => {
            return None;
        },
    };
    let (value_len, n2) = match VarintU32::read_at(body, off + n0 + n1) {
        Some(x) => x,
        None => {
            return None;
        },
    };
    let key_start: usize = off + n0 + n1 + n2;
    let room: usize = body.len() - key_start;
    if non_shared as usize > room {
        return None;
    }
    if value_len as usize > room - non_shared as usize {
        return None;
    }
    Some((shared as usize, non_shared as usize, value_len as usize, key_start))
}

/// Reads the entry at `off` in `body`, `key` holding the key before it; leaves the key of
/// the entry in `key` and returns where its value starts and how long it is.
fn read_entry(body: &[u8], off: usize, key: &mut Vec<u8>) -> (r: Option<(usize, usize)>)
    ensures
        match r {
            Some((value_start, value_len)) => {
                &&& entry_at(body@, off as int, old(key)@) == Some(
                    EntryView {
                        offset: off as int,
                        key: final(key)@,
                        value: body@.subrange(value_start as int, value_start + value_len),
                        next: value_start + value_len,
                    },
                )
                &&& off + 3 <= value_start
                &&& value_start + value_len <= body@.len()
            },
            None => entry_at(body@, off as int, old(key)@) is None,
        },
{
    let (shared, non_shared, value_len, key_start) = match read_header(body, off) {
        Some(h) => h,
        None => {
            return None;
        },
    };
    if shared > key.len() {
        return None;
    }
    key.truncate(shared);
    let size: usize = body.len();
    let mut i: usize = 0;
    while i < non_shared
        invariant
            i <= non_shared,
            size == body@.len(),
            key_start + non_shared <= size,
            key@ == old(key)@.take(shared as int) + body@.subrange(
                key_start as int,
                key_start + i,
            ),
        decreases non_shared - i,
    {
        key.push(body[key_start + i]);
        i = i + 1;
    }
    Some((key_start + non_shared, value_len))
}

/// A cursor over the entries of a block.
pub struct BlockIterator<C: Comparator> {
    comparator: C,
    data: Arc<Vec<u8>>,
    // where the entries end and the restart offsets begin
    restarts: usize,
    restarts_len: usize,
    // offset of the entry under the cursor; `restarts` when there is none
    current: usize,
    // a restart point at or before `current`
    restart_index: usize,
    key: Vec<u8>,
    value_offset: usize,
    value_len: usize,
    err: Option<Error>,
    // index of the entry under the cursor among the entries of a regular block
    pos: Ghost<int>,
    // the key before the entry under the cursor, with which the entry was read
    before: Ghost<Seq<u8>>,
}

impl<C: Comparator> BlockIterator<C> {
    /// The bytes of the block.
    pub closed spec fn data(&self) -> Seq<u8> {
        self.data@
    }

    /// The order of the keys.
    pub closed spec fn comparator(&self) -> C {
        self.comparator
    }

    /// Where the cursor stands.
    pub closed spec fn cursor(&self) -> Cursor {
        if self.err is Some {
            Cursor::Broken
        } else if self.current < self.restarts {
            Cursor::At(
                EntryView {
                    offset: self.current as int,
                    key: self.key@,
                    value: self.data@.subrange(
                        self.value_offset as int,
                        self.value_offset + self.value_len,
                    ),
                    next: self.value_offset + self.value_len,
                },
            )
        } else {
            Cursor::End
        }
    }

    /// In a regular block, the index of the entry under the cursor.
    pub closed spec fn position(&self) -> int {
        self.pos@
    }

    /// The bytes from the start of the entry under the cursor to the end of the entries;
    /// none where the cursor stands on no entry. Moving on makes them fewer.
    pub closed spec fn remaining(&self) -> nat {
        if self.cursor() is At {
            (self.restarts - self.current) as nat
        } else {
            0
        }
    }

    /// The bytes up to and with the first byte of the entry under the cursor; none where
    /// the cursor stands on no entry. Moving back makes them fewer.
    pub closed spec fn consumed(&self) -> nat {
        if self.cursor() is At {
            (self.current + 1) as nat
        } else {
            0
        }
    }

    /// The fields agree with the bytes, whatever key is held.
    pub closed spec fn frame(&self) -> bool {
        &&& self.restarts == restart_area(self.data@)
        &&& self.restarts_len == restart_count(self.data@)
        &&& self.current <= self.restarts
        &&& self.err matches Some(e) ==> bad_entry(e)
        &&& self.current < self.restarts ==> self.current < self.value_offset
            && self.value_offset + self.value_len <= self.restarts
    }

    /// The fields agree with the bytes, and the entry under the cursor is the entry that
    /// the bytes hold where the cursor stands, read with some key before it.
    pub closed spec fn shape(&self) -> bool {
        &&& self.frame()
        &&& self.cursor() matches Cursor::At(e) ==> entry_at(
            block_body(self.data@),
            e.offset,
            self.before@,
        ) == Some(e)
    }

    /// The fields agree with the bytes, and in a regular block the cursor stands on one of
    /// the entries of the block or past them.
    pub closed spec fn inv(&self) -> bool {
        &&& self.shape()
        &&& regular(self.data@) ==> self.err is None
        &&& (regular(self.data@) && self.cursor() is At) ==> {
            &&& 0 <= self.pos@ < block_entries(self.data@).len()
            &&& self.cursor() == Cursor::At(block_entries(self.data@)[self.pos@])
        }
    }

    /// In a regular block, the index of the entry under the cursor, and the number of
    /// entries when the cursor is past them.
    pub open spec fn landing(&self) -> int {
        if self.cursor() is At {
            self.position()
        } else {
            block_entries(self.data()).len() as int
        }
    }

    /// What `inv` says of a regular block.
    pub proof fn lemma_inv_regular(&self)
        requires
            self.inv(),
            regular(self.data()),
        ensures
            !(self.cursor() is Broken),
            self.cursor() is At ==> 0 <= self.position() < block_entries(self.data()).len()
                && self.cursor() == Cursor::At(block_entries(self.data())[self.position()]),
    {
    }

    /// Whether the cursor stands on an entry.
    pub fn valid(&self) -> (b: bool)
        requires
            self.inv(),
        ensures
            b == (self.cursor() is At),
    {
        self.err.is_none() && self.current < self.restarts
    }

    /// The key of the entry under the cursor.
    pub fn key(&self) -> (k: &[u8])
        requires
            self.inv(),
            self.cursor() is At,
        ensures
            self.cursor() matches Cursor::At(e) && k@ == e.key,
    {
        self.key.as_slice()
    }

    /// The entry under the cursor is an entry of the bytes, in whatever block.
    pub proof fn lemma_entry_read(&self)
        requires
            self.inv(),
        ensures
            reads_entry(self.data(), self.cursor()),
    {
    }

    /// The value of the entry under the cursor.
    pub fn value(&self) -> (v: &[u8])
        requires
            self.inv(),
            self.cursor() is At,
        ensures
            self.cursor() matches Cursor::At(e) && v@ == e.value,
    {
        slice_subrange(self.data.as_slice(), self.value_offset, self.value_offset + self.value_len)
    }

    /// The `j`-th restart offset.
    fn restart_at(&self, j: usize) -> (r: usize)
        requires
            self.frame(),
            j < self.restarts_len,
        ensures
            r == restart_point(self.data@, j as int),
    {
        let size: usize = self.data.len();
        assert(self.restarts + 4 * self.restarts_len + 4 == size);
        decode_fixed_32_at(self.data.as_slice(), self.restarts + 4 * j) as usize
    }

    /// Leaves the cursor past the entries.
    fn set_end(&mut self)
        requires
            old(self).frame(),
            old(self).err is None,
        ensures
            final(self).shape(),
            final(self).cursor() == Cursor::End,
            final(self).data == old(self).data,
            final(self).comparator == old(self).comparator,
            final(self).pos == old(self).pos,
            final(self).key == old(self).key,
            final(self).restarts == old(self).restarts,
            final(self).current == final(self).restarts,
    {
        self.current = self.restarts;
        self.restart_index = self.restarts_len;
    }

    /// Leaves the cursor broken.
    fn set_broken(&mut self)
        requires
            old(self).frame(),
        ensures
            final(self).shape(),
            final(self).cursor() == Cursor::Broken,
            final(self).data == old(self).data,
            final(self).comparator == old(self).comparator,
            final(self).pos == old(self).pos,
            final(self).restarts == old(self).restarts,
            final(self).current == final(self).restarts,
    {
        self.err = Some(Error::corruption("bad entry in block"));
        self.current = self.restarts;
        self.restart_index = self.restarts_len;
    }

    /// Reads at `off`, with the key held as the key before, and leaves the cursor where
    /// that lands.
    fn read_at_offset(&mut self, off: usize)
        requires
            old(self).frame(),
            old(self).err is None,
        ensures
            final(self).shape(),
            final(self).cursor() == land(block_body(old(self).data@), off as int, old(self).key@),
            final(self).data == old(self).data,
            final(self).comparator == old(self).comparator,
            final(self).pos == old(self).pos,
            final(self).restarts == old(self).restarts,
            final(self).cursor() is At ==> final(self).current == off && final(self).before@
                == old(self).key@,
            !(final(self).cursor() is At) ==> final(self).current == final(self).restarts,
    {
        if off == self.restarts {
            self.set_end();
            return ;
        }
        if off > self.restarts {
            self.set_broken();
            return ;
        }
        let body = slice_subrange(self.data.as_slice(), 0, self.restarts);
        let ghost before = self.key@;
        match read_entry(body, off, &mut self.key) {
            Some((value_start, value_len)) => {
                self.current = off;
                self.value_offset = value_start;
                self.value_len = value_len;
                proof {
                    self.before = Ghost(before);
                    assert(body@.subrange(value_start as int, value_start + value_len)
                        =~= self.data@.subrange(value_start as int, value_start + value_len));
                }
                let mut ri: usize = if self.restart_index < self.restarts_len {
                    self.restart_index
                } else {
                    0
                };
                while self.restarts_len > 0 && ri < self.restarts_len - 1 && self.restart_at(
                    ri + 1,
                ) <= off
                    invariant
                        self.shape(),
                        ri <= self.restarts_len,
                    decreases self.restarts_len - ri,
                {
                    ri = ri + 1;
                }
                self.restart_index = ri;
            },
            None => {
                self.set_broken();
            },
        }
    }

    /// Moves to the first entry.
    ///
    /// A broken cursor stays broken. Otherwise the cursor lands where reading at the first
    /// restart point lands; in a regular block that is the first entry, or the end where
    /// there is none.
    pub fn seek_to_first(&mut self)
        requires
            old(self).inv(),
        ensures
            final(self).inv(),
            final(self).data() == old(self).data(),
            final(self).comparator() == old(self).comparator(),
            final(self).cursor() == if old(self).cursor() is Broken {
                Cursor::Broken
            } else {
                first_landing(old(self).data())
            },
            regular(old(self).data()) ==> final(self).landing() == 0,
    {
        if self.err.is_some() {
            return ;
        }
        if self.restarts_len == 0 {
            self.set_end();
            return ;
        }
        let off: usize = self.restart_at(0);
        self.key.clear();
        proof {
            if regular(self.data@) {
                lemma_restart_entry(self.data@, 0, Seq::empty());
            }
        }
        self.read_at_offset(off);
        self.pos = Ghost(0);
    }

    /// Moves to the last entry: in a regular block the cursor lands on the last entry, or
    /// stays past the end where there is none. A broken cursor stays broken.
    pub fn seek_to_last(&mut self)
        requires
            old(self).inv(),
        ensures
            final(self).inv(),
            final(self).data() == old(self).data(),
            final(self).comparator() == old(self).comparator(),
            old(self).cursor() is Broken ==> final(self).cursor() is Broken,
            regular(old(self).data()) ==> (final(self).cursor() is At <==> block_entries(
                old(self).data(),
            ).len() > 0),
            regular(old(self).data()) && final(self).cursor() is At ==> final(self).position()
                == block_entries(old(self).data()).len() - 1,
            reads_entry(old(self).data(), final(self).cursor()),
            old(self).cursor() is Broken || ends_cleanly(old(self).data(), final(self).cursor()),
    {
        if self.err.is_some() {
            return ;
        }
        if self.restarts_len == 0 {
            self.set_end();
            return ;
        }
        let off: usize = self.restart_at(self.restarts_len - 1);
        self.key.clear();
        let ghost data = self.data@;
        let ghost body = block_body(data);
        let ghost es = block_entries(data);
        proof {
            if regular(data) {
                lemma_restart_entry(data, self.restarts_len - 1, Seq::empty());
                self.pos = Ghost(index_of_offset(es, off as int));
            }
        }
        self.read_at_offset(off);
        while self.err.is_none() && self.current < self.restarts && self.value_offset
            + self.value_len < self.restarts
            invariant
                self.shape(),
                self.data@ == data,
                self.comparator == old(self).comparator,
                body == block_body(data),
                es == block_entries(data),
                self.cursor() is End ==> off == body.len(),
                regular(data) ==> (self.cursor() is At <==> es.len() > 0) && !(self.cursor() is Broken),
                regular(data) && self.cursor() is At ==> 0 <= self.pos@ < es.len()
                    && self.cursor() == Cursor::At(es[self.pos@]),
            decreases self.restarts - self.current,
        {
            let next: usize = self.value_offset + self.value_len;
            proof {
                if regular(data) {
                    lemma_next_lands(body, self.pos@);
                }
            }
            self.read_at_offset(next);
            proof {
                self.pos = Ghost(self.pos@ + 1);
            }
        }
        proof {
            if regular(data) && self.cursor() is At {
                lemma_next_lands(body, self.pos@);
                if self.pos@ + 1 < es.len() {
                    lemma_scan_chain(body, 0, Seq::empty(), self.pos@ + 1);
                }
            }
        }
    }

    /// Moves to the entry after the one under the cursor.
    ///
    /// From an entry the cursor lands where reading at the end of that entry lands, with
    /// its key as the key before; in a regular block that is the next entry, or the end
    /// after the last one. A cursor that stands on no entry stays as it is.
    pub fn next(&mut self)
        requires
            old(self).inv(),
        ensures
            final(self).inv(),
            final(self).data() == old(self).data(),
            final(self).comparator() == old(self).comparator(),
            final(self).cursor() == match old(self).cursor() {
                Cursor::At(e) => land(block_body(old(self).data()), e.next, e.key),
                c => c,
            },
            regular(old(self).data()) && old(self).cursor() is At ==> final(self).landing()
                == old(self).position() + 1,
            old(self).cursor() is At ==> final(self).remaining() < old(self).remaining(),
    {
        if !self.valid() {
            return ;
        }
        let next: usize = self.value_offset + self.value_len;
        proof {
            if regular(self.data@) {
                lemma_next_lands(block_body(self.data@), self.pos@);
            }
        }
        self.read_at_offset(next);
        proof {
            self.pos = Ghost(self.pos@ + 1);
        }
    }

    /// Moves to the entry before the one under the cursor: in a regular block the cursor
    /// lands on the entry before, or past the end from the first entry. A cursor that
    /// stands on no entry stays as it is.
    pub fn prev(&mut self)
        requires
            old(self).inv(),
        ensures
            final(self).inv(),
            final(self).data() == old(self).data(),
            final(self).comparator() == old(self).comparator(),
            !(old(self).cursor() is At) ==> final(self).cursor() == old(self).cursor(),
            regular(old(self).data()) && old(self).cursor() is At ==> (final(self).cursor() is At
                <==> old(self).position() > 0),
            regular(old(self).data()) && old(self).cursor() is At && final(self).cursor() is At
                ==> final(self).position() == old(self).position() - 1,
            old(self).cursor() is At ==> final(self).consumed() < old(self).consumed(),
            reads_entry(old(self).data(), final(self).cursor()),
            old(self).cursor() is At && final(self).cursor() is End && restart_count(
                old(self).data(),
            ) > 0 ==> restart_point(old(self).data(), 0) >= old(self).cursor()->At_0.offset,
            old(self).cursor() is At && final(self).cursor() is At ==> final(self).cursor()->At_0
                .offset < old(self).cursor()->At_0.offset,
    {
        if !self.valid() {
            return ;
        }
        if self.restarts_len == 0 {
            proof {
                if regular(self.data@) {
                    assert(false);
                }
            }
            self.set_end();
            return ;
        }
        let origin: usize = self.current;
        let ghost data = self.data@;
        let ghost body = block_body(data);
        let ghost es = block_entries(data);
        let ghost p = self.pos@;
        let mut ri: usize = if self.restart_index < self.restarts_len {
            self.restart_index
        } else {
            self.restarts_len - 1
        };
        let mut off: usize = self.restart_at(ri);
        while off >= origin
            invariant
                self.shape(),
                self.err is None,
                ri < self.restarts_len,
                off == restart_point(self.data@, ri as int),
                origin == old(self).current,
                *self == *old(self),
                data == self.data@,
                body == block_body(data),
                es == block_entries(data),
                p == self.pos@,
                regular(data) ==> 0 <= p < es.len() && es[p].offset == origin,
            decreases ri,
        {
            if ri == 0 {
                proof {
                    if regular(data) {
                        lemma_restart_entry(data, 0, Seq::empty());
                        lemma_scan_chain(body, 0, Seq::empty(), 0);
                        if p > 0 {
                            lemma_scan_offsets(body, 0, Seq::empty(), 0, p);
                        }
                    }
                }
                self.set_end();
                return ;
            }
            ri = ri - 1;
            off = self.restart_at(ri);
        }
        self.key.clear();
        proof {
            if regular(data) {
                lemma_restart_entry(data, ri as int, Seq::empty());
                let k = index_of_offset(es, off as int);
                self.pos = Ghost(k);
                if k >= p {
                    if k > p {
                        lemma_scan_offsets(body, 0, Seq::empty(), p, k);
                    }
                    assert(false);
                }
            }
        }
        self.read_at_offset(off);
        while self.err.is_none() && self.current < self.restarts && self.value_offset
            + self.value_len < origin
            invariant
                self.shape(),
                self.data@ == data,
                self.comparator == old(self).comparator,
                body == block_body(data),
                es == block_entries(data),
                origin <= self.restarts,
                origin == old(self).current,
                self.cursor() is At ==> self.current < origin,
                !(self.cursor() is End),
                regular(data) ==> 0 <= p < es.len() && es[p].offset == origin,
                regular(data) ==> self.cursor() is At && 0 <= self.pos@ < p && self.cursor()
                    == Cursor::At(es[self.pos@]),
            decreases self.restarts - self.current,
        {
            let next: usize = self.value_offset + self.value_len;
            proof {
                if regular(data) {
                    lemma_next_lands(body, self.pos@);
                    lemma_scan_chain(body, 0, Seq::empty(), self.pos@ + 1);
                    if self.pos@ + 1 >= p {
                        if self.pos@ + 1 > p {
                            lemma_scan_offsets(body, 0, Seq::empty(), p, self.pos@ + 1);
                        }
                        assert(false);
                    }
                }
            }
            self.read_at_offset(next);
            proof {
                self.pos = Ghost(self.pos@ + 1);
            }
        }
        proof {
            if regular(data) {
                let m = self.pos@;
                if m + 1 < p {
                    lemma_scan_chain(body, 0, Seq::empty(), m + 1);
                    lemma_scan_offsets(body, 0, Seq::empty(), m + 1, p);
                    assert(false);
                }
            }
        }
    }

    /// Moves to the first entry whose key is no earlier than `target`.
    ///
    /// In a regular block whose keys are strictly increasing, the cursor lands on the entry
    /// with the smallest key that is no earlier than `target`, or past the end where every
    /// key is earlier. A broken cursor stays broken.
    pub fn seek(&mut self, target: &[u8])
        requires
            old(self).inv(),
        ensures
            final(self).inv(),
            final(self).data() == old(self).data(),
            final(self).comparator() == old(self).comparator(),
            old(self).cursor() is Broken ==> final(self).cursor() is Broken,
            regular(old(self).data()) && sorted(
                block_entries(old(self).data()),
                old(self).comparator(),
            ) ==> is_lower_bound(
                block_entries(old(self).data()),
                old(self).comparator(),
                target@,
                final(self).landing(),
            ),
            reads_entry(old(self).data(), final(self).cursor()),
            old(self).cursor() is Broken || ends_cleanly(old(self).data(), final(self).cursor()),
    {
        if self.err.is_some() {
            return ;
        }
        if self.restarts_len == 0 {
            self.set_end();
            return ;
        }
        let ghost data = self.data@;
        let ghost body = block_body(data);
        let ghost es = block_entries(data);
        let ghost c = self.comparator;
        let ghost reg = regular(data);
        let ghost good = reg && sorted(es, c);
        let mut left: usize = 0;
        let mut right: usize = self.restarts_len - 1;
        while left < right
            invariant
                self.shape(),
                self.err is None,
                self.data@ == data,
                self.comparator == c,
                *self == *old(self),
                body == block_body(data),
                es == block_entries(data),
                reg == regular(data),
                good == (reg && sorted(es, c)),
                left <= right < self.restarts_len,
                good && left > 0 ==> es.len() > 0 && !c.le(
                    target@,
                    es[index_of_offset(es, restart_point(data, left as int) as int)].key,
                ),
            decreases right - left,
        {
            let mid: usize = left + (right - left + 1) / 2;
            let r: usize = self.restart_at(mid);
            proof {
                if reg {
                    lemma_restart_entry(data, mid as int, Seq::empty());
                    if es.len() == 0 {
                        assert(starts_entry(es, restart_point(data, mid as int) as int));
                    }
                }
            }
            if r >= self.restarts {
                self.set_broken();
                return ;
            }
            let area = slice_subrange(self.data.as_slice(), 0, self.restarts);
            let (shared, non_shared, _value_len, key_start) = match read_header(area, r) {
                Some(h) => h,
                None => {
                    self.set_broken();
                    return ;
                },
            };
            if shared != 0 {
                self.set_broken();
                return ;
            }
            let mid_key = slice_subrange(area, key_start, key_start + non_shared);
            match self.comparator.compare(mid_key, target) {
                Order::Less => {
                    left = mid;
                },
                _ => {
                    right = mid - 1;
                },
            }
        }
        let off: usize = self.restart_at(left);
        self.key.clear();
        proof {
            if reg {
                lemma_restart_entry(data, left as int, Seq::empty());
                let k = index_of_offset(es, off as int);
                self.pos = Ghost(k);
                if good && es.len() > 0 {
                    assert forall|i: int| 0 <= i < k implies !c.le(target@, #[trigger] es[i].key) by {
                        assert(!c.le(es[k].key, es[i].key));
                        if c.le(target@, es[i].key) {
                            c.lemma_total(es[k].key, target@);
                            c.lemma_transitive(es[k].key, target@, es[i].key);
                        }
                    }
                }
            }
        }
        self.read_at_offset(off);
        proof {
            if self.cursor() is At {
                assert(scan_reaches(body, off as int, Seq::empty(), off as int, Seq::empty()));
            }
        }
        loop
            invariant
                self.shape(),
                self.data@ == data,
                self.comparator == c,
                body == block_body(data),
                es == block_entries(data),
                reg == regular(data),
                good == (reg && sorted(es, c)),
                off == restart_point(data, left as int),
                left < restart_count(data),
                self.cursor() is At ==> scan_reaches(
                    body,
                    off as int,
                    Seq::empty(),
                    self.current as int,
                    self.before@,
                ),
                self.cursor() is End ==> clean_from(body, off as int, Seq::empty()),
                reg ==> !(self.cursor() is Broken),
                reg && self.cursor() is At ==> 0 <= self.pos@ < es.len() && self.cursor()
                    == Cursor::At(es[self.pos@]),
                good ==> forall|i: int|
                    0 <= i < self.landing() && i < es.len() ==> !c.le(target@, #[trigger] es[i].key),
            ensures
                self.shape(),
                self.data@ == data,
                self.comparator == c,
                self.cursor() is End ==> clean_from(body, off as int, Seq::empty()),
                reg ==> !(self.cursor() is Broken),
                reg && self.cursor() is At ==> 0 <= self.pos@ < es.len() && self.cursor()
                    == Cursor::At(es[self.pos@]),
                good ==> is_lower_bound(es, c, target@, self.landing()),
            decreases self.restarts - self.current,
        {
            if self.err.is_some() || self.current >= self.restarts {
                break ;
            }
            match self.comparator.compare(self.key.as_slice(), target) {
                Order::Less => {},
                _ => {
                    break ;
                },
            }
            let next: usize = self.value_offset + self.value_len;
            let ghost under = self.cursor()->At_0;
            proof {
                if reg {
                    lemma_next_lands(body, self.pos@);
                }
                lemma_reach_step(
                    body,
                    off as int,
                    Seq::empty(),
                    self.current as int,
                    self.before@,
                    under,
                );
            }
            self.read_at_offset(next);
            proof {
                self.pos = Ghost(self.pos@ + 1);
                if self.cursor() is End {
                    lemma_reach_clean(body, off as int, Seq::empty(), next as int, under.key);
                }
            }
        }
    }

    /// `Corruption` once the cursor had to read bytes that were no entry, else `Ok`.
    pub fn status(&mut self) -> (r: Result<(), Error>)
        ensures
            *final(self) == *old(self),
            match r {
                Ok(_) => !(old(self).cursor() is Broken),
                Err(e) => old(self).cursor() is Broken && (old(self).inv() ==> bad_entry(e)),
            },
    {
        match &self.err {
            Some(e) => Err(e.duplicate()),
            None => Ok(()),
        }
    }
}

} // verus!
