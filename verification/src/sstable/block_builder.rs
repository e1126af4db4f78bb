//! Building a block from keys that come in increasing order.
use crate::error::Error;
use crate::sstable::block::{block_entries, regular, sorted};
use crate::sstable::block_proofs::{holds, lemma_built_block, lemma_built_block_sorted};
use crate::util::coding::{append_range, put_fixed_32, spec_fixed_32};
use crate::util::comparator::{common_prefix_len, lemma_common_prefix_is, Comparator, Order};
use crate::util::varint::{lemma_pow128_bounds, lemma_varint_len, spec_varint, VarintU32};
use vstd::arithmetic::div_mod::{lemma_fundamental_div_mod, lemma_fundamental_div_mod_converse};
use vstd::prelude::*;

verus! {

/// A key and its value.
pub type Pair = (Seq<u8>, Seq<u8>);

/// The number of entries from one restart point to the next: the interval asked for, and
/// one where none was asked for.
pub open spec fn effective_interval(interval: nat) -> nat {
    if interval == 0 {
        1
    } else {
        interval
    }
}

/// Entry `i` opens a restart: the entries at the multiples of the interval do.
#[verifier::opaque]
pub open spec fn opens_restart(i: int, interval: nat) -> bool {
    i % (effective_interval(interval) as int) == 0
}

/// The number of leading bytes that the stored form of entry `i` leaves out: none at a
/// restart, else all that its key has in common with the key before.
pub open spec fn shared_len(entries: Seq<Pair>, i: int, interval: nat) -> nat {
    if i <= 0 || opens_restart(i, interval) {
        0
    } else {
        common_prefix_len(entries[i - 1].0, entries[i].0) as nat
    }
}

/// The stored form of an entry that shares `shared` bytes with the key before it.
pub open spec fn encode_entry(shared: nat, key: Seq<u8>, value: Seq<u8>) -> Seq<u8> {
    spec_varint(shared) + spec_varint((key.len() - shared) as nat) + spec_varint(value.len())
        + key.skip(shared as int) + value
}

/// The stored form of the first `n` entries, one after the other.
pub open spec fn encode_entries(entries: Seq<Pair>, interval: nat, n: nat) -> Seq<u8>
    decreases n,
{
    if n == 0 {
        Seq::empty()
    } else {
        encode_entries(entries, interval, (n - 1) as nat) + encode_entry(
            shared_len(entries, n - 1, interval),
            entries[n - 1].0,
            entries[n - 1].1,
        )
    }
}

/// The restart offsets of the first `n` entries: zero, then where each later entry that
/// opens a restart starts.
pub open spec fn restart_offsets(entries: Seq<Pair>, interval: nat, n: nat) -> Seq<nat>
    decreases n,
{
    if n == 0 {
        seq![0nat]
    } else {
        let before = restart_offsets(entries, interval, (n - 1) as nat);
        if n - 1 > 0 && opens_restart(n - 1, interval) {
            before.push(encode_entries(entries, interval, (n - 1) as nat).len())
        } else {
            before
        }
    }
}

/// The numbers of `rs`, each as four little-endian bytes.
pub open spec fn encode_offsets(rs: Seq<nat>) -> Seq<u8>
    decreases rs.len(),
{
    if rs.len() == 0 {
        Seq::empty()
    } else {
        encode_offsets(rs.drop_last()) + spec_fixed_32(rs.last() as u32)
    }
}

/// The block that holds `entries`: their stored forms, the restart offsets, and the count
/// of restart offsets.
pub open spec fn encode_block(entries: Seq<Pair>, interval: nat) -> Seq<u8> {
    let rs = restart_offsets(entries, interval, entries.len());
    encode_entries(entries, interval, entries.len()) + encode_offsets(rs) + spec_fixed_32(
        rs.len() as u32,
    )
}

/// The size that the block of `entries` has.
pub open spec fn block_size(entries: Seq<Pair>, interval: nat) -> nat {
    encode_entries(entries, interval, entries.len()).len() + 4 * restart_offsets(
        entries,
        interval,
        entries.len(),
    ).len() + 4
}

/// The entries can be stored in a block: the lengths of their keys and values, and the size
/// of the block, fit in four bytes.
pub open spec fn encodable(entries: Seq<Pair>, interval: nat) -> bool {
    &&& block_size(entries, interval) <= MAX_BLOCK_SIZE
    &&& forall|i: int|
        0 <= i < entries.len() ==> (#[trigger] entries[i]).0.len() <= u32::MAX
            && entries[i].1.len() <= u32::MAX
}

/// The largest size a block may reach: restart offsets are stored in four bytes.
pub const MAX_BLOCK_SIZE: usize = 0xffff_ffff;

/// The most bytes that adding an entry adds to a block beyond its key and its value: three
/// lengths of five bytes each, and a restart offset.
pub const ENTRY_OVERHEAD: usize = 19;

/// An entry can be added to `entries` without the block growing past `MAX_BLOCK_SIZE`.
pub open spec fn has_room(entries: Seq<Pair>, interval: nat, key: Seq<u8>, value: Seq<u8>) -> bool {
    block_size(entries, interval) + key.len() + value.len() + ENTRY_OVERHEAD <= MAX_BLOCK_SIZE
}

/// The keys of `entries` are strictly increasing in the order `c`.
pub open spec fn increasing<C: Comparator>(entries: Seq<Pair>, c: C) -> bool {
    forall|i: int, j: int|
        0 <= i < j < entries.len() ==> !c.le(#[trigger] entries[j].0, #[trigger] entries[i].0)
}

/// The error of a key that does not come after the key before it.
pub open spec fn out_of_order(e: Error) -> bool {
    e matches Error::InvalidArgument(m) && m@ == "key is not greater than the last added key"@
}

/// The error of an addition to a finished builder.
pub open spec fn already_finished(e: Error) -> bool {
    e matches Error::InvalidArgument(m) && m@ == "the builder has been finished"@
}

/// The error of an entry that the block has no room for.
pub open spec fn no_room(e: Error) -> bool {
    e matches Error::InvalidArgument(m) && m@ == "the entry does not fit in a block"@
}

/// The counter of entries since the last restart, after `n` entries.
#[verifier::opaque]
pub open spec fn counter_after(n: nat, interval: nat) -> nat {
    if n == 0 {
        0
    } else {
        ((n - 1) % (effective_interval(interval) as int)) as nat + 1
    }
}

/// Counting on: after one more entry the counter is one higher, or one where that entry
/// opened a restart, which it does exactly when the counter had reached the interval.
pub proof fn lemma_counter_step(n: nat, interval: nat)
    ensures
        n > 0 ==> (opens_restart(n as int, interval) <==> counter_after(n, interval)
            >= effective_interval(interval)),
        counter_after(n, interval) <= effective_interval(interval),
        counter_after(n, interval) == 0 <==> n == 0,
        counter_after(n + 1, interval) == if n > 0 && opens_restart(n as int, interval) {
            1
        } else {
            counter_after(n, interval) + 1
        },
{
    reveal(opens_restart);
    reveal(counter_after);
    let k = effective_interval(interval) as int;
    if n == 0 {
        lemma_fundamental_div_mod_converse(0, k, 0, 0);
    } else {
        let m = n - 1;
        lemma_fundamental_div_mod(m, k);
        let q = m / k;
        let r = m % k;
        assert(0 <= r < k);
        if r == k - 1 {
            assert(n == (q + 1) * k + 0) by (nonlinear_arith)
                requires
                    n - 1 == k * q + r,
                    r == k - 1,
            ;
            lemma_fundamental_div_mod_converse(n as int, k, q + 1, 0);
        } else {
            assert(n == q * k + (r + 1)) by (nonlinear_arith)
                requires
                    n - 1 == k * q + r,
            ;
            lemma_fundamental_div_mod_converse(n as int, k, q, r + 1);
        }
    }
}

/// Collects entries, whose keys must come in strictly increasing order, into a block.
pub struct BlockBuilder<C: Comparator> {
    comparator: C,
    restart_interval: usize,
    buffer: Vec<u8>,
    restarts: Vec<u32>,
    // entries since the last restart
    counter: usize,
    finished: bool,
    last_key: Vec<u8>,
    entries: Ghost<Seq<Pair>>,
}

impl<C: Comparator> BlockBuilder<C> {
    /// The entries added so far.
    pub closed spec fn entries(&self) -> Seq<Pair> {
        self.entries@
    }

    /// The restart interval the builder was made with.
    pub closed spec fn interval(&self) -> nat {
        self.restart_interval as nat
    }

    /// The order of the keys.
    pub closed spec fn comparator(&self) -> C {
        self.comparator
    }

    /// Whether `finish` has been called since the builder was made or reset.
    pub closed spec fn finished(&self) -> bool {
        self.finished
    }

    /// The bytes collected so far.
    pub closed spec fn buffer(&self) -> Seq<u8> {
        self.buffer@
    }

    /// The fields agree with the entries added.
    pub closed spec fn wf(&self) -> bool {
        let n = self.entries@.len();
        let interval = self.restart_interval as nat;
        &&& self.buffer@ == if self.finished {
            encode_block(self.entries@, interval)
        } else {
            encode_entries(self.entries@, interval, n)
        }
        &&& self.restarts@.len() == restart_offsets(self.entries@, interval, n).len()
        &&& forall|j: int|
            0 <= j < self.restarts@.len() ==> #[trigger] self.restarts@[j] as nat
                == restart_offsets(self.entries@, interval, n)[j]
        &&& self.last_key@ == if n > 0 {
            self.entries@[n - 1].0
        } else {
            Seq::empty()
        }
        &&& self.counter == counter_after(n, interval)
        &&& encodable(self.entries@, interval)
        &&& increasing(self.entries@, self.comparator)
    }

    /// A builder without entries. A restart interval of zero counts as one.
    pub fn new(restart_interval: usize, comparator: C) -> (b: Self)
        ensures
            b.wf(),
            b.entries() == Seq::<Pair>::empty(),
            b.interval() == restart_interval,
            b.comparator() == comparator,
            !b.finished(),
    {
        let mut restarts: Vec<u32> = Vec::new();
        restarts.push(0);
        proof {
            lemma_counter_step(0, restart_interval as nat);
        }
        BlockBuilder {
            comparator,
            restart_interval,
            buffer: Vec::new(),
            restarts,
            counter: 0,
            finished: false,
            last_key: Vec::new(),
            entries: Ghost(Seq::empty()),
        }
    }

    /// Forgets all entries, as if the builder had just been made.
    pub fn reset(&mut self)
        ensures
            final(self).wf(),
            final(self).entries() == Seq::<Pair>::empty(),
            final(self).interval() == old(self).interval(),
            final(self).comparator() == old(self).comparator(),
            !final(self).finished(),
    {
        self.buffer.clear();
        self.restarts.clear();
        self.restarts.push(0);
        proof {
            lemma_counter_step(0, self.restart_interval as nat);
        }
        self.counter = 0;
        self.finished = false;
        self.last_key.clear();
        self.entries = Ghost(Seq::empty());
    }

    /// Whether no entry has been added.
    pub fn is_empty(&self) -> (b: bool)
        requires
            self.wf(),
        ensures
            b == (self.entries().len() == 0),
    {
        proof {
            lemma_counter_step(self.entries@.len(), self.restart_interval as nat);
        }
        // the first entry takes the counter from zero to one, and it never returns to zero
        self.counter == 0
    }

    /// The number of bytes collected, plus four for each restart point, plus four: until the
    /// builder is finished, the size that the block would have if it were finished now. The
    /// sum is cut at the largest `usize`.
    pub fn current_size_estimate(&self) -> (n: usize)
        requires
            self.wf(),
        ensures
            n == spec_size_estimate(self.buffer(), self.entries(), self.interval()),
            !self.finished() ==> n == block_size(self.entries(), self.interval()),
    {
        proof {
            lemma_block_len(self.entries@, self.restart_interval as nat);
        }
        let extra: u64 = 4 * (self.restarts.len() as u64) + 4;
        let total: u64 = self.buffer.len() as u64 + extra;
        if total > usize::MAX as u64 {
            usize::MAX
        } else {
            total as usize
        }
    }

    /// Makes ready for the entry of `key`: opens a restart where one is due, and returns
    /// the number of leading bytes that the stored form of the entry leaves out.
    fn open_entry(&mut self, key: &[u8]) -> (shared: usize)
        requires
            old(self).wf(),
            !old(self).finished,
            old(self).buffer@.len() + 4 * old(self).restarts@.len() + 8 <= MAX_BLOCK_SIZE,
        ensures
            shared == shared_len(
                old(self).entries@.push((key@, arbitrary())),
                old(self).entries@.len() as int,
                old(self).restart_interval as nat,
            ),
            shared <= key@.len(),
            final(self).counter + 1 == counter_after(
                old(self).entries@.len() + 1,
                old(self).restart_interval as nat,
            ),
            final(self).restarts@.len() == restart_offsets(
                old(self).entries@.push((key@, arbitrary())),
                old(self).restart_interval as nat,
                old(self).entries@.len() + 1,
            ).len(),
            forall|j: int|
                0 <= j < final(self).restarts@.len() ==> #[trigger] final(self).restarts@[j] as nat
                    == restart_offsets(
                    old(self).entries@.push((key@, arbitrary())),
                    old(self).restart_interval as nat,
                    old(self).entries@.len() + 1,
                )[j],
            final(self).buffer == old(self).buffer,
            final(self).entries == old(self).entries,
            final(self).last_key == old(self).last_key,
            final(self).comparator == old(self).comparator,
            final(self).restart_interval == old(self).restart_interval,
            final(self).finished == old(self).finished,
    {
        let ghost entries = self.entries@;
        let ghost interval = self.restart_interval as nat;
        let ghost n = entries.len();
        let ghost grown = entries.push((key@, arbitrary()));
        let limit: usize = if self.restart_interval == 0 {
            1
        } else {
            self.restart_interval
        };
        proof {
            lemma_counter_step(n, interval);
            lemma_encode_prefix(entries, grown, interval, n);
            if n > 0 {
                assert(grown[n - 1] == entries[n - 1]);
            }
        }
        let mut shared: usize = 0;
        if self.counter >= limit {
            // a restart: the key is stored in full
            self.restarts.push(self.buffer.len() as u32);
            self.counter = 0;
        } else {
            while shared < self.last_key.len() && shared < key.len() && self.last_key[shared]
                == key[shared]
                invariant
                    shared <= self.last_key@.len(),
                    shared <= key@.len(),
                    forall|k: int| 0 <= k < shared ==> self.last_key@[k] == key@[k],
                decreases key@.len() - shared,
            {
                shared = shared + 1;
            }
            proof {
                lemma_common_prefix_is(self.last_key@, key@, shared as int);
            }
        }
        proof {
            let rs = restart_offsets(grown, interval, n + 1);
            assert forall|j: int| 0 <= j < self.restarts@.len() implies #[trigger] self.restarts@[j] as nat
                == rs[j] by {
                if j < old(self).restarts@.len() {
                    assert(self.restarts@[j] == old(self).restarts@[j]);
                }
            }
        }
        shared
    }

    /// Adds an entry.
    ///
    /// Fails, and leaves the builder as it was, with `InvalidArgument` exactly when the
    /// builder is finished, or `key` does not come strictly after the last key added, or the
    /// block has no room for the entry. Else the entry is the last of the entries.
    pub fn add(&mut self, key: &[u8], value: &[u8]) -> (r: Result<(), Error>)
        requires
            old(self).wf(),
        ensures
            final(self).wf(),
            final(self).interval() == old(self).interval(),
            final(self).comparator() == old(self).comparator(),
            final(self).finished() == old(self).finished(),
            match r {
                Ok(_) => {
                    &&& add_fault(
                        old(self).entries(),
                        old(self).interval(),
                        old(self).comparator(),
                        old(self).finished(),
                        key@,
                        value@,
                    ) is None
                    &&& final(self).entries() == old(self).entries().push((key@, value@))
                },
                Err(e) => {
                    &&& final(self).entries() == old(self).entries()
                    &&& match add_fault(
                        old(self).entries(),
                        old(self).interval(),
                        old(self).comparator(),
                        old(self).finished(),
                        key@,
                        value@,
                    ) {
                        Some(AddFault::Finished) => already_finished(e),
                        Some(AddFault::OutOfOrder) => out_of_order(e),
                        Some(AddFault::NoRoom) => no_room(e),
                        None => false,
                    }
                },
            },
    {
        if self.finished {
            return Err(Error::invalid_argument("the builder has been finished"));
        }
        proof {
            lemma_counter_step(self.entries@.len(), self.restart_interval as nat);
        }
        if self.counter > 0 {
            match self.comparator.compare(self.last_key.as_slice(), key) {
                Order::Less => {},
                _ => {
                    return Err(
                        Error::invalid_argument("key is not greater than the last added key"),
                    );
                },
            }
        }
        let ghost entries = self.entries@;
        let ghost interval = self.restart_interval as nat;
        let estimate: usize = self.buffer.len() + 4 * self.restarts.len() + 4;
        let room: usize = MAX_BLOCK_SIZE - estimate;
        if key.len() > room || value.len() > room - key.len() || room - key.len() - value.len()
            < ENTRY_OVERHEAD {
            return Err(Error::invalid_argument("the entry does not fit in a block"));
        }
        let shared: usize = self.open_entry(key);
        let ghost before = self.buffer@;
        write_entry(&mut self.buffer, shared, key, value);
        self.last_key.clear();
        append_range(&mut self.last_key, key, 0, key.len());
        self.counter = self.counter + 1;
        self.entries = Ghost(entries.push((key@, value@)));
        proof {
            assert(self.last_key@ =~= key@);
            lemma_increasing_push(entries, self.comparator, key@, value@);
            lemma_block_grows(entries, interval, key@, value@);
        }
        Ok(())
    }

    /// Ends the block: appends the restart offsets and their count, and returns the bytes
    /// of the block. A builder that is finished already returns the same bytes again.
    ///
    /// The block is regular, and read back it holds the entries added, in their order.
    pub fn finish(&mut self) -> (block: &[u8])
        requires
            old(self).wf(),
        ensures
            final(self).wf(),
            final(self).finished(),
            final(self).entries() == old(self).entries(),
            final(self).interval() == old(self).interval(),
            final(self).comparator() == old(self).comparator(),
            block@ == encode_block(old(self).entries(), old(self).interval()),
            block@ == final(self).buffer(),
            regular(block@),
            holds(block@, old(self).entries()),
            sorted(block_entries(block@), old(self).comparator()),
    {
        proof {
            lemma_built_block(self.entries@, self.restart_interval as nat);
            lemma_built_block_sorted(
                self.entries@,
                self.restart_interval as nat,
                self.comparator,
            );
        }
        if !self.finished {
            let ghost body = self.buffer@;
            let ghost rs = restart_offsets(
                self.entries@,
                self.restart_interval as nat,
                self.entries@.len(),
            );
            let mut i: usize = 0;
            while i < self.restarts.len()
                invariant
                    i <= self.restarts@.len(),
                    self.restarts@.len() == rs.len(),
                    forall|j: int|
                        0 <= j < self.restarts@.len() ==> #[trigger] self.restarts@[j] as nat
                            == rs[j],
                    self.buffer@ == body + encode_offsets(rs.take(i as int)),
                    self.restarts == old(self).restarts,
                    self.entries == old(self).entries,
                    self.restart_interval == old(self).restart_interval,
                    self.comparator == old(self).comparator,
                    self.last_key == old(self).last_key,
                    self.counter == old(self).counter,
                    self.finished == old(self).finished,
                decreases self.restarts@.len() - i,
            {
                let ghost so_far = self.buffer@;
                put_fixed_32(&mut self.buffer, self.restarts[i]);
                proof {
                    let grown = rs.take(i + 1);
                    assert(grown.drop_last() =~= rs.take(i as int));
                    assert(grown.last() == rs[i as int]);
                    assert(rs[i as int] as u32 == self.restarts@[i as int]);
                    assert(self.buffer@ =~= body + encode_offsets(grown));
                }
                i = i + 1;
            }
            proof {
                assert(rs.take(i as int) =~= rs);
            }
            let count: usize = self.restarts.len();
            proof {
                assert(4 * count + 4 <= MAX_BLOCK_SIZE);
            }
            put_fixed_32(&mut self.buffer, count as u32);
            self.finished = true;
            proof {
                assert(self.buffer@ =~= encode_block(self.entries@, self.restart_interval as nat));
            }
        }
        self.buffer.as_slice()
    }
}

/// What `current_size_estimate` answers for a builder that has collected `buffer` from
/// `entries`.
pub open spec fn spec_size_estimate(buffer: Seq<u8>, entries: Seq<Pair>, interval: nat) -> nat {
    let sum = buffer.len() + 4 * restart_offsets(entries, interval, entries.len()).len() + 4;
    if sum > usize::MAX {
        usize::MAX as nat
    } else {
        sum
    }
}

/// Appends the stored form of an entry that shares `shared` bytes with the key before it.
fn write_entry(buffer: &mut Vec<u8>, shared: usize, key: &[u8], value: &[u8])
    requires
        shared <= key@.len(),
        key@.len() <= u32::MAX,
        value@.len() <= u32::MAX,
    ensures
        final(buffer)@ == old(buffer)@ + encode_entry(shared as nat, key@, value@),
{
    let ghost before = buffer@;
    VarintU32::put_varint(buffer, shared as u32);
    VarintU32::put_varint(buffer, (key.len() - shared) as u32);
    VarintU32::put_varint(buffer, value.len() as u32);
    append_range(buffer, key, shared, key.len());
    append_range(buffer, value, 0, value.len());
    proof {
        assert(key@.subrange(shared as int, key@.len() as int) =~= key@.skip(shared as int));
        assert(value@.subrange(0, value@.len() as int) =~= value@);
        assert(buffer@ =~= before + encode_entry(shared as nat, key@, value@));
    }
}

/// What one more entry adds to a block: its stored form after the stored forms before, a
/// restart offset where it opens a restart, and no more bytes than its key, its value and
/// the overhead of an entry.
pub proof fn lemma_block_grows(entries: Seq<Pair>, interval: nat, key: Seq<u8>, value: Seq<u8>)
    requires
        encodable(entries, interval),
        has_room(entries, interval, key, value),
    ensures
        ({
            let n = entries.len();
            let grown = entries.push((key, value));
            let shared = shared_len(grown, n as int, interval);
            &&& shared == shared_len(entries.push((key, arbitrary())), n as int, interval)
            &&& shared <= key.len()
            &&& encode_entries(grown, interval, n + 1) == encode_entries(entries, interval, n)
                + encode_entry(shared, key, value)
            &&& restart_offsets(grown, interval, n + 1) == restart_offsets(
                entries.push((key, arbitrary())),
                interval,
                n + 1,
            )
            &&& encodable(grown, interval)
        }),
{
    let n = entries.len();
    let grown = entries.push((key, value));
    let other = entries.push((key, arbitrary()));
    let shared = shared_len(grown, n as int, interval);
    lemma_encode_prefix(entries, grown, interval, n);
    lemma_encode_prefix(entries, other, interval, n);
    assert(grown[n as int] == (key, value));
    assert(other[n as int].0 == key);
    if n > 0 {
        assert(grown[n - 1] == entries[n - 1]);
        assert(other[n - 1] == entries[n - 1]);
        crate::util::comparator::lemma_common_prefix_bounds(entries[n - 1].0, key);
    }
    lemma_pow128_bounds();
    lemma_varint_len(shared, 5);
    lemma_varint_len((key.len() - shared) as nat, 5);
    lemma_varint_len(value.len(), 5);
    assert forall|i: int| 0 <= i < grown.len() implies (#[trigger] grown[i]).0.len() <= u32::MAX
        && grown[i].1.len() <= u32::MAX by {
        if i < n {
            assert(grown[i] == entries[i]);
        }
    }
}

/// Why an entry cannot be added.
pub enum AddFault {
    Finished,
    OutOfOrder,
    NoRoom,
}

/// Why `(key, value)` cannot be added after `entries`, if it cannot: the first of these
/// that holds. The builder is finished; the key does not come strictly after the last key;
/// the block has no room.
pub open spec fn add_fault<C: Comparator>(
    entries: Seq<Pair>,
    interval: nat,
    c: C,
    finished: bool,
    key: Seq<u8>,
    value: Seq<u8>,
) -> Option<AddFault> {
    if finished {
        Some(AddFault::Finished)
    } else if entries.len() > 0 && c.le(key, entries.last().0) {
        Some(AddFault::OutOfOrder)
    } else if !has_room(entries, interval, key, value) {
        Some(AddFault::NoRoom)
    } else {
        None
    }
}

/// The error that stands for the reason why an entry cannot be added.
pub open spec fn add_refused(e: Error, fault: AddFault) -> bool {
    match fault {
        AddFault::Finished => already_finished(e),
        AddFault::OutOfOrder => out_of_order(e),
        AddFault::NoRoom => no_room(e),
    }
}

/// Keys stay strictly increasing when a key is added that comes strictly after the last.
pub proof fn lemma_increasing_push<C: Comparator>(
    entries: Seq<Pair>,
    c: C,
    key: Seq<u8>,
    value: Seq<u8>,
)
    requires
        increasing(entries, c),
        entries.len() > 0 ==> !c.le(key, entries.last().0),
    ensures
        increasing(entries.push((key, value)), c),
{
    let n = entries.len() as int;
    let grown = entries.push((key, value));
    assert forall|i: int, j: int| 0 <= i < j < grown.len() implies !c.le(
        #[trigger] grown[j].0,
        #[trigger] grown[i].0,
    ) by {
        if j == n {
            if i < n - 1 {
                assert(!c.le(entries[n - 1].0, entries[i].0));
                if c.le(key, entries[i].0) {
                    c.lemma_total(entries[n - 1].0, key);
                    c.lemma_transitive(entries[n - 1].0, key, entries[i].0);
                }
            }
        } else {
            assert(grown[i] == entries[i] && grown[j] == entries[j]);
        }
    }
}

/// The stored form of the first `n` entries depends on those entries only.
pub proof fn lemma_encode_prefix(a: Seq<Pair>, b: Seq<Pair>, interval: nat, n: nat)
    requires
        n <= a.len(),
        n <= b.len(),
        forall|i: int| 0 <= i < n ==> a[i] == b[i],
    ensures
        encode_entries(a, interval, n) == encode_entries(b, interval, n),
        restart_offsets(a, interval, n) == restart_offsets(b, interval, n),
    decreases n,
{
    if n > 0 {
        lemma_encode_prefix(a, b, interval, (n - 1) as nat);
    }
}

/// The numbers of `rs` take four bytes each.
pub proof fn lemma_offsets_len(rs: Seq<nat>)
    ensures
        encode_offsets(rs).len() == 4 * rs.len(),
    decreases rs.len(),
{
    if rs.len() > 0 {
        lemma_offsets_len(rs.drop_last());
    }
}

/// A block is as long as `block_size` says.
pub proof fn lemma_block_len(entries: Seq<Pair>, interval: nat)
    ensures
        encode_block(entries, interval).len() == block_size(entries, interval),
{
    lemma_offsets_len(restart_offsets(entries, interval, entries.len()));
}

} // verus!
