//! The filter block of a table: one filter for every range of 2 KiB of file offsets, holding
//! the keys of the data blocks that start in that range.
//!
//! Layout: the filters one after the other; the offset of each filter, four bytes each; the
//! offset of that array, four bytes; and one byte, the binary logarithm of the range size.
use crate::filter::FilterPolicy;
use crate::sstable::block_builder::{encode_offsets, lemma_offsets_len};
use crate::sstable::block_proofs::lemma_offsets_decode;
use crate::util::coding::{
    append_range, decode_fixed_32_at, lemma_fixed_32_roundtrip, put_fixed_32, spec_decode_fixed_32,
    spec_fixed_32,
};
use vstd::prelude::*;
use vstd::slice::slice_subrange;

verus! {

/// The binary logarithm of the size of the range of file offsets that one filter covers.
pub const FILTER_BASE_LG: u8 = 11;

/// The size of the range of file offsets that one filter covers.
pub const FILTER_BASE: u64 = 2048;

/// The bytes that end a filter block: the offset of the offset array and the base.
pub const FILTER_META_LENGTH: usize = 5;

/// The largest size the filters of a block may have together: offsets are stored in four
/// bytes.
pub const MAX_FILTER_DATA: usize = 0xffff_ffff;

/// Where the offset array of a filter block starts; `None` where the block is too short or
/// says that the array starts beyond where it can.
pub open spec fn filter_array_start(data: Seq<u8>) -> Option<nat> {
    if data.len() < FILTER_META_LENGTH {
        None
    } else {
        let start = spec_decode_fixed_32(data, data.len() - 5);
        if start > data.len() - 5 {
            None
        } else {
            Some(start)
        }
    }
}

/// The number of filters of a filter block.
pub open spec fn filter_count(data: Seq<u8>) -> nat {
    match filter_array_start(data) {
        Some(start) => ((data.len() - 5 - start) / 4) as nat,
        None => 0,
    }
}

/// The index of the filter for the block at `block_offset`, with ranges of 2 to the
/// `base_lg` bytes.
pub open spec fn filter_index(block_offset: u64, base_lg: u8) -> nat {
    if base_lg >= 64 {
        0
    } else {
        (block_offset >> (base_lg as u64)) as nat
    }
}

/// The bytes of the filter with index `i`, for `i` below the number of filters; `None`
/// where the two offsets that bound it are not in order or reach into the offset array.
pub open spec fn filter_bytes(data: Seq<u8>, i: nat) -> Option<Seq<u8>> {
    let array = filter_array_start(data)->Some_0;
    let start = spec_decode_fixed_32(data, (array + 4 * i) as int);
    let limit = spec_decode_fixed_32(data, (array + 4 * i + 4) as int);
    if start <= limit <= array {
        Some(data.subrange(start as int, limit as int))
    } else {
        None
    }
}

/// What a reader of the filter block `data` answers for a key of the block at
/// `block_offset`: what the policy says of the filter of that offset's range, and `true`
/// wherever there is no such filter, it is empty, or it cannot be found.
pub open spec fn spec_key_may_match<P: FilterPolicy>(
    policy: P,
    data: Seq<u8>,
    block_offset: u64,
    key: Seq<u8>,
) -> bool {
    let i = filter_index(block_offset, data.last());
    if i < filter_count(data) {
        match filter_bytes(data, i) {
            Some(filter) => filter.len() == 0 || policy.may_match(filter, key),
            None => true,
        }
    } else {
        true
    }
}

/// Reads a filter block.
pub struct FilterBlockReader<P: FilterPolicy> {
    policy: P,
    data: Vec<u8>,
    // where the offset array starts
    offset: usize,
    // number of filters
    num: usize,
    base_lg: u8,
}

impl<P: FilterPolicy> FilterBlockReader<P> {
    /// The bytes of the filter block.
    pub closed spec fn data(&self) -> Seq<u8> {
        self.data@
    }

    /// The policy that reads the filters.
    pub closed spec fn policy(&self) -> P {
        self.policy
    }

    /// The fields agree with the bytes.
    pub closed spec fn wf(&self) -> bool {
        &&& self.num == filter_count(self.data@)
        &&& self.num > 0 ==> filter_array_start(self.data@) == Some(self.offset as nat)
        &&& self.data@.len() > 0 ==> self.base_lg == self.data@.last()
    }

    /// Takes the bytes of a filter block. Bytes that are no filter block make a reader
    /// without filters, which lets every key pass.
    pub fn new(policy: P, data: Vec<u8>) -> (r: Self)
        ensures
            r.wf(),
            r.data() == data@,
            r.policy() == policy,
    {
        let n: usize = data.len();
        if n == 0 {
            return FilterBlockReader { policy, data, offset: 0, num: 0, base_lg: 0 };
        }
        let base_lg: u8 = data[n - 1];
        if n < FILTER_META_LENGTH {
            return FilterBlockReader { policy, data, offset: 0, num: 0, base_lg };
        }
        let last_word: usize = decode_fixed_32_at(data.as_slice(), n - 5) as usize;
        if last_word > n - 5 {
            return FilterBlockReader { policy, data, offset: 0, num: 0, base_lg };
        }
        let num: usize = (n - 5 - last_word) / 4;
        FilterBlockReader { policy, data, offset: last_word, num, base_lg }
    }

    /// Whether the block at `block_offset` may hold `key`: `false` only if the filter for
    /// that offset says so.
    pub fn key_may_match(&self, block_offset: u64, key: &[u8]) -> (b: bool)
        requires
            self.wf(),
        ensures
            b == spec_key_may_match(self.policy(), self.data(), block_offset, key@),
    {
        let index: u64 = if self.base_lg >= 64 {
            0
        } else {
            block_offset >> (self.base_lg as u64)
        };
        if index >= self.num as u64 {
            return true;
        }
        let i: usize = index as usize;
        let n: usize = self.data.len();
        let start: usize = decode_fixed_32_at(self.data.as_slice(), self.offset + 4 * i) as usize;
        let limit: usize = decode_fixed_32_at(self.data.as_slice(), self.offset + 4 * i + 4) as usize;
        if start <= limit && limit <= self.offset {
            if start == limit {
                return true;
            }
            let filter = slice_subrange(self.data.as_slice(), start, limit);
            self.policy.may_contain(filter, key)
        } else {
            true
        }
    }
}

/// A key with the offset of the data block it was added for.
pub type KeyAt = (u64, Seq<u8>);

/// The keys of `added` that were added for blocks whose offset lies in range `i`, in the
/// order in which they were added.
pub open spec fn range_keys(added: Seq<KeyAt>, i: nat) -> Seq<Seq<u8>>
    decreases added.len(),
{
    if added.len() == 0 {
        Seq::empty()
    } else {
        let before = range_keys(added.drop_last(), i);
        if added.last().0 / FILTER_BASE == i {
            before.push(added.last().1)
        } else {
            before
        }
    }
}

/// The bytes of each of the keys `ks`.
pub open spec fn key_views(ks: Seq<Vec<u8>>) -> Seq<Seq<u8>> {
    Seq::new(ks.len(), |j: int| ks[j]@)
}

/// The bytes `bytes` are the filter of a range with the keys `keys`, put where `start`
/// bytes of filters are: none for a range without keys; and else what a call of the policy
/// to make a filter from the keys returned, or none where the filters would grow beyond
/// what offsets of four bytes can say.
pub open spec fn filter_made<P: FilterPolicy>(
    policy: P,
    keys: Seq<Seq<u8>>,
    start: nat,
    bytes: Seq<u8>,
) -> bool {
    if keys.len() == 0 {
        bytes.len() == 0
    } else {
        exists|ks: &Vec<Vec<u8>>, f: Vec<u8>|
            key_views(ks@) == keys && #[trigger] call_ensures(P::create_filter, (&policy, ks), f)
                && bytes == if f@.len() <= MAX_FILTER_DATA - start {
                f@
            } else {
                Seq::<u8>::empty()
            }
    }
}

/// Where filter `i` ends in `filters`: where the next one starts, or where `filters` end.
pub open spec fn filter_limit(filters: Seq<u8>, offsets: Seq<nat>, i: int) -> nat {
    if i + 1 < offsets.len() {
        offsets[i + 1]
    } else {
        filters.len()
    }
}

/// The bytes of filter `i` in `filters`, which start at the offsets `offsets`.
pub open spec fn filter_at(filters: Seq<u8>, offsets: Seq<nat>, i: int) -> Seq<u8> {
    filters.subrange(offsets[i] as int, filter_limit(filters, offsets, i) as int)
}

/// The filters lie one after the other from the start of `filters`: the first offset is
/// zero, no filter ends before it starts or after `filters` end, and without offsets
/// there are no filters.
pub open spec fn laid_out(filters: Seq<u8>, offsets: Seq<nat>) -> bool {
    &&& filters.len() <= MAX_FILTER_DATA
    &&& offsets.len() == 0 ==> filters.len() == 0
    &&& offsets.len() > 0 ==> offsets[0] == 0
    &&& forall|i: int|
        0 <= i < offsets.len() ==> (#[trigger] offsets[i]) <= filter_limit(filters, offsets, i)
            <= filters.len()
}

/// The filter block of `filters` with the offsets `offsets`: the filters, the offset of
/// each in four bytes, the offset of that array in four bytes, and the binary logarithm of
/// the range size.
pub open spec fn spec_filter_block(filters: Seq<u8>, offsets: Seq<nat>) -> Seq<u8> {
    filters + encode_offsets(offsets) + spec_fixed_32(filters.len() as u32) + seq![
        FILTER_BASE_LG,
    ]
}

/// The bytes `block` are a filter block that `policy` makes of the keys `added`, the
/// last of them added for the block at `last`: the filters with their offsets, a filter for
/// every range before the range of `last` and one for that range if it has keys, each the
/// filter that the policy made from the keys of its range.
pub open spec fn filter_block_of<P: FilterPolicy>(
    policy: P,
    added: Seq<KeyAt>,
    last: u64,
    block: Seq<u8>,
) -> bool {
    exists|filters: Seq<u8>, offsets: Seq<nat>| #[trigger]
        filters_of(policy, added, last, filters, offsets) && block == spec_filter_block(
            filters,
            offsets,
        )
}

/// The bytes `filters` are the filters that `policy` makes of the keys `added`, the last
/// of them added for the block at `last`, and they start at `offsets`.
pub open spec fn filters_of<P: FilterPolicy>(
    policy: P,
    added: Seq<KeyAt>,
    last: u64,
    filters: Seq<u8>,
    offsets: Seq<nat>,
) -> bool {
    &&& laid_out(filters, offsets)
    &&& offsets.len() == last / FILTER_BASE + if range_keys(
        added,
        (last / FILTER_BASE) as nat,
    ).len() > 0 {
        1nat
    } else {
        0nat
    }
    &&& forall|i: int|
        0 <= i < offsets.len() ==> #[trigger] filter_made(
            policy,
            range_keys(added, i as nat),
            offsets[i],
            filter_at(filters, offsets, i),
        )
}

/// A range that is later than the ranges of all keys added has no keys.
pub proof fn lemma_no_keys(added: Seq<KeyAt>, i: nat)
    requires
        forall|k: int| 0 <= k < added.len() ==> (#[trigger] added[k]).0 / FILTER_BASE != i,
    ensures
        range_keys(added, i) == Seq::<Seq<u8>>::empty(),
    decreases added.len(),
{
    if added.len() > 0 {
        assert(added[added.len() - 1].0 / FILTER_BASE != i);
        assert forall|k: int| 0 <= k < added.drop_last().len() implies (
        #[trigger] added.drop_last()[k]).0 / FILTER_BASE != i by {
            assert(added.drop_last()[k] == added[k]);
        }
        lemma_no_keys(added.drop_last(), i);
    }
}

/// Collects the keys of the data blocks of a table and makes the filter block.
///
/// `start_block` says at which file offset the block starts whose keys come next; before
/// the first call that offset is zero.
pub struct FilterBlockBuilder<P: FilterPolicy> {
    policy: P,
    // keys of the range that has no filter yet
    keys: Vec<Vec<u8>>,
    // the filters made so far, one after the other
    data: Vec<u8>,
    // where each of them starts
    filter_offsets: Vec<u32>,
    finished: bool,
    added: Ghost<Seq<KeyAt>>,
    current: Ghost<u64>,
    // the bytes of the filters made, without what `finish` puts behind them
    filters: Ghost<Seq<u8>>,
}

impl<P: FilterPolicy> FilterBlockBuilder<P> {
    /// The policy that makes the filters.
    pub closed spec fn policy(&self) -> P {
        self.policy
    }

    /// The keys added so far, each with the offset of its block.
    pub closed spec fn added(&self) -> Seq<KeyAt> {
        self.added@
    }

    /// The offset of the block whose keys are being added.
    pub closed spec fn current_offset(&self) -> u64 {
        self.current@
    }

    /// Whether `finish` has been called.
    pub closed spec fn finished(&self) -> bool {
        self.finished
    }

    /// The bytes of the filters made so far, one after the other.
    pub closed spec fn filters(&self) -> Seq<u8> {
        self.filters@
    }

    /// Where each of the filters made so far starts.
    pub closed spec fn offsets(&self) -> Seq<nat> {
        Seq::new(self.filter_offsets@.len(), |i: int| self.filter_offsets@[i] as nat)
    }

    /// The filters made are those of the ranges before the range that waits for its
    /// filter, each made from the keys added for its range, and the keys that wait are those
    /// added for the range that waits.
    #[verifier::opaque]
    closed spec fn made_right(&self) -> bool {
        let offsets = self.offsets();
        &&& !self.finished ==> self.filters@ == self.data@
        &&& !self.finished ==> key_views(self.keys@) == range_keys(self.added@, offsets.len())
        &&& !self.finished ==> forall|k: int|
            0 <= k < self.added@.len() ==> (#[trigger] self.added@[k]).0 / FILTER_BASE
                <= offsets.len()
        &&& laid_out(self.filters@, offsets)
        &&& forall|i: int|
            0 <= i < offsets.len() ==> #[trigger] filter_made(
                self.policy,
                range_keys(self.added@, i as nat),
                offsets[i],
                filter_at(self.filters@, offsets, i),
            )
    }

    /// Where filter `i` ends.
    closed spec fn filter_end(&self, i: int) -> int {
        if i + 1 < self.filter_offsets@.len() {
            self.filter_offsets@[i + 1] as int
        } else {
            self.data@.len() as int
        }
    }

    /// The filters made lie one after the other, and every key added either has its filter,
    /// which lets it pass, or waits for it.
    pub closed spec fn wf(&self) -> bool {
        &&& self.data@.len() <= MAX_FILTER_DATA
        &&& forall|i: int|
            0 <= i < self.filter_offsets@.len() ==> (#[trigger] self.filter_offsets@[i])
                <= self.filter_end(i) <= self.data@.len()
        &&& !self.finished ==> self.current@ / FILTER_BASE == self.filter_offsets@.len()
        &&& forall|k: int|
            0 <= k < self.added@.len() ==> self.covers(#[trigger] self.added@[k])
        &&& self.made_right()
    }

    /// The key has its filter, which lets it pass, or it waits for its filter.
    closed spec fn covers(&self, k: KeyAt) -> bool {
        let i = (k.0 / FILTER_BASE) as int;
        if i < self.filter_offsets@.len() {
            let start = self.filter_offsets@[i] as int;
            let end = self.filter_end(i);
            start == end || self.policy.may_match(self.data@.subrange(start, end), k.1)
        } else {
            !self.finished && i == self.filter_offsets@.len() && exists|j: int|
                0 <= j < self.keys@.len() && #[trigger] self.keys@[j]@ == k.1
        }
    }

    /// What was made stays made right when a key is added for the range that waits.
    proof fn lemma_add_key_right(&self, after: &Self, key: Seq<u8>)
        requires
            self.made_right(),
            !self.finished,
            self.current@ / FILTER_BASE == self.filter_offsets@.len(),
            after.policy == self.policy,
            after.filter_offsets == self.filter_offsets,
            after.data == self.data,
            after.filters == self.filters,
            after.finished == self.finished,
            after.added@ == self.added@.push((self.current@, key)),
            key_views(after.keys@) == key_views(self.keys@).push(key),
        ensures
            after.made_right(),
    {
        reveal(FilterBlockBuilder::made_right);
        let offsets = self.offsets();
        let grown = after.added@;
        assert(after.offsets() == offsets);
        assert(grown.drop_last() =~= self.added@);
        assert(grown.last() == (self.current@, key));
        assert forall|i: int| 0 <= i < offsets.len() implies #[trigger] filter_made(
            after.policy,
            range_keys(grown, i as nat),
            offsets[i],
            filter_at(after.filters@, offsets, i),
        ) by {
            assert(range_keys(grown, i as nat) == range_keys(self.added@, i as nat));
            assert(filter_made(
                self.policy,
                range_keys(self.added@, i as nat),
                offsets[i],
                filter_at(self.filters@, offsets, i),
            ));
        }
        assert forall|k: int| 0 <= k < grown.len() implies (#[trigger] grown[k]).0 / FILTER_BASE
            <= offsets.len() by {
            if k < self.added@.len() {
                assert(grown[k] == self.added@[k]);
            }
        }
    }

    /// What was made stays made right when the filter of the range that waits is made
    /// from the keys that wait, and the next range waits without keys.
    proof fn lemma_generate_right(&self, after: &Self, made: Seq<u8>)
        requires
            self.made_right(),
            !self.finished,
            !after.finished,
            after.policy == self.policy,
            after.added == self.added,
            after.filter_offsets@ == self.filter_offsets@.push(self.data@.len() as u32),
            after.data@ == self.data@ + made,
            after.filters@ == after.data@,
            after.data@.len() <= MAX_FILTER_DATA,
            after.keys@.len() == 0,
            filter_made(self.policy, key_views(self.keys@), self.data@.len(), made),
        ensures
            after.made_right(),
    {
        reveal(FilterBlockBuilder::made_right);
        let old_offsets = self.offsets();
        let offsets = after.offsets();
        let n = old_offsets.len() as int;
        let start = self.data@.len();
        assert(offsets =~= old_offsets.push(start));
        assert(filter_limit(after.filters@, offsets, n) == after.filters@.len());
        assert forall|i: int| 0 <= i < n implies filter_limit(after.filters@, offsets, i)
            == filter_limit(self.filters@, old_offsets, i) && filter_at(
            after.filters@,
            offsets,
            i,
        ) == filter_at(self.filters@, old_offsets, i) by {
            assert(offsets[i] == old_offsets[i]);
            assert(old_offsets[i] <= filter_limit(self.filters@, old_offsets, i)
                <= self.filters@.len());
            if i + 1 < n {
                assert(offsets[i + 1] == old_offsets[i + 1]);
            }
            assert(filter_at(after.filters@, offsets, i) =~= filter_at(
                self.filters@,
                old_offsets,
                i,
            ));
        }
        assert(filter_at(after.filters@, offsets, n) =~= made);
        assert forall|i: int| 0 <= i < offsets.len() implies (#[trigger] offsets[i])
            <= filter_limit(after.filters@, offsets, i) <= after.filters@.len() by {
            if i < n {
                assert(old_offsets[i] <= filter_limit(self.filters@, old_offsets, i)
                    <= self.filters@.len());
            }
        }
        assert forall|i: int| 0 <= i < offsets.len() implies #[trigger] filter_made(
            after.policy,
            range_keys(after.added@, i as nat),
            offsets[i],
            filter_at(after.filters@, offsets, i),
        ) by {
            if i < n {
                assert(filter_made(
                    self.policy,
                    range_keys(self.added@, i as nat),
                    old_offsets[i],
                    filter_at(self.filters@, old_offsets, i),
                ));
            }
        }
        assert forall|k: int| 0 <= k < after.added@.len() implies (#[trigger] after.added@[k]).0
            / FILTER_BASE != (n + 1) as nat by {
            assert(self.added@[k].0 / FILTER_BASE <= n);
        }
        lemma_no_keys(after.added@, (n + 1) as nat);
        assert(key_views(after.keys@) =~= Seq::<Seq<u8>>::empty());
    }

    /// What was made right stays so whatever the offset of the block is whose keys come
    /// next.
    proof fn lemma_moved_right(&self, after: &Self)
        requires
            self.made_right(),
            after.policy == self.policy,
            after.keys == self.keys,
            after.data == self.data,
            after.filter_offsets == self.filter_offsets,
            after.finished == self.finished,
            after.added == self.added,
            after.filters == self.filters,
        ensures
            after.made_right(),
    {
        reveal(FilterBlockBuilder::made_right);
        assert(after.offsets() == self.offsets());
    }

    /// What was made right is laid out, and every filter is the one of its range.
    proof fn lemma_made_right(&self)
        requires
            self.made_right(),
        ensures
            !self.finished ==> self.filters@ == self.data@,
            !self.finished ==> key_views(self.keys@) == range_keys(
                self.added@,
                self.offsets().len(),
            ),
            laid_out(self.filters@, self.offsets()),
            forall|i: int|
                0 <= i < self.offsets().len() ==> #[trigger] filter_made(
                    self.policy,
                    range_keys(self.added@, i as nat),
                    self.offsets()[i],
                    filter_at(self.filters@, self.offsets(), i),
                ),
    {
        reveal(FilterBlockBuilder::made_right);
    }

    /// The name of the policy.
    pub fn policy_name(&self) -> (s: &str)
        ensures
            s@ == self.policy().spec_name(),
    {
        self.policy.name()
    }

    /// A builder without keys.
    pub fn new(policy: P) -> (b: Self)
        ensures
            b.wf(),
            b.policy() == policy,
            b.added() == Seq::<KeyAt>::empty(),
            b.current_offset() == 0,
            !b.finished(),
    {
        let b = FilterBlockBuilder {
            policy,
            keys: Vec::new(),
            data: Vec::new(),
            filter_offsets: Vec::new(),
            finished: false,
            added: Ghost(Seq::empty()),
            current: Ghost(0),
            filters: Ghost(Seq::empty()),
        };
        proof {
            reveal(FilterBlockBuilder::made_right);
            assert(key_views(b.keys@) =~= range_keys(b.added@, 0));
            assert(b.offsets() =~= Seq::<nat>::empty());
        }
        b
    }

    /// Adds a key of the block that is being built.
    pub fn add_key(&mut self, key: &[u8])
        requires
            old(self).wf(),
            !old(self).finished(),
        ensures
            final(self).wf(),
            !final(self).finished(),
            final(self).policy() == old(self).policy(),
            final(self).current_offset() == old(self).current_offset(),
            final(self).added() == old(self).added().push((old(self).current_offset(), key@)),
    {
        let mut copy: Vec<u8> = Vec::new();
        append_range(&mut copy, key, 0, key.len());
        assert(copy@ =~= key@);
        let ghost before = self.keys@;
        self.keys.push(copy);
        proof {
            let pair = (self.current@, key@);
            self.added = Ghost(self.added@.push(pair));
            assert forall|k: int| 0 <= k < self.added@.len() implies self.covers(
                #[trigger] self.added@[k],
            ) by {
                if k < old(self).added@.len() {
                    let it = old(self).added@[k];
                    assert(old(self).covers(it));
                    let i = (it.0 / FILTER_BASE) as int;
                    if i >= self.filter_offsets@.len() {
                        let j = choose|j: int|
                            0 <= j < before.len() && #[trigger] before[j]@ == it.1;
                        assert(self.keys@[j]@ == it.1);
                    }
                } else {
                    assert(self.keys@[before.len() as int]@ == key@);
                }
            }
            assert(key_views(self.keys@) =~= key_views(before).push(key@));
            old(self).lemma_add_key_right(self, key@);
        }
    }

    /// Makes the filter of the range that has none yet, from the keys that wait for it.
    fn generate_filter(&mut self)
        requires
            old(self).wf(),
            !old(self).finished(),
        ensures
            final(self).policy() == old(self).policy(),
            final(self).added() == old(self).added(),
            final(self).current_offset() == old(self).current_offset(),
            final(self).filter_offsets@.len() == old(self).filter_offsets@.len() + 1,
            final(self).keys@.len() == 0,
            !final(self).finished,
            final(self).data@.len() <= MAX_FILTER_DATA,
            forall|i: int|
                0 <= i < final(self).filter_offsets@.len() ==> (
                #[trigger] final(self).filter_offsets@[i]) <= final(self).filter_end(i)
                    <= final(self).data@.len(),
            forall|k: int|
                0 <= k < final(self).added@.len() ==> (#[trigger] final(self).added@[k]).0
                    / FILTER_BASE <= old(self).filter_offsets@.len() && final(self).covers(
                    final(self).added@[k],
                ),
            final(self).made_right(),
    {
        let start: usize = self.data.len();
        let ghost old_data = self.data@;
        let ghost old_offsets = self.filter_offsets@;
        let ghost pending = self.keys@;
        // the bytes of the filter made
        let ghost mut made: Seq<u8> = Seq::empty();
        self.filter_offsets.push(start as u32);
        if self.keys.len() > 0 {
            let filter = self.policy.create_filter(&self.keys);
            proof {
                assert(call_ensures(P::create_filter, (&self.policy, &self.keys), filter));
            }
            if filter.len() <= MAX_FILTER_DATA - start {
                append_range(&mut self.data, filter.as_slice(), 0, filter.len());
                proof {
                    assert(filter@.subrange(0, filter@.len() as int) =~= filter@);
                    assert(self.data@.subrange(start as int, self.data@.len() as int)
                        =~= filter@);
                    made = filter@;
                }
            }
            proof {
                assert(filter_made(self.policy, key_views(pending), start as nat, made));
            }
            self.keys.clear();
        }
        proof {
            self.filters = Ghost(self.data@);
            assert(self.data@ =~= old_data + made);
            old(self).lemma_generate_right(self, made);
        }
        proof {
            let n = old_offsets.len() as int;
            assert(self.filter_end(n) == self.data@.len());
            assert forall|i: int| 0 <= i < self.filter_offsets@.len() implies (
            #[trigger] self.filter_offsets@[i]) <= self.filter_end(i) <= self.data@.len() by {
                if i < n {
                    assert(self.filter_offsets@[i] == old_offsets[i]);
                    assert(old_offsets[i] <= old(self).filter_end(i) <= old_data.len());
                    if i + 1 < n {
                        assert(self.filter_offsets@[i + 1] == old_offsets[i + 1]);
                    }
                }
            }
            assert forall|k: int| 0 <= k < self.added@.len() implies (#[trigger] self.added@[k]).0
                / FILTER_BASE <= n && self.covers(self.added@[k]) by {
                let it = self.added@[k];
                assert(old(self).covers(it));
                let i = (it.0 / FILTER_BASE) as int;
                if i < n {
                    assert(self.filter_offsets@[i] == old_offsets[i]);
                    if i + 1 < n {
                        assert(self.filter_offsets@[i + 1] == old_offsets[i + 1]);
                    }
                    let s = old_offsets[i] as int;
                    let e = old(self).filter_end(i);
                    assert(self.filter_end(i) == e);
                    assert(s <= e <= old_data.len());
                    assert(self.data@.subrange(s, e) =~= old_data.subrange(s, e));
                } else {
                    let j = choose|j: int|
                        0 <= j < pending.len() && #[trigger] pending[j]@ == it.1;
                }
            }
        }
    }

    /// Says that the block whose keys come next starts at `block_offset` in the file. Makes
    /// the filters of all ranges before the range of that offset that have none yet. An
    /// offset before that of the block whose keys came last changes nothing: the keys go on
    /// for that block.
    pub fn start_block(&mut self, block_offset: u64)
        requires
            old(self).wf(),
            !old(self).finished(),
        ensures
            final(self).wf(),
            !final(self).finished(),
            final(self).policy() == old(self).policy(),
            final(self).added() == old(self).added(),
            final(self).current_offset() == if old(self).current_offset() <= block_offset {
                block_offset
            } else {
                old(self).current_offset()
            },
            block_offset < old(self).current_offset() ==> *final(self) == *old(self),
    {
        let filter_index: u64 = block_offset / FILTER_BASE;
        if self.filter_offsets.len() as u64 > filter_index {
            // the range of that offset has its filter: the keys go on for the range that
            // waits
            return ;
        }
        while (self.filter_offsets.len() as u64) < filter_index
            invariant
                self.wf(),
                !self.finished,
                self.policy == old(self).policy,
                self.added == old(self).added,
                self.current@ / FILTER_BASE <= filter_index,
                filter_index == block_offset / FILTER_BASE,
                self.filter_offsets@.len() <= filter_index,
                *self == *old(self) || (old(self).current@ <= block_offset && self.current@
                    <= block_offset),
            decreases filter_index - self.filter_offsets@.len(),
        {
            self.generate_filter();
            proof {
                let made = self.filter_offsets@.len();
                let ghost mid = *self;
                assert(made * 2048 <= block_offset);
                self.current = Ghost((made * 2048) as u64);
                mid.lemma_moved_right(self);
                assert(self.current@ / FILTER_BASE == made);
                assert forall|k: int| 0 <= k < self.added@.len() implies self.covers(
                    #[trigger] self.added@[k],
                ) by {}
            }
        }
        let ghost before = *self;
        proof {
            if self.current@ <= block_offset {
                self.current = Ghost(block_offset);
            }
            before.lemma_moved_right(self);
            assert(self.filter_offsets@.len() == filter_index);
            assert forall|k: int| 0 <= k < self.added@.len() implies self.covers(
                #[trigger] self.added@[k],
            ) by {
                let it = before.added@[k];
                assert(before.wf());
                assert(before.covers(it));
                assert(self.filter_offsets == before.filter_offsets);
                assert(self.keys == before.keys);
                assert(self.data == before.data);
                assert(self.policy == before.policy);
                assert(self.filter_end((it.0 / FILTER_BASE) as int) == before.filter_end(
                    (it.0 / FILTER_BASE) as int,
                ));
                assert(self.covers(it));
            }
        }
    }

    /// Ends the filter block: makes the filter of the keys that still wait for one, and
    /// appends the offsets of the filters, the offset of that array, and the base.
    ///
    /// The block is the filters, their offsets, the offset of that array and the base.
    /// There is a filter for every range before the range of the block whose keys came
    /// last, and one for that range if keys were added for it. Each filter is the one that
    /// the policy made from the keys added for its range, and is empty for a range without
    /// keys.
    ///
    /// Read back with the same policy, the block lets every key pass that was added, at the
    /// offset of the block it was added for.
    pub fn finish(&mut self) -> (block: &[u8])
        requires
            old(self).wf(),
            !old(self).finished(),
        ensures
            final(self).finished(),
            final(self).policy() == old(self).policy(),
            final(self).added() == old(self).added(),
            block@ == spec_filter_block(final(self).filters(), final(self).offsets()),
            filters_of(
                old(self).policy(),
                old(self).added(),
                old(self).current_offset(),
                final(self).filters(),
                final(self).offsets(),
            ),
            filter_block_of(
                old(self).policy(),
                old(self).added(),
                old(self).current_offset(),
                block@,
            ),
            forall|k: int|
                0 <= k < old(self).added().len() ==> spec_key_may_match(
                    old(self).policy(),
                    block@,
                    (#[trigger] old(self).added()[k]).0,
                    old(self).added()[k].1,
                ),
    {
        proof {
            old(self).lemma_made_right();
            assert(key_views(self.keys@).len() == self.keys@.len());
        }
        if self.keys.len() > 0 {
            self.generate_filter();
        }
        let ghost before = *self;
        proof {
            before.lemma_made_right();
            assert forall|k: int| 0 <= k < self.added@.len() implies (#[trigger] self.added@[k]).0
                / FILTER_BASE < self.filter_offsets@.len() && self.covers(self.added@[k]) by {
                let it = self.added@[k];
                assert(self.covers(it));
                if it.0 / FILTER_BASE >= self.filter_offsets@.len() {
                    assert(self.keys@.len() == 0);
                }
            }
        }
        self.append_offsets();
        self.finished = true;
        proof {
            before.lemma_finish_right(self);
            before.lemma_finish_sound(self.data@);
            self.lemma_made_right();
        }
        self.data.as_slice()
    }

    /// Puts behind the filters the offset of each, the offset of that array, and the base.
    fn append_offsets(&mut self)
        requires
            old(self).data@.len() <= MAX_FILTER_DATA,
        ensures
            final(self).data@ == spec_filter_block(old(self).data@, old(self).offsets()),
            final(self).policy == old(self).policy,
            final(self).keys == old(self).keys,
            final(self).filter_offsets == old(self).filter_offsets,
            final(self).finished == old(self).finished,
            final(self).added == old(self).added,
            final(self).current == old(self).current,
            final(self).filters == old(self).filters,
    {
        let ghost filters = self.data@;
        let ghost rs = self.offsets();
        let array_offset: usize = self.data.len();
        let mut i: usize = 0;
        while i < self.filter_offsets.len()
            invariant
                i <= self.filter_offsets@.len(),
                rs == self.offsets(),
                self.data@ == filters + encode_offsets(rs.take(i as int)),
                self.policy == old(self).policy,
                self.keys == old(self).keys,
                self.filter_offsets == old(self).filter_offsets,
                self.finished == old(self).finished,
                self.added == old(self).added,
                self.current == old(self).current,
                self.filters == old(self).filters,
            decreases self.filter_offsets@.len() - i,
        {
            put_fixed_32(&mut self.data, self.filter_offsets[i]);
            proof {
                let grown = rs.take(i + 1);
                assert(grown.drop_last() =~= rs.take(i as int));
                assert(grown.last() == rs[i as int]);
                assert(self.data@ =~= filters + encode_offsets(grown));
            }
            i = i + 1;
        }
        proof {
            assert(rs.take(i as int) =~= rs);
        }
        put_fixed_32(&mut self.data, array_offset as u32);
        self.data.push(FILTER_BASE_LG);
        proof {
            assert(self.data@ =~= spec_filter_block(filters, rs));
        }
    }

    /// What was made right stays so when the block is ended.
    proof fn lemma_finish_right(&self, after: &Self)
        requires
            self.made_right(),
            !self.finished,
            after.policy == self.policy,
            after.filter_offsets == self.filter_offsets,
            after.added == self.added,
            after.filters == self.filters,
            after.finished,
        ensures
            after.made_right(),
    {
        reveal(FilterBlockBuilder::made_right);
        assert(after.offsets() == self.offsets());
    }

    /// The block made of the filters and their offsets lets every key pass that was added,
    /// once every key has its filter.
    proof fn lemma_finish_sound(&self, block: Seq<u8>)
        requires
            !self.finished,
            self.data@.len() <= MAX_FILTER_DATA,
            forall|i: int|
                0 <= i < self.filter_offsets@.len() ==> (#[trigger] self.filter_offsets@[i])
                    <= self.filter_end(i) <= self.data@.len(),
            forall|k: int|
                0 <= k < self.added@.len() ==> (#[trigger] self.added@[k]).0 / FILTER_BASE
                    < self.filter_offsets@.len() && self.covers(self.added@[k]),
            block == spec_filter_block(self.data@, self.offsets()),
        ensures
            forall|k: int|
                0 <= k < self.added@.len() ==> spec_key_may_match(
                    self.policy,
                    block,
                    (#[trigger] self.added@[k]).0,
                    self.added@[k].1,
                ),
    {
        let filters = self.data@;
        let offsets = self.filter_offsets@;
        let rs = self.offsets();
        assert(block =~= (filters + encode_offsets(rs) + spec_fixed_32(
            filters.len() as u32,
        )).push(FILTER_BASE_LG));
        assert forall|k: int| 0 <= k < self.added@.len() implies spec_key_may_match(
            self.policy,
            block,
            (#[trigger] self.added@[k]).0,
            self.added@[k].1,
        ) by {
            let it = self.added@[k];
            let idx = (it.0 / FILTER_BASE) as int;
            assert(self.covers(it));
            assert(idx < offsets.len());
            let start = rs[idx];
            let end: nat = if idx + 1 < rs.len() {
                rs[idx + 1]
            } else {
                filters.len()
            };
            assert(start == offsets[idx]);
            assert(end == self.filter_end(idx));
            assert(start <= end <= filters.len());
            assert forall|j: int| 0 <= j < rs.len() implies rs[j] <= filters.len() by {
                assert(offsets[j] <= self.filter_end(j) <= filters.len());
            }
            lemma_filter_lets_pass(self.policy, filters, rs, block, it.0, it.1);
        }
    }
}

/// In a block made of `filters`, the offsets `rs` and the trailer, a key passes whose
/// filter is empty or lets it pass.
pub proof fn lemma_filter_lets_pass<P: FilterPolicy>(
    policy: P,
    filters: Seq<u8>,
    rs: Seq<nat>,
    block: Seq<u8>,
    block_offset: u64,
    key: Seq<u8>,
)
    requires
        filters.len() <= MAX_FILTER_DATA,
        block == (filters + encode_offsets(rs) + spec_fixed_32(filters.len() as u32)).push(
            FILTER_BASE_LG,
        ),
        forall|k: int| 0 <= k < rs.len() ==> rs[k] <= filters.len(),
        block_offset / FILTER_BASE < rs.len(),
        ({
            let i = (block_offset / FILTER_BASE) as int;
            let start = rs[i];
            let end: nat = if i + 1 < rs.len() {
                rs[i + 1]
            } else {
                filters.len()
            };
            start <= end && (start == end || policy.may_match(
                filters.subrange(start as int, end as int),
                key,
            ))
        }),
    ensures
        spec_key_may_match(policy, block, block_offset, key),
{
    let i = (block_offset / FILTER_BASE) as int;
    lemma_shift_is_division(block_offset);
    lemma_filter_block_reads_back(filters, rs, block);
    lemma_filter_bytes(filters, rs, block, i);
    let start = rs[i];
    let end: nat = if i + 1 < rs.len() {
        rs[i + 1]
    } else {
        filters.len()
    };
    assert(block.subrange(start as int, end as int) == filters.subrange(start as int, end as int));
}

/// Shifting right by eleven bits is dividing by 2048.
pub proof fn lemma_shift_is_division(x: u64)
    ensures
        filter_index(x, FILTER_BASE_LG) == x / FILTER_BASE,
{
    assert(x >> 11u64 == x / 2048) by (bit_vector);
}

/// A filter block made of `filters`, the offsets `rs` and the trailer has as many filters
/// as offsets, and its offset array starts where the filters end.
pub proof fn lemma_filter_block_reads_back(filters: Seq<u8>, rs: Seq<nat>, block: Seq<u8>)
    requires
        filters.len() <= MAX_FILTER_DATA,
        block == (filters + encode_offsets(rs) + spec_fixed_32(filters.len() as u32)).push(
            FILTER_BASE_LG,
        ),
    ensures
        filter_array_start(block) == Some(filters.len()),
        filter_count(block) == rs.len(),
        block.last() == FILTER_BASE_LG,
{
    lemma_offsets_len(rs);
    let word = spec_fixed_32(filters.len() as u32);
    assert(block =~= (filters + encode_offsets(rs)) + word + seq![FILTER_BASE_LG]);
    lemma_fixed_32_roundtrip(
        filters.len() as u32,
        filters + encode_offsets(rs),
        seq![FILTER_BASE_LG],
    );
}

/// In such a block, the offsets that bound filter `i` are read back: its start is offset
/// `i`, and its end is the next offset, or the end of the filters for the last one.
pub proof fn lemma_filter_bytes(filters: Seq<u8>, rs: Seq<nat>, block: Seq<u8>, i: int)
    requires
        filters.len() <= MAX_FILTER_DATA,
        block == (filters + encode_offsets(rs) + spec_fixed_32(filters.len() as u32)).push(
            FILTER_BASE_LG,
        ),
        0 <= i < rs.len(),
        forall|k: int| 0 <= k < rs.len() ==> rs[k] <= filters.len(),
    ensures
        spec_decode_fixed_32(block, filters.len() + 4 * i) == rs[i],
        spec_decode_fixed_32(block, filters.len() + 4 * i + 4) == if i + 1 < rs.len() {
            rs[i + 1]
        } else {
            filters.len()
        },
        forall|a: int, b: int|
            0 <= a <= b <= filters.len() ==> #[trigger] block.subrange(a, b) == filters.subrange(
                a,
                b,
            ),
{
    lemma_offsets_len(rs);
    let word = spec_fixed_32(filters.len() as u32);
    let tail = word + seq![FILTER_BASE_LG];
    assert(block =~= filters + encode_offsets(rs) + tail);
    lemma_offsets_decode(filters, rs, tail, i);
    if i + 1 < rs.len() {
        lemma_offsets_decode(filters, rs, tail, i + 1);
    } else {
        assert(block =~= (filters + encode_offsets(rs)) + word + seq![FILTER_BASE_LG]);
        lemma_fixed_32_roundtrip(
            filters.len() as u32,
            filters + encode_offsets(rs),
            seq![FILTER_BASE_LG],
        );
    }
    assert forall|a: int, b: int| 0 <= a <= b <= filters.len() implies #[trigger] block.subrange(
        a,
        b,
    ) == filters.subrange(a, b) by {
        assert(block.subrange(a, b) =~= filters.subrange(a, b));
    }
}

} // verus!
