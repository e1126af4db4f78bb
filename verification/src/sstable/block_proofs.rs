//! What follows from the definitions of the block format: how the entries of a block hang
//! together, and what a restart point gives.
use crate::sstable::block::{
    announced_restarts, block_body, block_entries, clean_from, entries_from, entry_at, header_at,
    index_of_offset, land, parsable, regular, restart_area, restart_count, restart_point, sorted,
    starts_entry, Cursor, EntryView,
};
use crate::sstable::block_builder::{
    encodable, encode_block, encode_entries, encode_entry, encode_offsets, increasing,
    lemma_offsets_len, opens_restart, restart_offsets, shared_len, Pair,
};
use crate::util::coding::{lemma_fixed_32_roundtrip, spec_decode_fixed_32, spec_fixed_32};
use crate::util::comparator::{lemma_common_prefix_bounds, Comparator};
use crate::util::varint::{
    lemma_pow128_bounds, lemma_varint_bounds, lemma_varint_extend, lemma_varint_len,
    lemma_varint_roundtrip, spec_read_u32, spec_varint, varint_at,
};
use vstd::prelude::*;

verus! {

/// The entries read from `off` on hang together: the first one is the entry at `off`, each
/// later one is the entry read where the one before it ends, with that one's key as the key
/// before; and what is read after entry `i` is the rest of the entries.
pub proof fn lemma_scan_chain(body: Seq<u8>, off: int, prev: Seq<u8>, i: int)
    requires
        0 <= i < entries_from(body, off, prev).len(),
    ensures
        ({
            let es = entries_from(body, off, prev);
            &&& off <= es[i].offset < body.len()
            &&& es[i].offset < es[i].next
            &&& i == 0 ==> es[0].offset == off && entry_at(body, off, prev) == Some(es[0])
            &&& i > 0 ==> es[i].offset == es[i - 1].next && entry_at(
                body,
                es[i - 1].next,
                es[i - 1].key,
            ) == Some(es[i])
            &&& entries_from(body, es[i].next, es[i].key) == es.skip(i + 1)
        }),
    decreases i,
{
    let es = entries_from(body, off, prev);
    let e = entry_at(body, off, prev)->Some_0;
    let tail = entries_from(body, e.next, e.key);
    assert(es == seq![e] + tail);
    assert(es.skip(1) =~= tail);
    if i == 0 {
    } else {
        lemma_scan_chain(body, e.next, e.key, i - 1);
        assert(tail[i - 1] == es[i]);
        assert(tail.skip(i) =~= es.skip(i + 1));
        if i - 1 > 0 {
            assert(tail[i - 2] == es[i - 1]);
        }
    }
}

/// Entries read later start later: an entry ends no later than any entry after it starts.
pub proof fn lemma_scan_offsets(body: Seq<u8>, off: int, prev: Seq<u8>, i: int, j: int)
    requires
        0 <= i < j < entries_from(body, off, prev).len(),
    ensures
        entries_from(body, off, prev)[i].next <= entries_from(body, off, prev)[j].offset,
        entries_from(body, off, prev)[i].offset < entries_from(body, off, prev)[j].offset,
    decreases j - i,
{
    lemma_scan_chain(body, off, prev, i);
    lemma_scan_chain(body, off, prev, j);
    if i + 1 < j {
        lemma_scan_offsets(body, off, prev, i, j - 1);
        lemma_scan_chain(body, off, prev, j - 1);
    }
}

/// Among the entries read from `off` on, an offset names its entry.
pub proof fn lemma_index_of_offset(body: Seq<u8>, off: int, prev: Seq<u8>, i: int)
    requires
        0 <= i < entries_from(body, off, prev).len(),
    ensures
        index_of_offset(entries_from(body, off, prev), entries_from(body, off, prev)[i].offset)
            == i,
{
    let es = entries_from(body, off, prev);
    let k = index_of_offset(es, es[i].offset);
    assert(0 <= k < es.len() && es[k].offset == es[i].offset);
    if k < i {
        lemma_scan_offsets(body, off, prev, k, i);
    } else if i < k {
        lemma_scan_offsets(body, off, prev, i, k);
    }
}

/// Where reading from `off` reaches the end of `body` exactly, there are no entries only
/// if `off` is the end, and the last entry ends at the end.
pub proof fn lemma_clean_end(body: Seq<u8>, off: int, prev: Seq<u8>)
    requires
        clean_from(body, off, prev),
    ensures
        0 <= off <= body.len(),
        entries_from(body, off, prev).len() == 0 <==> off == body.len(),
        entries_from(body, off, prev).len() > 0 ==> entries_from(body, off, prev).last().next
            == body.len(),
    decreases body.len() - off,
{
    if off < body.len() {
        let e = entry_at(body, off, prev)->Some_0;
        let tail = entries_from(body, e.next, e.key);
        lemma_clean_end(body, e.next, e.key);
        let es = entries_from(body, off, prev);
        assert(es == seq![e] + tail);
        if tail.len() > 0 {
            assert(es.last() == tail.last());
        } else {
            assert(es.last() == e);
        }
    }
}

/// In an entry area that reads cleanly to its end, moving on from entry `i` lands on entry
/// `i + 1`, or past the end from the last entry.
pub proof fn lemma_next_lands(body: Seq<u8>, i: int)
    requires
        clean_from(body, 0, Seq::empty()),
        0 <= i < entries_from(body, 0, Seq::empty()).len(),
    ensures
        ({
            let es = entries_from(body, 0, Seq::empty());
            land(body, es[i].next, es[i].key) == if i + 1 < es.len() {
                Cursor::At(es[i + 1])
            } else {
                Cursor::End
            }
        }),
{
    let es = entries_from(body, 0, Seq::empty());
    lemma_clean_end(body, 0, Seq::empty());
    if i + 1 < es.len() {
        lemma_scan_chain(body, 0, Seq::empty(), i + 1);
    }
}

/// In a regular block with entries, every restart point is the start of an entry, and
/// reading there gives that entry whatever the key before is taken to be: its key is stored
/// in full. A regular block without entries has no bytes in its entry area.
pub proof fn lemma_restart_entry(data: Seq<u8>, j: int, prev: Seq<u8>)
    requires
        regular(data),
        0 <= j < restart_count(data),
    ensures
        ({
            let es = block_entries(data);
            let body = block_body(data);
            let r = restart_point(data, j) as int;
            let i = index_of_offset(es, r);
            &&& es.len() == 0 ==> body.len() == 0 && r == 0
            &&& es.len() > 0 ==> {
                &&& 0 <= i < es.len()
                &&& es[i].offset == r
                &&& r < body.len()
                &&& entry_at(body, r, prev) == Some(es[i])
                &&& header_at(body, r) matches Some(h)
                &&& h.shared == 0
                &&& es[i].key == body.subrange(h.key_start, h.key_start + h.non_shared)
                &&& j == 0 ==> i == 0
            }
        }),
{
    let es = block_entries(data);
    let body = block_body(data);
    let r = restart_point(data, j) as int;
    let empty = Seq::<u8>::empty();
    lemma_clean_end(body, 0, empty);
    if es.len() == 0 {
        if j >= 1 {
            assert(starts_entry(es, restart_point(data, j) as int));
        }
    } else {
        lemma_scan_chain(body, 0, empty, 0);
        if j == 0 {
            assert(es[0].offset == r);
            assert(starts_entry(es, r));
        } else {
            assert(starts_entry(es, restart_point(data, j) as int));
        }
        let i = index_of_offset(es, r);
        assert(0 <= i < es.len() && es[i].offset == r);
        lemma_scan_chain(body, 0, empty, i);
        lemma_index_of_offset(body, 0, empty, i);
        let h = header_at(body, r)->Some_0;
        assert(h.shared == 0);
        let delta = body.subrange(h.key_start, h.key_start + h.non_shared);
        assert(prev.take(0) + delta =~= delta);
        if i > 0 {
            assert(es[i - 1].key.take(0) + delta =~= delta);
        } else {
            assert(empty.take(0) + delta =~= delta);
        }
    }
}

/// An entry header that can be read is read the same when bytes are added after the
/// entry area.
pub proof fn lemma_header_extend(body: Seq<u8>, ext: Seq<u8>, off: int)
    requires
        header_at(body, off) is Some,
    ensures
        header_at(body + ext, off) == header_at(body, off),
{
    let (shared, n0) = spec_read_u32(body, off)->Some_0;
    lemma_varint_extend(body, ext, off, 5);
    let (non_shared, n1) = spec_read_u32(body, off + n0)->Some_0;
    lemma_varint_extend(body, ext, off + n0, 5);
    let (value_len, n2) = spec_read_u32(body, off + n0 + n1)->Some_0;
    lemma_varint_extend(body, ext, off + n0 + n1, 5);
}

/// The parts of an entry lie in this order within the entry area: its start, at least
/// three bytes of lengths, its key delta, its value.
pub proof fn lemma_header_bounds(body: Seq<u8>, off: int)
    requires
        header_at(body, off) is Some,
    ensures
        0 <= off,
        off + 3 <= header_at(body, off)->Some_0.key_start,
        header_at(body, off)->Some_0.key_start + header_at(body, off)->Some_0.non_shared
            + header_at(body, off)->Some_0.value_len <= body.len(),
{
    let (shared, n0) = spec_read_u32(body, off)->Some_0;
    lemma_varint_bounds(body, off, 5);
    let (non_shared, n1) = spec_read_u32(body, off + n0)->Some_0;
    lemma_varint_bounds(body, off + n0, 5);
    let (value_len, n2) = spec_read_u32(body, off + n0 + n1)->Some_0;
    lemma_varint_bounds(body, off + n0 + n1, 5);
}

/// An entry that can be read is read the same when bytes are added after the entry area.
pub proof fn lemma_entry_extend(body: Seq<u8>, ext: Seq<u8>, off: int, prev: Seq<u8>)
    requires
        entry_at(body, off, prev) is Some,
    ensures
        entry_at(body + ext, off, prev) == entry_at(body, off, prev),
{
    lemma_header_extend(body, ext, off);
    lemma_header_bounds(body, off);
    let h = header_at(body, off)->Some_0;
    assert((body + ext).subrange(h.key_start, h.key_start + h.non_shared) =~= body.subrange(
        h.key_start,
        h.key_start + h.non_shared,
    ));
    assert((body + ext).subrange(
        h.key_start + h.non_shared,
        h.key_start + h.non_shared + h.value_len,
    ) =~= body.subrange(h.key_start + h.non_shared, h.key_start + h.non_shared + h.value_len));
}

/// The key of the last of the entries `es`, or `prev` where there is none.
pub open spec fn last_key(es: Seq<EntryView>, prev: Seq<u8>) -> Seq<u8> {
    if es.len() > 0 {
        es.last().key
    } else {
        prev
    }
}

/// Where an entry area reads cleanly to its end and bytes are added after it, reading goes
/// through the same entries and then on into the added bytes, with the last key read as the
/// key before.
pub proof fn lemma_scan_extend(body: Seq<u8>, ext: Seq<u8>, off: int, prev: Seq<u8>)
    requires
        clean_from(body, off, prev),
    ensures
        entries_from(body + ext, off, prev) == entries_from(body, off, prev) + entries_from(
            body + ext,
            body.len() as int,
            last_key(entries_from(body, off, prev), prev),
        ),
        clean_from(body + ext, off, prev) == clean_from(
            body + ext,
            body.len() as int,
            last_key(entries_from(body, off, prev), prev),
        ),
    decreases body.len() - off,
{
    let grown = body + ext;
    if off == body.len() {
        assert(entries_from(body, off, prev) =~= Seq::empty());
        assert(entries_from(grown, off, prev) =~= Seq::<EntryView>::empty() + entries_from(
            grown,
            off,
            prev,
        ));
    } else {
        let e = entry_at(body, off, prev)->Some_0;
        lemma_entry_extend(body, ext, off, prev);
        lemma_scan_extend(body, ext, e.next, e.key);
        let tail = entries_from(body, e.next, e.key);
        let es = entries_from(body, off, prev);
        assert(es == seq![e] + tail);
        assert(last_key(es, prev) == last_key(tail, e.key)) by {
            if tail.len() > 0 {
                assert(es.last() == tail.last());
            } else {
                assert(es.last() == e);
            }
        }
        let rest = entries_from(grown, body.len() as int, last_key(tail, e.key));
        assert(entries_from(grown, off, prev) == seq![e] + entries_from(grown, e.next, e.key));
        assert(seq![e] + (tail + rest) =~= (seq![e] + tail) + rest);
    }
}

/// Three varints in a row are read back one after the other, whatever surrounds them.
pub proof fn lemma_three_varints(
    before: Seq<u8>,
    x: nat,
    y: nat,
    z: nat,
    after: Seq<u8>,
)
    requires
        x <= u32::MAX,
        y <= u32::MAX,
        z <= u32::MAX,
    ensures
        ({
            let a = spec_varint(x);
            let b = spec_varint(y);
            let c = spec_varint(z);
            let s = before + (a + b + c) + after;
            let p = before.len() as int;
            &&& a.len() <= 5 && b.len() <= 5 && c.len() <= 5
            &&& a.len() >= 1 && b.len() >= 1 && c.len() >= 1
            &&& spec_read_u32(s, p) == Some((x as u32, a.len()))
            &&& spec_read_u32(s, p + a.len()) == Some((y as u32, b.len()))
            &&& spec_read_u32(s, p + a.len() + b.len()) == Some((z as u32, c.len()))
        }),
{
    let a = spec_varint(x);
    let b = spec_varint(y);
    let c = spec_varint(z);
    let s = before + (a + b + c) + after;
    lemma_pow128_bounds();
    lemma_varint_len(x, 5);
    lemma_varint_len(y, 5);
    lemma_varint_len(z, 5);
    assert(varint_at(s, before.len() as int, 5) == Some((x, a.len()))) by {
        assert(s =~= before + a + (b + c + after));
        lemma_varint_roundtrip(x, before, b + c + after, 5);
    }
    assert(varint_at(s, (before.len() + a.len()) as int, 5) == Some((y, b.len()))) by {
        assert(s =~= (before + a) + b + (c + after));
        lemma_varint_roundtrip(y, before + a, c + after, 5);
    }
    assert(varint_at(s, (before.len() + a.len() + b.len()) as int, 5) == Some((z, c.len()))) by {
        assert(s =~= (before + a + b) + c + after);
        lemma_varint_roundtrip(z, before + a + b, after, 5);
    }
}

/// The stored form of an entry is read back as that entry, wherever it stands: after any
/// bytes, before any bytes, given the key before it, with which it shares `shared` bytes.
pub proof fn lemma_entry_roundtrip(
    before: Seq<u8>,
    shared: nat,
    key: Seq<u8>,
    value: Seq<u8>,
    prev: Seq<u8>,
    after: Seq<u8>,
)
    requires
        shared <= prev.len(),
        shared <= key.len(),
        prev.take(shared as int) == key.take(shared as int),
        key.len() <= u32::MAX,
        value.len() <= u32::MAX,
    ensures
        ({
            let stored = encode_entry(shared, key, value);
            let body = before + stored + after;
            &&& entry_at(body, before.len() as int, prev) == Some(
                EntryView {
                    offset: before.len() as int,
                    key,
                    value,
                    next: (before.len() + stored.len()) as int,
                },
            )
            &&& header_at(body, before.len() as int) matches Some(h)
            &&& h.shared == shared
            &&& 3 <= stored.len() <= 15 + key.len() + value.len()
        }),
{
    let non_shared = (key.len() - shared) as nat;
    let lengths = spec_varint(shared) + spec_varint(non_shared) + spec_varint(value.len());
    let delta = key.skip(shared as int);
    let stored = encode_entry(shared, key, value);
    let body = before + stored + after;
    let p = before.len() as int;
    assert(stored =~= lengths + delta + value);
    assert(body =~= before + lengths + (delta + value + after));
    lemma_three_varints(before, shared, non_shared, value.len(), delta + value + after);
    let key_start = p + lengths.len();
    assert(body.subrange(key_start, key_start + non_shared) =~= delta);
    assert(body.subrange(key_start + non_shared, key_start + non_shared + value.len()) =~= value);
    assert(prev.take(shared as int) + delta =~= key) by {
        assert(key.take(shared as int) + key.skip(shared as int) =~= key);
    }
    let h = header_at(body, p)->Some_0;
    assert(header_at(body, p) is Some);
    assert(h.shared == shared && h.non_shared == non_shared && h.value_len == value.len()
        && h.key_start == key_start);
}

/// The entry that a block holds for the `i`-th of `entries`.
pub open spec fn stored_entry(entries: Seq<Pair>, interval: nat, i: int) -> EntryView {
    EntryView {
        offset: encode_entries(entries, interval, i as nat).len() as int,
        key: entries[i].0,
        value: entries[i].1,
        next: encode_entries(entries, interval, (i + 1) as nat).len() as int,
    }
}

/// Storing one more entry after an entry area that reads cleanly to its end gives an entry
/// area that reads cleanly to its end: through the same entries, then the new one.
pub proof fn lemma_append_entry(
    before: Seq<u8>,
    shared: nat,
    key: Seq<u8>,
    value: Seq<u8>,
)
    requires
        clean_from(before, 0, Seq::empty()),
        shared <= key.len(),
        shared <= last_key(entries_from(before, 0, Seq::empty()), Seq::empty()).len(),
        last_key(entries_from(before, 0, Seq::empty()), Seq::empty()).take(shared as int)
            == key.take(shared as int),
        key.len() <= u32::MAX,
        value.len() <= u32::MAX,
    ensures
        ({
            let body = before + encode_entry(shared, key, value);
            &&& clean_from(body, 0, Seq::empty())
            &&& entries_from(body, 0, Seq::empty()) == entries_from(before, 0, Seq::empty()).push(
                EntryView { offset: before.len() as int, key, value, next: body.len() as int },
            )
            &&& header_at(body, before.len() as int) matches Some(h)
            &&& h.shared == shared
        }),
{
    let empty = Seq::<u8>::empty();
    let old_es = entries_from(before, 0, empty);
    let prev = last_key(old_es, empty);
    let stored = encode_entry(shared, key, value);
    let body = before + stored;
    assert(body =~= before + stored + empty);
    lemma_entry_roundtrip(before, shared, key, value, prev, empty);
    lemma_scan_extend(before, stored, 0, empty);
    let e = entry_at(body, before.len() as int, prev)->Some_0;
    assert(e.next == body.len());
    assert(entries_from(body, body.len() as int, e.key) =~= Seq::empty());
    assert(entries_from(body, before.len() as int, prev) =~= seq![e]);
    assert(clean_from(body, body.len() as int, e.key));
    assert(clean_from(body, before.len() as int, prev));
    assert(old_es + seq![e] =~= old_es.push(e));
}

/// The stored forms of the first `n` entries are read back as those entries: the entry area
/// reads cleanly to its end, entry for entry what was stored, each where its stored form
/// starts, and each leaves out as many leading bytes of its key as `shared_len` says.
pub open spec fn reads_back(entries: Seq<Pair>, interval: nat, n: nat) -> bool {
    let body = encode_entries(entries, interval, n);
    let es = entries_from(body, 0, Seq::empty());
    &&& clean_from(body, 0, Seq::empty())
    &&& es.len() == n
    &&& forall|i: int| 0 <= i < n ==> #[trigger] es[i] == stored_entry(entries, interval, i)
    &&& forall|i: int|
        0 <= i < n ==> (#[trigger] header_at(
            body,
            encode_entries(entries, interval, i as nat).len() as int,
        ) matches Some(h) && h.shared == shared_len(entries, i, interval))
}

proof fn lemma_reads_back_step(entries: Seq<Pair>, interval: nat, m: nat)
    requires
        m < entries.len(),
        reads_back(entries, interval, m),
        entries[m as int].0.len() <= u32::MAX,
        entries[m as int].1.len() <= u32::MAX,
    ensures
        reads_back(entries, interval, m + 1),
{
    let empty = Seq::<u8>::empty();
    let n = m + 1;
    let before = encode_entries(entries, interval, m);
    let body = encode_entries(entries, interval, n);
    let old_es = entries_from(before, 0, empty);
    let shared = shared_len(entries, m as int, interval);
    let key = entries[m as int].0;
    let value = entries[m as int].1;
    let stored = encode_entry(shared, key, value);
    let prev = last_key(old_es, empty);
    assert(body == before + stored);
    if m > 0 {
        assert(old_es[m - 1] == stored_entry(entries, interval, m - 1));
        assert(prev == entries[m - 1].0);
        lemma_common_prefix_bounds(entries[m - 1].0, key);
    }
    assert(prev.take(shared as int) =~= key.take(shared as int));
    lemma_append_entry(before, shared, key, value);
    let es = entries_from(body, 0, empty);
    assert forall|i: int| 0 <= i < n implies #[trigger] es[i] == stored_entry(
        entries,
        interval,
        i,
    ) by {
        if i < m {
            assert(es[i] == old_es[i]);
        }
    }
    assert forall|i: int| 0 <= i < n implies (#[trigger] header_at(
        body,
        encode_entries(entries, interval, i as nat).len() as int,
    ) matches Some(h) && h.shared == shared_len(entries, i, interval)) by {
        if i < m {
            let off = encode_entries(entries, interval, i as nat).len() as int;
            assert(header_at(before, off) is Some);
            lemma_header_extend(before, stored, off);
        }
    }
}

/// Whatever entries are stored are read back.
pub proof fn lemma_entries_decode(entries: Seq<Pair>, interval: nat, n: nat)
    requires
        n <= entries.len(),
        forall|i: int|
            0 <= i < n ==> (#[trigger] entries[i]).0.len() <= u32::MAX && entries[i].1.len()
                <= u32::MAX,
    ensures
        reads_back(entries, interval, n),
    decreases n,
{
    if n == 0 {
        let body = encode_entries(entries, interval, n);
        assert(entries_from(body, 0, Seq::empty()) =~= Seq::empty());
    } else {
        let m = (n - 1) as nat;
        lemma_entries_decode(entries, interval, m);
        assert((#[trigger] entries[m as int]).0.len() <= u32::MAX);
        lemma_reads_back_step(entries, interval, m);
    }
}

/// The stored form of more entries is no shorter.
pub proof fn lemma_encode_len_monotone(entries: Seq<Pair>, interval: nat, i: nat, n: nat)
    requires
        i <= n,
    ensures
        encode_entries(entries, interval, i).len() <= encode_entries(entries, interval, n).len(),
    decreases n - i,
{
    if i < n {
        lemma_encode_len_monotone(entries, interval, i, (n - 1) as nat);
    }
}

/// The restart offsets of a block start with zero, and every later one is where an entry
/// that opens a restart starts.
pub proof fn lemma_restart_offsets(entries: Seq<Pair>, interval: nat, n: nat)
    ensures
        ({
            let rs = restart_offsets(entries, interval, n);
            &&& rs.len() >= 1
            &&& rs[0] == 0
            &&& forall|j: int|
                1 <= j < rs.len() ==> exists|i: int|
                    0 < i < n && opens_restart(i, interval) && #[trigger] rs[j]
                        == #[trigger] encode_entries(entries, interval, i as nat).len()
        }),
    decreases n,
{
    if n > 0 {
        let m = (n - 1) as nat;
        lemma_restart_offsets(entries, interval, m);
        let before = restart_offsets(entries, interval, m);
        let rs = restart_offsets(entries, interval, n);
        assert forall|j: int| 1 <= j < rs.len() implies exists|i: int|
            0 < i < n && opens_restart(i, interval) && #[trigger] rs[j]
                == #[trigger] encode_entries(entries, interval, i as nat).len() by {
            if j < before.len() {
                let i = choose|i: int|
                    0 < i < m && opens_restart(i, interval) && #[trigger] before[j]
                        == #[trigger] encode_entries(entries, interval, i as nat).len();
                assert(0 < i < n && opens_restart(i, interval) && rs[j] == encode_entries(
                    entries,
                    interval,
                    i as nat,
                ).len());
            } else {
                assert(0 < m < n && opens_restart(m as int, interval) && rs[j]
                    == encode_entries(entries, interval, m).len());
            }
        }
    }
}

/// Offsets stored four bytes each are read back by their index, whatever surrounds them.
pub proof fn lemma_offsets_decode(before: Seq<u8>, rs: Seq<nat>, after: Seq<u8>, j: int)
    requires
        0 <= j < rs.len(),
        forall|k: int| 0 <= k < rs.len() ==> rs[k] <= u32::MAX,
    ensures
        spec_decode_fixed_32(before + encode_offsets(rs) + after, before.len() + 4 * j) == rs[j],
    decreases rs.len(),
{
    let init = rs.drop_last();
    let last = spec_fixed_32(rs.last() as u32);
    lemma_offsets_len(init);
    let s = before + encode_offsets(rs) + after;
    if j == rs.len() - 1 {
        assert(s =~= (before + encode_offsets(init)) + last + after);
        lemma_fixed_32_roundtrip(rs.last() as u32, before + encode_offsets(init), after);
    } else {
        assert(s =~= before + encode_offsets(init) + (last + after));
        lemma_offsets_decode(before, init, last + after, j);
    }
}

/// A block holds `entries`: it has as many entries, with the same keys and values.
pub open spec fn holds(data: Seq<u8>, entries: Seq<Pair>) -> bool {
    &&& block_entries(data).len() == entries.len()
    &&& forall|i: int|
        0 <= i < entries.len() ==> (#[trigger] block_entries(data)[i]).key == entries[i].0
            && block_entries(data)[i].value == entries[i].1
}

/// The block built from entries is regular and holds those entries, in their order: what
/// is read from it, from whichever restart point, is what was stored.
pub proof fn lemma_built_block(entries: Seq<Pair>, interval: nat)
    requires
        encodable(entries, interval),
    ensures
        regular(encode_block(entries, interval)),
        holds(encode_block(entries, interval), entries),
        block_body(encode_block(entries, interval)) == encode_entries(
            entries,
            interval,
            entries.len(),
        ),
{
    let n = entries.len();
    let body = encode_entries(entries, interval, n);
    let rs = restart_offsets(entries, interval, n);
    let count = spec_fixed_32(rs.len() as u32);
    let data = encode_block(entries, interval);
    let empty = Seq::<u8>::empty();
    lemma_offsets_len(rs);
    lemma_restart_offsets(entries, interval, n);
    lemma_entries_decode(entries, interval, n);
    assert(data =~= (body + encode_offsets(rs)) + count + empty);
    lemma_fixed_32_roundtrip(rs.len() as u32, body + encode_offsets(rs), empty);
    assert(data.len() == body.len() + 4 * rs.len() + 4);
    assert(announced_restarts(data) == rs.len());
    assert(parsable(data));
    assert(restart_area(data) == body.len());
    assert(block_body(data) =~= body);
    let es = block_entries(data);
    assert forall|k: int| 0 <= k < rs.len() implies rs[k] <= u32::MAX by {
        if k >= 1 {
            let i = choose|i: int|
                0 < i < n && opens_restart(i, interval) && #[trigger] rs[k]
                    == #[trigger] encode_entries(entries, interval, i as nat).len();
            lemma_encode_len_monotone(entries, interval, i as nat, n);
        }
    }
    assert forall|j: int| 0 <= j < rs.len() implies restart_point(data, j) == rs[j] by {
        lemma_offsets_decode(body, rs, count, j);
    }
    assert forall|j: int| 1 <= j < restart_count(data) implies {
        &&& starts_entry(es, #[trigger] restart_point(data, j) as int)
        &&& header_at(block_body(data), restart_point(data, j) as int) matches Some(h)
        &&& h.shared == 0
    } by {
        let i = choose|i: int|
            0 < i < n && opens_restart(i, interval) && #[trigger] rs[j]
                == #[trigger] encode_entries(entries, interval, i as nat).len();
        assert(es[i] == stored_entry(entries, interval, i));
        assert(es[i].offset == rs[j]);
        assert(header_at(body, encode_entries(entries, interval, i as nat).len() as int) is Some);
    }
    assert forall|i: int| 0 <= i < entries.len() implies (#[trigger] block_entries(data)[i]).key
        == entries[i].0 && block_entries(data)[i].value == entries[i].1 by {
        assert(es[i] == stored_entry(entries, interval, i));
    }
}

/// Entries stored in increasing order are read back in increasing order.
pub proof fn lemma_built_block_sorted<C: Comparator>(entries: Seq<Pair>, interval: nat, c: C)
    requires
        encodable(entries, interval),
        increasing(entries, c),
    ensures
        sorted(block_entries(encode_block(entries, interval)), c),
{
    lemma_built_block(entries, interval);
    let es = block_entries(encode_block(entries, interval));
    assert forall|i: int, j: int| 0 <= i < j < es.len() implies !c.le(
        #[trigger] es[j].key,
        #[trigger] es[i].key,
    ) by {
        assert(es[i].key == entries[i].0);
        assert(es[j].key == entries[j].0);
    }
}

} // verus!
