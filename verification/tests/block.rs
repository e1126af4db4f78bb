use wickdb::sstable::block::Block;
use wickdb::sstable::block_builder::BlockBuilder;
use wickdb::util::coding::decode_fixed_32;
use wickdb::util::comparator::{BytewiseComparator, Comparator, Descending, ReverseComparator};
use wickdb::util::varint::VarintU32;

fn build(interval: usize, keys: &[&str]) -> Vec<u8> {
    let mut builder = BlockBuilder::new(interval, BytewiseComparator::default());
    for (i, key) in keys.iter().enumerate() {
        builder
            .add(key.as_bytes(), format!("v{}", i).as_bytes())
            .unwrap();
    }
    builder.finish().to_vec()
}

fn scan(data: Vec<u8>) -> Vec<(Vec<u8>, Vec<u8>)> {
    let block = Block::new(data).unwrap();
    let mut iter = block.iter(BytewiseComparator::default());
    iter.seek_to_first();
    let mut seen = vec![];
    while iter.valid() {
        seen.push((iter.key().to_vec(), iter.value().to_vec()));
        iter.next();
    }
    assert!(iter.status().is_ok());
    seen
}

#[test]
fn empty_block_is_one_restart_point_and_no_entries() {
    let mut builder = BlockBuilder::new(16, BytewiseComparator::default());
    assert!(builder.is_empty());
    assert_eq!(builder.current_size_estimate(), 8);
    let data = builder.finish().to_vec();
    assert_eq!(data, vec![0, 0, 0, 0, 1, 0, 0, 0]);
    let block = Block::new(data).unwrap();
    let mut iter = block.iter(BytewiseComparator::default());
    assert!(!iter.valid());
    iter.seek_to_first();
    assert!(!iter.valid());
    iter.seek_to_last();
    assert!(!iter.valid());
    iter.seek(b"anything");
    assert!(!iter.valid());
    iter.next();
    iter.prev();
    assert!(!iter.valid());
    assert!(iter.status().is_ok());
}

#[test]
fn size_estimate_is_buffer_plus_restarts_plus_count() {
    let mut builder = BlockBuilder::new(2, BytewiseComparator::default());
    builder.add(b"deck", b"v1").unwrap();
    // 9 bytes of entry, one restart point
    assert_eq!(builder.current_size_estimate(), 9 + 4 + 4);
    builder.add(b"dock", b"v2").unwrap();
    assert_eq!(builder.current_size_estimate(), 17 + 4 + 4);
    builder.add(b"duck", b"v3").unwrap();
    // the third entry opens a second restart
    assert_eq!(builder.current_size_estimate(), 26 + 8 + 4);
    assert!(!builder.is_empty());
    let len = builder.finish().len();
    assert_eq!(len, 38);
}

#[test]
fn restart_interval_zero_counts_as_one() {
    assert_eq!(build(0, &["a", "b", "c"]), build(1, &["a", "b", "c"]));
}

#[test]
fn keys_at_restart_points_are_stored_in_full() {
    let keys: Vec<String> = (0..100).map(|i| format!("key{:04}", i)).collect();
    let refs: Vec<&str> = keys.iter().map(|s| s.as_str()).collect();
    for interval in [1usize, 2, 3, 16, 1000] {
        let data = build(interval, &refs);
        let count = decode_fixed_32(&data[data.len() - 4..]) as usize;
        assert_eq!(count, (keys.len() + interval - 1) / interval);
        let restarts = data.len() - 4 - 4 * count;
        let mut before = None;
        for j in 0..count {
            let offset = decode_fixed_32(&data[restarts + 4 * j..]) as usize;
            if j == 0 {
                assert_eq!(offset, 0);
            }
            assert!(before.map_or(true, |b| b < offset));
            before = Some(offset);
            let (shared, n) = VarintU32::read_at(&data, offset).unwrap();
            assert_eq!(shared, 0);
            let (non_shared, _) = VarintU32::read_at(&data, offset + n).unwrap();
            assert_eq!(non_shared as usize, keys[j * interval].len());
        }
        let entries = scan(data);
        assert_eq!(entries.len(), keys.len());
        for (i, (k, v)) in entries.iter().enumerate() {
            assert_eq!(k, keys[i].as_bytes());
            assert_eq!(v, format!("v{}", i).as_bytes());
        }
    }
}

#[test]
fn out_of_order_and_late_additions_are_refused() {
    let mut builder = BlockBuilder::new(16, BytewiseComparator::default());
    builder.add(b"b", b"1").unwrap();
    let e = builder.add(b"a", b"2").unwrap_err();
    assert_eq!(
        e.to_string(),
        "invalid argument: key is not greater than the last added key"
    );
    let e = builder.add(b"b", b"2").unwrap_err();
    assert_eq!(
        e.to_string(),
        "invalid argument: key is not greater than the last added key"
    );
    builder.add(b"c", b"3").unwrap();
    let first = builder.finish().to_vec();
    let e = builder.add(b"d", b"4").unwrap_err();
    assert_eq!(e.to_string(), "invalid argument: the builder has been finished");
    // finishing again changes nothing
    assert_eq!(builder.finish().to_vec(), first);
    assert_eq!(scan(first).len(), 2);
    builder.reset();
    assert!(builder.is_empty());
    builder.add(b"a", b"5").unwrap();
    assert_eq!(scan(builder.finish().to_vec()), vec![(b"a".to_vec(), b"5".to_vec())]);
}

#[test]
fn seek_lands_on_the_smallest_key_no_earlier_than_the_target() {
    let keys = ["b", "d", "f", "h", "j", "l"];
    for interval in [1usize, 2, 16] {
        let block = Block::new(build(interval, &keys)).unwrap();
        let mut iter = block.iter(BytewiseComparator::default());
        for (target, landing) in [
            ("", Some("b")),
            ("a", Some("b")),
            ("b", Some("b")),
            ("c", Some("d")),
            ("k", Some("l")),
            ("l", Some("l")),
            ("la", None),
            ("m", None),
        ] {
            iter.seek(target.as_bytes());
            match landing {
                Some(k) => {
                    assert!(iter.valid());
                    assert_eq!(iter.key(), k.as_bytes());
                }
                None => assert!(!iter.valid()),
            }
        }
    }
}

#[test]
fn moving_off_either_end_makes_the_cursor_invalid() {
    let block = Block::new(build(2, &["a", "b", "c"])).unwrap();
    let mut iter = block.iter(BytewiseComparator::default());
    iter.seek_to_last();
    assert_eq!(iter.key(), b"c");
    iter.next();
    assert!(!iter.valid());
    iter.seek_to_first();
    assert_eq!(iter.key(), b"a");
    iter.prev();
    assert!(!iter.valid());
    // an invalid cursor stays where it is
    iter.prev();
    assert!(!iter.valid());
    iter.next();
    assert!(!iter.valid());
    assert!(iter.status().is_ok());
}

#[test]
fn blocks_share_their_bytes() {
    let block = Block::new(build(2, &["a", "b"])).unwrap();
    let again = Block::from_shared(block.shared()).unwrap();
    assert_eq!(scan(again.shared().to_vec()).len(), 2);
    assert!(Block::from_shared(std::sync::Arc::new(vec![1, 2, 3])).is_err());
}

#[test]
fn descending_order_is_honoured() {
    let order = Descending::new(BytewiseComparator::default());
    let mut builder = BlockBuilder::new(2, order);
    builder.add(b"c", b"3").unwrap();
    builder.add(b"b", b"2").unwrap();
    builder.add(b"a", b"1").unwrap();
    assert!(builder.add(b"b", b"x").is_err());
    let block = Block::new(builder.finish().to_vec()).unwrap();
    let mut iter = block.iter(order);
    iter.seek_to_first();
    let mut seen = vec![];
    while iter.valid() {
        seen.push(iter.key().to_vec());
        iter.next();
    }
    assert_eq!(seen, vec![b"c".to_vec(), b"b".to_vec(), b"a".to_vec()]);
    iter.seek(b"b");
    assert!(iter.valid());
    assert_eq!(iter.key(), b"b");
    assert_eq!(iter.value(), b"2");
    iter.seek(b"bb");
    assert_eq!(iter.key(), b"b");
}

#[test]
fn blocks_that_do_not_hold_their_trailer_are_refused() {
    for bad in [
        vec![],
        vec![1, 0, 0],
        // announces one restart point but has no room for it
        vec![1, 0, 0, 0],
        // announces more restart points than there is room for
        vec![0, 0, 0, 0, 3, 0, 0, 0],
    ] {
        let e = Block::new(bad).err().unwrap();
        assert_eq!(
            e.to_string(),
            "data corruption: [block] read invalid block content"
        );
    }
    // no restart points: a block without entries
    let block = Block::new(vec![0, 0, 0, 0]).unwrap();
    let mut iter = block.iter(BytewiseComparator::default());
    iter.seek_to_first();
    assert!(!iter.valid());
    assert!(iter.status().is_ok());
    let empty = Block::default();
    let mut iter = empty.iter(BytewiseComparator::default());
    iter.seek_to_last();
    assert!(!iter.valid());
}

#[test]
fn broken_entries_end_the_cursor_with_corruption() {
    let good = build(16, &["apple", "apricot", "banana"]);
    let entries_end = good.len() - 8;
    // cut the last entry short: its value would reach past the end of the entries
    let mut cut = good[..entries_end - 1].to_vec();
    cut.extend_from_slice(&[0, 0, 0, 0, 1, 0, 0, 0]);
    let block = Block::new(cut).unwrap();
    let mut iter = block.iter(BytewiseComparator::default());
    iter.seek_to_first();
    assert!(iter.valid());
    assert_eq!(iter.key(), b"apple");
    iter.next();
    assert_eq!(iter.key(), b"apricot");
    iter.next();
    assert!(!iter.valid());
    let e = iter.status().unwrap_err();
    assert_eq!(e.to_string(), "data corruption: bad entry in block");
    // the state is terminal
    iter.seek_to_first();
    assert!(!iter.valid());
    iter.seek(b"apple");
    assert!(!iter.valid());
    assert!(iter.status().is_err());

    // an entry that shares more bytes than the key before it has
    let mut wrong = vec![5, 1, 1, b'k', b'v'];
    wrong.extend_from_slice(&[0, 0, 0, 0, 1, 0, 0, 0]);
    let block = Block::new(wrong).unwrap();
    let mut iter = block.iter(BytewiseComparator::default());
    iter.seek_to_first();
    assert!(!iter.valid());
    assert!(iter.status().unwrap_err().is_corruption());

    // a restart point in the middle of the block at which the key is not stored in full
    let mut shared = build(16, &["aa", "ab", "ac", "ad"]);
    let n = shared.len();
    shared.truncate(n - 4);
    shared.extend_from_slice(&[6, 0, 0, 0, 2, 0, 0, 0]);
    let block = Block::new(shared).unwrap();
    let mut iter = block.iter(BytewiseComparator::default());
    iter.seek(b"ad");
    assert!(!iter.valid());
    assert!(iter.status().unwrap_err().is_corruption());
}

#[test]
fn orders_have_their_names() {
    assert_eq!(BytewiseComparator::new().name(), "leveldb.BytewiseComparator");
    assert_eq!(
        ReverseComparator::new().name(),
        "wickdb.ReverseBytewiseComparator"
    );
    assert_eq!(
        Descending::new(BytewiseComparator::new()).name(),
        "wickdb.DescendingComparator"
    );
    assert_eq!(
        Descending::new(ReverseComparator::new()).name(),
        "wickdb.DescendingComparator"
    );
}

#[test]
fn restart_points_beyond_the_entries_are_corruption() {
    // one entry of five bytes, and a restart point that lies behind the entries
    let mut far = vec![0, 1, 1, b'k', b'v'];
    far.extend_from_slice(&[9, 0, 0, 0, 1, 0, 0, 0]);
    let block = Block::new(far).unwrap();
    let mut iter = block.iter(BytewiseComparator::default());
    iter.seek_to_first();
    assert!(!iter.valid());
    assert_eq!(
        iter.status().unwrap_err().to_string(),
        "data corruption: bad entry in block"
    );
    let mut iter = block.iter(BytewiseComparator::default());
    iter.seek_to_last();
    assert!(!iter.valid());
    assert!(iter.status().unwrap_err().is_corruption());
    let mut iter = block.iter(BytewiseComparator::default());
    iter.seek(b"k");
    assert!(!iter.valid());
    assert!(iter.status().unwrap_err().is_corruption());

    // a restart point where the entries end: nothing follows it, and nothing is wrong
    let mut at_end = vec![0, 1, 1, b'k', b'v'];
    at_end.extend_from_slice(&[5, 0, 0, 0, 1, 0, 0, 0]);
    let block = Block::new(at_end).unwrap();
    let mut iter = block.iter(BytewiseComparator::default());
    iter.seek_to_first();
    assert!(!iter.valid());
    assert!(iter.status().is_ok());
    iter.seek(b"k");
    assert!(!iter.valid());
    assert!(iter.status().is_ok());
}

#[test]
fn moving_back_from_the_first_entry_of_a_damaged_block() {
    // the first entry can be read, what follows it cannot
    let mut damaged = vec![0, 1, 1, b'k', b'v', 7, 1, 1, b'x', b'y'];
    damaged.extend_from_slice(&[0, 0, 0, 0, 1, 0, 0, 0]);
    let block = Block::new(damaged).unwrap();
    let mut iter = block.iter(BytewiseComparator::default());
    iter.seek_to_first();
    assert!(iter.valid());
    assert_eq!(iter.key(), b"k");
    iter.prev();
    assert!(!iter.valid());
    assert!(iter.status().is_ok());
    iter.seek_to_first();
    iter.next();
    assert!(!iter.valid());
    assert!(iter.status().unwrap_err().is_corruption());
    // a seek that has to read past the first entry meets the damage
    let mut iter = block.iter(BytewiseComparator::default());
    iter.seek(b"z");
    assert!(!iter.valid());
    assert!(iter.status().unwrap_err().is_corruption());
    let mut iter = block.iter(BytewiseComparator::default());
    iter.seek(b"a");
    assert!(iter.valid());
    assert_eq!(iter.key(), b"k");
}
