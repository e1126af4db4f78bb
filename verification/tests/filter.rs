use wickdb::filter::FilterPolicy;
use wickdb::filter::bloom::{hash, BloomFilter};
use wickdb::sstable::filter_block::{FilterBlockBuilder, FilterBlockReader};

fn key(i: u32) -> Vec<u8> {
    format!("key{:06}", i).into_bytes()
}

#[test]
fn hash_known_values() {
    let data1 = [0x62u8];
    let data2 = [0xc3u8, 0x97];
    let data3 = [0xe2u8, 0x99, 0xa5];
    let data4 = [0xe1u8, 0x80, 0xb9, 0x32];
    let data5 = [
        0x01u8, 0xc0, 0x00, 0x00, 0x00, 0x00, 0x00, 0x00, 0x00, 0x00, 0x00, 0x00, 0x14, 0x00,
        0x00, 0x00, 0x00, 0x00, 0x04, 0x00, 0x00, 0x00, 0x00, 0x14, 0x00, 0x00, 0x00, 0x18,
        0x28, 0x00, 0x00, 0x00, 0x00, 0x00, 0x00, 0x00, 0x02, 0x00, 0x00, 0x00, 0x00, 0x00,
        0x00, 0x00, 0x00, 0x00, 0x00, 0x00,
    ];
    assert_eq!(hash(&[], 0xbc9f1d34), 0xbc9f1d34);
    assert_eq!(hash(&data1, 0xbc9f1d34), 0xef1345c4);
    assert_eq!(hash(&data2, 0xbc9f1d34), 0x5b663814);
    assert_eq!(hash(&data3, 0xbc9f1d34), 0x323c078f);
    assert_eq!(hash(&data4, 0xbc9f1d34), 0xed21633a);
    assert_eq!(hash(&data5, 0x12345678), 0xd8e62a73);
}

#[test]
fn bloom_filter_lets_every_key_pass_that_it_was_made_from() {
    let policy = BloomFilter::new(10);
    assert_eq!(policy.name(), "leveldb.BuiltinBloomFilter");
    for n in [1u32, 2, 10, 100, 1000, 5000] {
        let keys: Vec<Vec<u8>> = (0..n).map(key).collect();
        let filter = policy.create_filter(&keys);
        // ten bits for every key, at least 64 bits, and one byte for the number of probes
        let bits = std::cmp::max(64, n as usize * 10);
        assert_eq!(filter.len(), (bits + 7) / 8 + 1);
        assert_eq!(*filter.last().unwrap(), 6);
        for k in keys.iter() {
            assert!(policy.may_contain(&filter, k));
        }
    }
}

#[test]
fn bloom_filter_refuses_most_other_keys() {
    let policy = BloomFilter::new(10);
    let keys: Vec<Vec<u8>> = (0..1000).map(key).collect();
    let filter = policy.create_filter(&keys);
    let mut passed = 0;
    for i in 0..10000u32 {
        if policy.may_contain(&filter, &key(i + 1_000_000)) {
            passed += 1;
        }
    }
    // about one in a hundred at ten bits for every key
    assert!(passed < 300);
}

#[test]
fn bloom_filter_edge_cases() {
    let policy = BloomFilter::new(10);
    // too short to be a filter: nothing passes
    assert!(!policy.may_contain(&[], b"a"));
    assert!(!policy.may_contain(&[0xff], b"a"));
    // more probes than any filter has: of a later format, everything passes
    assert!(policy.may_contain(&[0, 0, 31], b"a"));
    // no probes: everything passes
    assert!(policy.may_contain(&[0, 0, 0], b"a"));
    // an empty bit array refuses
    assert!(!policy.may_contain(&[0, 0, 0, 0, 0, 0, 0, 0, 6], b"a"));
    // a full bit array lets pass
    assert!(policy.may_contain(&[0xff; 9], b"a"));
    // the number of probes is kept between one and thirty
    let few = BloomFilter::new(0).create_filter(&vec![b"a".to_vec()]);
    assert_eq!(*few.last().unwrap(), 1);
    let many = BloomFilter::new(1000).create_filter(&vec![b"a".to_vec()]);
    assert_eq!(*many.last().unwrap(), 30);
    let none = policy.create_filter(&vec![]);
    assert_eq!(none, vec![0, 0, 0, 0, 0, 0, 0, 0, 6]);
}

#[test]
fn filter_block_without_keys() {
    let mut builder = FilterBlockBuilder::new(BloomFilter::new(10));
    let block = builder.finish().to_vec();
    // no filters: the offset of the offset array and the base
    assert_eq!(block, vec![0, 0, 0, 0, 11]);
    let reader = FilterBlockReader::new(BloomFilter::new(10), block);
    assert!(reader.key_may_match(0, b"foo"));
    assert!(reader.key_may_match(100000, b"foo"));
}

#[test]
fn filter_block_with_one_range() {
    let mut builder = FilterBlockBuilder::new(BloomFilter::new(10));
    builder.start_block(100);
    builder.add_key(b"foo");
    builder.add_key(b"bar");
    builder.add_key(b"box");
    builder.start_block(200);
    builder.add_key(b"box");
    builder.start_block(300);
    builder.add_key(b"hello");
    let block = builder.finish().to_vec();
    let reader = FilterBlockReader::new(BloomFilter::new(10), block);
    for offset in [100u64, 200, 300, 0, 2047] {
        assert!(reader.key_may_match(offset, b"foo"));
        assert!(reader.key_may_match(offset, b"bar"));
        assert!(reader.key_may_match(offset, b"box"));
        assert!(reader.key_may_match(offset, b"hello"));
        assert!(!reader.key_may_match(offset, b"missing"));
        assert!(!reader.key_may_match(offset, b"other"));
    }
    // beyond the last range there is no filter
    assert!(reader.key_may_match(2048, b"missing"));
}

#[test]
fn filter_block_with_several_ranges() {
    let mut builder = FilterBlockBuilder::new(BloomFilter::new(10));
    // first range
    builder.start_block(0);
    builder.add_key(b"foo");
    builder.start_block(2000);
    builder.add_key(b"bar");
    // second range
    builder.start_block(3100);
    builder.add_key(b"box");
    // third range has no keys; the fourth has
    builder.start_block(9000);
    builder.add_key(b"box");
    builder.add_key(b"hello");
    let block = builder.finish().to_vec();
    assert_eq!(*block.last().unwrap(), 11);
    let reader = FilterBlockReader::new(BloomFilter::new(10), block);

    assert!(reader.key_may_match(0, b"foo"));
    assert!(reader.key_may_match(2000, b"bar"));
    assert!(!reader.key_may_match(0, b"box"));
    assert!(!reader.key_may_match(0, b"hello"));

    assert!(reader.key_may_match(3100, b"box"));
    assert!(!reader.key_may_match(3100, b"foo"));
    assert!(!reader.key_may_match(3100, b"bar"));
    assert!(!reader.key_may_match(3100, b"hello"));

    // an empty filter: the block must be read
    assert!(reader.key_may_match(4100, b"foo"));
    assert!(reader.key_may_match(4100, b"box"));
    assert!(reader.key_may_match(6143, b"anything"));

    assert!(reader.key_may_match(9000, b"box"));
    assert!(reader.key_may_match(9000, b"hello"));
    assert!(!reader.key_may_match(9000, b"foo"));
    assert!(!reader.key_may_match(9000, b"bar"));
}

#[test]
fn bytes_that_are_no_filter_block_let_everything_pass() {
    for bad in [
        vec![],
        vec![11],
        vec![0, 0, 0, 11],
        // the offset array would start beyond the block
        vec![9, 0, 0, 0, 11],
        // the offsets of the filter are not in order
        vec![1, 2, 3, 4, 3, 0, 0, 0, 1, 0, 0, 0, 4, 0, 0, 0, 11],
    ] {
        let reader = FilterBlockReader::new(BloomFilter::new(10), bad);
        assert!(reader.key_may_match(0, b"foo"));
        assert!(reader.key_may_match(5000, b"foo"));
    }
    // a base of 64 or more: every offset is in the first range
    let reader = FilterBlockReader::new(BloomFilter::new(10), vec![0, 0, 0, 0, 0, 0, 0, 0, 200]);
    assert!(reader.key_may_match(u64::MAX, b"foo"));
}

fn word(bytes: &[u8], at: usize) -> usize {
    u32::from_le_bytes([bytes[at], bytes[at + 1], bytes[at + 2], bytes[at + 3]]) as usize
}

#[test]
fn filter_block_is_the_filters_then_their_offsets() {
    let policy = BloomFilter::new(10);
    let mut builder = FilterBlockBuilder::new(policy);
    builder.add_key(b"foo");
    builder.start_block(2000);
    builder.add_key(b"bar");
    builder.start_block(3100);
    builder.add_key(b"box");
    builder.start_block(9000);
    builder.add_key(b"box");
    builder.add_key(b"hello");
    let block = builder.finish().to_vec();

    // the filters that the policy makes of the keys of each range; ranges 2 and 3 have none
    let first = policy.create_filter(&vec![b"foo".to_vec(), b"bar".to_vec()]);
    let second = policy.create_filter(&vec![b"box".to_vec()]);
    let fifth = policy.create_filter(&vec![b"box".to_vec(), b"hello".to_vec()]);
    let mut expected = vec![];
    let mut offsets = vec![];
    for filter in [&first, &second, &vec![], &vec![], &fifth] {
        offsets.push(expected.len() as u32);
        expected.extend_from_slice(filter);
    }
    let array = expected.len() as u32;
    for offset in &offsets {
        expected.extend_from_slice(&offset.to_le_bytes());
    }
    expected.extend_from_slice(&array.to_le_bytes());
    expected.push(11);
    assert_eq!(block, expected);
    assert_eq!(word(&block, block.len() - 5), first.len() + second.len() + fifth.len());
}

#[test]
fn filter_block_ends_with_the_range_of_the_last_keys() {
    // keys wait for range 1: it gets the last filter
    let mut builder = FilterBlockBuilder::new(BloomFilter::new(10));
    builder.start_block(2048);
    builder.add_key(b"a");
    let block = builder.finish().to_vec();
    let array = word(&block, block.len() - 5);
    assert_eq!((block.len() - 5 - array) / 4, 2);
    assert_eq!(word(&block, array), 0);
    assert_eq!(word(&block, array + 4), 0);
    assert!(array > 0);
    // no keys wait: the range of the last offset gets no filter
    let mut builder = FilterBlockBuilder::new(BloomFilter::new(10));
    builder.add_key(b"a");
    builder.start_block(3 * 2048);
    let block = builder.finish().to_vec();
    let array = word(&block, block.len() - 5);
    assert_eq!((block.len() - 5 - array) / 4, 3);
    assert_eq!(word(&block, array + 4), array);
    assert_eq!(word(&block, array + 8), array);
    // nothing at all: the array of offsets is empty
    let mut builder = FilterBlockBuilder::new(BloomFilter::new(10));
    assert_eq!(builder.finish().to_vec(), vec![0, 0, 0, 0, 11]);
}

#[test]
fn earlier_block_offset_changes_nothing() {
    let policy = BloomFilter::new(10);
    let mut plain = FilterBlockBuilder::new(policy);
    plain.start_block(5000);
    plain.add_key(b"one");
    plain.add_key(b"two");
    let expected = plain.finish().to_vec();

    let mut builder = FilterBlockBuilder::new(policy);
    builder.start_block(5000);
    builder.add_key(b"one");
    // an offset in a range that has its filter, and an earlier one in the range that waits
    builder.start_block(100);
    builder.start_block(4100);
    builder.add_key(b"two");
    assert_eq!(builder.finish().to_vec(), expected);
    let reader = FilterBlockReader::new(policy, expected);
    assert!(reader.key_may_match(5000, b"one"));
    assert!(reader.key_may_match(5000, b"two"));
}
