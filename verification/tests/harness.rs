use std::sync::Arc;
use wickdb::filter::bloom::BloomFilter;
use wickdb::options::{NoCache, NoCodec, Options, ReadOptions};
use wickdb::sstable::block::{Block, BlockIterator};
use wickdb::sstable::block_builder::BlockBuilder;
use wickdb::sstable::table::Table;
use wickdb::sstable::table_builder::TableBuilder;
use wickdb::sstable::table_iterator::{new_table_iterator, TableIterator};
use wickdb::storage::{File, MemFile};
use wickdb::util::comparator::{BytewiseComparator, Comparator, Order, ReverseComparator};

// A small deterministic generator, so that every run walks the same path.
struct Rng {
    state: u64,
}

impl Rng {
    fn new(seed: u64) -> Self {
        Rng { state: seed | 1 }
    }

    fn next(&mut self) -> u64 {
        let mut x = self.state;
        x ^= x << 13;
        x ^= x >> 7;
        x ^= x << 17;
        self.state = x;
        x
    }

    fn gen_range(&mut self, low: usize, high: usize) -> usize {
        low + (self.next() % ((high - low) as u64)) as usize
    }
}

// What the harness needs of an iterator.
trait Cursor {
    fn valid(&self) -> bool;
    fn seek_to_first(&mut self);
    fn seek_to_last(&mut self);
    fn seek(&mut self, target: &[u8]);
    fn next(&mut self);
    fn prev(&mut self);
    fn key(&self) -> Vec<u8>;
    fn value(&self) -> Vec<u8>;
}

impl<C: Comparator> Cursor for BlockIterator<C> {
    fn valid(&self) -> bool {
        BlockIterator::valid(self)
    }
    fn seek_to_first(&mut self) {
        BlockIterator::seek_to_first(self)
    }
    fn seek_to_last(&mut self) {
        BlockIterator::seek_to_last(self)
    }
    fn seek(&mut self, target: &[u8]) {
        BlockIterator::seek(self, target)
    }
    fn next(&mut self) {
        BlockIterator::next(self)
    }
    fn prev(&mut self) {
        BlockIterator::prev(self)
    }
    fn key(&self) -> Vec<u8> {
        BlockIterator::key(self).to_vec()
    }
    fn value(&self) -> Vec<u8> {
        BlockIterator::value(self).to_vec()
    }
}

impl<C: Comparator> Cursor for TableIterator<MemFile, C, BloomFilter, NoCodec, NoCache> {
    fn valid(&self) -> bool {
        TableIterator::valid(self)
    }
    fn seek_to_first(&mut self) {
        TableIterator::seek_to_first(self)
    }
    fn seek_to_last(&mut self) {
        TableIterator::seek_to_last(self)
    }
    fn seek(&mut self, target: &[u8]) {
        TableIterator::seek(self, target)
    }
    fn next(&mut self) {
        TableIterator::next(self)
    }
    fn prev(&mut self) {
        TableIterator::prev(self)
    }
    fn key(&self) -> Vec<u8> {
        TableIterator::key(self).to_vec()
    }
    fn value(&self) -> Vec<u8> {
        TableIterator::value(self).to_vec()
    }
}

// A simple wrapper for entries collected in a Vec
struct EntryIterator<C: Comparator> {
    current: usize,
    data: Vec<(Vec<u8>, Vec<u8>)>,
    order: C,
}

impl<C: Comparator> EntryIterator<C> {
    fn new(order: C, data: Vec<(Vec<u8>, Vec<u8>)>) -> Self {
        Self {
            current: data.len(),
            data,
            order,
        }
    }
}

impl<C: Comparator> Cursor for EntryIterator<C> {
    fn valid(&self) -> bool {
        self.current < self.data.len()
    }

    fn seek_to_first(&mut self) {
        self.current = 0
    }

    fn seek_to_last(&mut self) {
        if self.data.is_empty() {
            self.current = 0
        } else {
            self.current = self.data.len() - 1
        }
    }

    fn seek(&mut self, target: &[u8]) {
        for (i, (key, _)) in self.data.iter().enumerate() {
            if self.order.compare(key.as_slice(), target) != Order::Less {
                self.current = i;
                return;
            }
        }
        self.current = self.data.len()
    }

    fn next(&mut self) {
        assert!(self.valid());
        self.current += 1
    }

    fn prev(&mut self) {
        assert!(self.valid());
        if self.current == 0 {
            self.current = self.data.len()
        } else {
            self.current -= 1
        }
    }

    fn key(&self) -> Vec<u8> {
        assert!(self.valid());
        self.data[self.current].0.clone()
    }

    fn value(&self) -> Vec<u8> {
        assert!(self.valid());
        self.data[self.current].1.clone()
    }
}

fn format_kv(key: Vec<u8>, value: Vec<u8>) -> String {
    format!("'{:?}->{:?}'", key, value)
}

fn format_entry(iter: &dyn Cursor) -> String {
    format!("'{:?}->{:?}'", iter.key(), iter.value())
}

fn build_block<C: Comparator + Copy>(
    order: C,
    restart_interval: usize,
    data: &[(Vec<u8>, Vec<u8>)],
) -> Block {
    let mut builder = BlockBuilder::new(restart_interval, order);
    for (key, value) in data {
        builder.add(key.as_slice(), value.as_slice()).unwrap();
    }
    let data = builder.finish();
    Block::new(Vec::from(data)).expect("constructor finish should be ok")
}

fn random_seek_key(rnd: &mut Rng, keys: &[Vec<u8>], reverse: bool) -> Vec<u8> {
    if keys.is_empty() {
        b"foo".to_vec()
    } else {
        let result = keys.get(rnd.gen_range(0, keys.len())).unwrap();
        match rnd.gen_range(0, 3) {
            1 => {
                // Attempt to return something smaller than an existing key
                let mut cloned = result.clone();
                if !cloned.is_empty() && *cloned.last().unwrap() > 0u8 {
                    let last = cloned.last_mut().unwrap();
                    *last -= 1
                }
                cloned
            }
            2 => {
                // Return something larger than an existing key
                let mut cloned = result.clone();
                if reverse {
                    cloned.insert(0, 0)
                } else {
                    cloned.push(0);
                }
                cloned
            }
            _ => result.clone(), // Return an existing key
        }
    }
}

fn check_forward_scan(iter: &mut dyn Cursor, expected: &[(Vec<u8>, Vec<u8>)]) {
    assert!(
        !iter.valid(),
        "iterator should be invalid after being initialized"
    );
    iter.seek_to_first();
    for (key, value) in expected.iter() {
        assert_eq!(format_kv(key.clone(), value.clone()), format_entry(iter));
        iter.next();
    }
    assert!(
        !iter.valid(),
        "iterator should be invalid after yielding all entries"
    );
}

fn check_backward_scan(iter: &mut dyn Cursor, expected: &[(Vec<u8>, Vec<u8>)]) {
    assert!(
        !iter.valid(),
        "iterator should be invalid after being initialized"
    );
    iter.seek_to_last();
    for (key, value) in expected.iter().rev() {
        assert_eq!(format_kv(key.clone(), value.clone()), format_entry(iter));
        iter.prev();
    }
    assert!(
        !iter.valid(),
        "iterator should be invalid after yielding all entries"
    );
}

fn check_random_access(
    rnd: &mut Rng,
    iter: &mut dyn Cursor,
    expected_iter: &mut dyn Cursor,
    keys: &[Vec<u8>],
    reverse: bool,
) {
    assert!(
        !iter.valid(),
        "iterator should be invalid after being initialized"
    );
    for _ in 0..1000 {
        match rnd.gen_range(0, 5) {
            // case for `next`
            0 => {
                if iter.valid() {
                    iter.next();
                    expected_iter.next();
                    if iter.valid() {
                        assert_eq!(format_entry(iter), format_entry(expected_iter));
                    } else {
                        assert_eq!(iter.valid(), expected_iter.valid());
                    }
                }
            }
            // case for `seek_to_first`
            1 => {
                iter.seek_to_first();
                expected_iter.seek_to_first();
                if iter.valid() {
                    assert_eq!(format_entry(iter), format_entry(expected_iter));
                } else {
                    assert_eq!(iter.valid(), expected_iter.valid());
                }
            }
            // case for `seek`
            2 => {
                let rkey = random_seek_key(rnd, keys, reverse);
                let key = rkey.as_slice();
                iter.seek(key);
                expected_iter.seek(key);
                if iter.valid() {
                    assert_eq!(format_entry(iter), format_entry(expected_iter));
                } else {
                    assert_eq!(iter.valid(), expected_iter.valid());
                }
            }
            // case for `prev`
            3 => {
                if iter.valid() {
                    iter.prev();
                    expected_iter.prev();
                    if iter.valid() {
                        assert_eq!(format_entry(iter), format_entry(expected_iter));
                    } else {
                        assert_eq!(iter.valid(), expected_iter.valid());
                    }
                }
            }
            // case for `seek_to_last`
            4 => {
                iter.seek_to_last();
                expected_iter.seek_to_last();
                if iter.valid() {
                    assert_eq!(format_entry(iter), format_entry(expected_iter));
                } else {
                    assert_eq!(iter.valid(), expected_iter.valid());
                }
            }
            _ => { /* ignore */ }
        }
    }
}

// Sorts the pairs in the given order and drops the keys that occur twice.
fn prepare<C: Comparator>(order: &C, kv: &[(Vec<u8>, Vec<u8>)]) -> Vec<(Vec<u8>, Vec<u8>)> {
    let mut data: Vec<(Vec<u8>, Vec<u8>)> = vec![];
    for (key, value) in kv {
        if !data.iter().any(|(k, _)| k == key) {
            data.push((key.clone(), value.clone()));
        }
    }
    data.sort_by(|(a, _), (b, _)| match order.compare(a, b) {
        Order::Less => std::cmp::Ordering::Less,
        Order::Equal => std::cmp::Ordering::Equal,
        Order::Greater => std::cmp::Ordering::Greater,
    });
    data
}

fn do_block_test<C: Comparator + Copy>(
    order: C,
    reverse: bool,
    restart_interval: usize,
    kv: &[(Vec<u8>, Vec<u8>)],
) {
    let data = prepare(&order, kv);
    let keys: Vec<Vec<u8>> = data.iter().map(|(k, _)| k.clone()).collect();
    let block = build_block(order, restart_interval, &data);
    check_forward_scan(&mut block.iter(order), &data);
    check_backward_scan(&mut block.iter(order), &data);
    let mut rnd = Rng::new(0x5eed + restart_interval as u64);
    let mut expected_iter = EntryIterator::new(order, data.clone());
    check_random_access(
        &mut rnd,
        &mut block.iter(order),
        &mut expected_iter,
        &keys,
        reverse,
    );
}

fn harness_options<C: Comparator>(
    order: C,
    restart_interval: usize,
) -> Options<C, BloomFilter, NoCodec, NoCache> {
    let mut options = Options::new(order, NoCodec::new());
    options.block_restart_interval = restart_interval;
    // Use shorter block size for tests to exercise block boundary
    // conditions more
    options.block_size = 256;
    options.paranoid_checks = true;
    options
}

fn build_table<C: Comparator>(
    order: C,
    restart_interval: usize,
    data: &[(Vec<u8>, Vec<u8>)],
) -> Arc<Table<MemFile, C, BloomFilter, NoCodec, NoCache>> {
    let options = harness_options(order, restart_interval);
    let file = MemFile::new();
    let mut builder = TableBuilder::new(file, order, &options);
    for (key, value) in data {
        builder.add(key.as_slice(), value.as_slice()).unwrap();
    }
    builder.finish(false).unwrap();
    let file = builder.into_file();
    let file_len = file.len().unwrap();
    let table = Table::open(file, 0, file_len, &options, order)
        .expect("constructor finish should be ok");
    Arc::new(table)
}

fn do_table_test<C: Comparator>(
    order: C,
    reverse: bool,
    restart_interval: usize,
    kv: &[(Vec<u8>, Vec<u8>)],
) {
    let data = prepare(&order, kv);
    let keys: Vec<Vec<u8>> = data.iter().map(|(k, _)| k.clone()).collect();
    let table = build_table(order, restart_interval, &data);
    let iter = |t: &Arc<Table<MemFile, C, BloomFilter, NoCodec, NoCache>>| {
        new_table_iterator(order, t.clone(), ReadOptions::default())
    };
    check_forward_scan(&mut iter(&table), &data);
    check_backward_scan(&mut iter(&table), &data);
    let mut rnd = Rng::new(0x7ab1e + restart_interval as u64);
    let mut expected_iter = EntryIterator::new(order, data.clone());
    check_random_access(
        &mut rnd,
        &mut iter(&table),
        &mut expected_iter,
        &keys,
        reverse,
    );
    for (key, value) in data.iter() {
        assert_eq!(
            table.get(ReadOptions::default(), key).unwrap(),
            Some(value.clone())
        );
    }
}

fn test_harness(kv: Vec<(Vec<u8>, Vec<u8>)>) {
    for (is_reversed, restart_interval) in [
        (false, 16),
        (false, 1),
        (false, 1024),
        (true, 16),
        (true, 1),
        (true, 1024),
    ] {
        if is_reversed {
            do_table_test(ReverseComparator::default(), true, restart_interval, &kv);
        } else {
            do_table_test(BytewiseComparator::default(), false, restart_interval, &kv);
        }
    }
    for (is_reversed, restart_interval) in [
        (false, 16),
        (false, 1),
        (false, 1024),
        (true, 16),
        (true, 1),
        (true, 1024),
    ] {
        if is_reversed {
            do_block_test(ReverseComparator::default(), true, restart_interval, &kv);
        } else {
            do_block_test(BytewiseComparator::default(), false, restart_interval, &kv);
        }
    }
}

fn pair(k: &[u8], v: &[u8]) -> (Vec<u8>, Vec<u8>) {
    (k.to_vec(), v.to_vec())
}

#[test]
fn test_empty_harness() {
    test_harness(vec![]);
}

#[test]
fn test_simple_empty_key() {
    test_harness(vec![pair(b"", b"v")]);
}

#[test]
fn test_single_key() {
    test_harness(vec![pair(b"abc", b"v")]);
}

#[test]
fn test_mutiple_key() {
    let kv = vec![pair(b"abc", b"v"), pair(b"abcd", b"v"), pair(b"ac", b"v2")];
    test_harness(kv);
}

#[test]
fn test_special_key() {
    test_harness(vec![pair(b"\xff\xff", b"v")]);
}

fn random_key(rnd: &mut Rng, length: usize) -> Vec<u8> {
    let chars = vec![
        '0', '1', 'a', 'b', 'c', 'd', 'e', '\u{00fd}', '\u{00fe}', '\u{00ff}',
    ];
    let mut result = vec![];
    for _ in 0..length {
        let i = rnd.gen_range(0, chars.len());
        let v = chars.get(i).unwrap();
        let mut buf = vec![0; v.len_utf8()];
        v.encode_utf8(&mut buf);
        result.append(&mut buf);
    }
    result
}

fn random_value(rnd: &mut Rng, length: usize) -> Vec<u8> {
    let mut result = vec![0u8; length];
    for i in 0..length {
        let v = rnd.gen_range(0, 96);
        result[i] = v as u8;
    }
    result
}

#[test]
fn test_randomized_key() {
    let mut rnd = Rng::new(301);
    let mut kv = vec![];
    for _ in 0..1000 {
        let key_len = rnd.gen_range(1, 10);
        let key = random_key(&mut rnd, key_len);
        let value_len = rnd.gen_range(1, 5);
        let value = random_value(&mut rnd, value_len);
        kv.push((key, value));
    }
    test_harness(kv);
}

#[test]
fn block_bytes_of_three_short_keys() {
    let mut builder = BlockBuilder::new(2, BytewiseComparator::default());
    builder.add(b"deck", b"v1").unwrap();
    builder.add(b"dock", b"v2").unwrap();
    builder.add(b"duck", b"v3").unwrap();
    let data = builder.finish().to_vec();
    let mut expected: Vec<u8> = vec![];
    expected.extend_from_slice(&[0, 4, 2]);
    expected.extend_from_slice(b"deckv1");
    expected.extend_from_slice(&[1, 3, 2]);
    expected.extend_from_slice(b"ockv2");
    expected.extend_from_slice(&[0, 4, 2]);
    expected.extend_from_slice(b"duckv3");
    expected.extend_from_slice(&[0, 0, 0, 0, 17, 0, 0, 0, 2, 0, 0, 0]);
    assert_eq!(data, expected);
    let block = Block::new(data).unwrap();
    let mut iter = block.iter(BytewiseComparator::default());
    iter.seek_to_first();
    let mut seen = vec![];
    while iter.valid() {
        seen.push((iter.key().to_vec(), iter.value().to_vec()));
        iter.next();
    }
    assert_eq!(
        seen,
        vec![pair(b"deck", b"v1"), pair(b"dock", b"v2"), pair(b"duck", b"v3")]
    );
    iter.seek_to_last();
    let mut back = vec![];
    while iter.valid() {
        back.push((iter.key().to_vec(), iter.value().to_vec()));
        iter.prev();
    }
    seen.reverse();
    assert_eq!(back, seen);
}
