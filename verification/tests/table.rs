use std::cell::{Cell, RefCell};
use std::collections::HashMap;
use std::sync::Arc;
use std::sync::atomic::{AtomicUsize, Ordering};
use wickdb::Error;
use wickdb::filter::bloom::BloomFilter;
use wickdb::options::{BlockCache, Codec, CompressionType, NoCache, NoCodec, Options, ReadOptions};
use wickdb::sstable::{BlockHandle, Footer};
use wickdb::sstable::block::Block;
use wickdb::sstable::seal::{open_block, trailer};
use wickdb::sstable::table::{find_in_block, read_block, Table};
use wickdb::sstable::table_builder::{stored_form, BuilderState, TableBuilder};
use wickdb::sstable::table_iterator::new_table_iterator;
use wickdb::storage::{read_fully, File, MemFile, SeekFrom};
use wickdb::util::comparator::{BytewiseComparator, Descending};

type Bytewise = BytewiseComparator;

fn options(filter: bool) -> Options<Bytewise, BloomFilter, NoCodec, NoCache> {
    let mut o = Options::new(Bytewise::default(), NoCodec::new());
    o.block_size = 256;
    o.paranoid_checks = true;
    if filter {
        o.filter_policy = Some(BloomFilter::new(10));
    }
    o
}

fn key(i: usize) -> Vec<u8> {
    format!("k{:05}", i).into_bytes()
}

fn value(i: usize) -> Vec<u8> {
    format!("value-{}", i).into_bytes()
}

fn build_file(o: &Options<Bytewise, BloomFilter, NoCodec, NoCache>, n: usize) -> Vec<u8> {
    let mut builder = TableBuilder::new(MemFile::new(), Bytewise::default(), o);
    for i in 0..n {
        builder.add(&key(i), &value(i)).unwrap();
    }
    let size = builder.finish(false).unwrap();
    let file = builder.into_file();
    assert_eq!(size as usize, file.data.len());
    file.data
}

fn open(
    o: &Options<Bytewise, BloomFilter, NoCodec, NoCache>,
    data: Vec<u8>,
) -> Result<Table<MemFile, Bytewise, BloomFilter, NoCodec, NoCache>, Error> {
    let len = data.len() as u64;
    Table::open(MemFile::from_bytes(data), 7, len, o, Bytewise::default())
}

#[test]
fn empty_table() {
    for filter in [false, true] {
        let o = options(filter);
        let data = build_file(&o, 0);
        let (footer, _) = Footer::decode_from(&data[data.len() - 48..]).unwrap();
        // the index block has no entries: one restart point and the count
        assert_eq!(footer.index_handle.size, 8);
        let table = open(&o, data).unwrap();
        assert_eq!(table.file_number(), 7);
        assert_eq!(table.get(ReadOptions::default(), b"k").unwrap(), None);
        assert_eq!(table.get(ReadOptions::default(), b"").unwrap(), None);
        let mut iter = new_table_iterator(Bytewise::default(), Arc::new(table), ReadOptions::default());
        assert!(!iter.valid());
        iter.seek_to_first();
        assert!(!iter.valid());
        iter.seek_to_last();
        assert!(!iter.valid());
        iter.seek(b"k");
        assert!(!iter.valid());
        iter.next();
        iter.prev();
        assert!(!iter.valid());
        assert!(iter.status().is_ok());
    }
}

#[test]
fn layout_of_a_small_table() {
    let o = options(false);
    let mut builder = TableBuilder::new(MemFile::new(), Bytewise::default(), &o);
    builder.add(b"deck", b"v1").unwrap();
    builder.add(b"dock", b"v2").unwrap();
    assert_eq!(builder.num_entries(), 2);
    // nothing is written before the block is as large as asked for
    assert_eq!(builder.file_size(), 0);
    let size = builder.finish(true).unwrap();
    let data = builder.into_file().data;
    assert_eq!(size as usize, data.len());
    // the data block, then the metaindex block, the index block and the footer
    let (footer, _) = Footer::decode_from(&data[data.len() - 48..]).unwrap();
    let data_block_size = 9 + 8 + 8;
    assert_eq!(
        footer.meta_index_handle,
        BlockHandle::new(data_block_size + 5, 8)
    );
    assert_eq!(footer.index_handle.offset, data_block_size + 5 + 8 + 5);
    assert_eq!(
        data.len() as u64,
        footer.index_handle.offset + footer.index_handle.size + 5 + 48
    );
    // the trailer of the data block: stored as it is, and the masked checksum
    assert_eq!(data[25], 0);
    assert_eq!(&data[25..30], trailer(&data[..25], 0).as_slice());
    // the index block names the data block under a key from "dock" on
    let file = MemFile::from_bytes(data);
    let index = read_block(&file, &NoCodec::new(), &footer.index_handle, true).unwrap();
    let index = Block::new(index).unwrap();
    let mut it = index.iter(Bytewise::default());
    it.seek_to_first();
    assert!(it.valid());
    assert_eq!(it.key(), b"e");
    assert_eq!(
        BlockHandle::decode_from(it.value()).unwrap().0,
        BlockHandle::new(0, 25)
    );
    it.next();
    assert!(!it.valid());
}

#[test]
fn index_keys_separate_the_blocks() {
    let o = options(false);
    let data = build_file(&o, 500);
    let (footer, _) = Footer::decode_from(&data[data.len() - 48..]).unwrap();
    let file = MemFile::from_bytes(data);
    let codec = NoCodec::new();
    let index = Block::new(read_block(&file, &codec, &footer.index_handle, true).unwrap()).unwrap();
    let mut it = index.iter(Bytewise::default());
    it.seek_to_first();
    let mut blocks = 0;
    let mut seen = 0;
    let mut last_separator: Option<Vec<u8>> = None;
    while it.valid() {
        let separator = it.key().to_vec();
        let (handle, _) = BlockHandle::decode_from(it.value()).unwrap();
        let block = Block::new(read_block(&file, &codec, &handle, true).unwrap()).unwrap();
        let mut entries = block.iter(Bytewise::default());
        entries.seek_to_first();
        assert!(entries.valid());
        while entries.valid() {
            assert_eq!(entries.key(), key(seen).as_slice());
            // after the key of the index entry before, no later than that of this one
            assert!(entries.key() <= separator.as_slice());
            if let Some(before) = &last_separator {
                assert!(before.as_slice() < entries.key());
            }
            seen += 1;
            entries.next();
        }
        last_separator = Some(separator);
        blocks += 1;
        it.next();
    }
    assert_eq!(seen, 500);
    assert!(blocks > 10);
}

#[test]
fn point_lookups() {
    for filter in [false, true] {
        let o = options(filter);
        let table = open(&o, build_file(&o, 1000)).unwrap();
        for i in (0..1000).step_by(7) {
            assert_eq!(
                table.get(ReadOptions::default(), &key(i)).unwrap(),
                Some(value(i))
            );
        }
        for absent in [&b""[..], b"k", b"k00000a", b"k00500x", b"k99999", b"zz-absent"] {
            assert_eq!(table.get(ReadOptions::default(), absent).unwrap(), None);
        }
    }
}

#[test]
fn builder_states() {
    let o = options(true);
    let mut builder = TableBuilder::new(MemFile::new(), Bytewise::default(), &o);
    builder.add(b"b", b"1").unwrap();
    for late in [&b"a"[..], b"b"] {
        let e = builder.add(late, b"2").unwrap_err();
        assert_eq!(
            e.to_string(),
            "invalid argument: key is not greater than the last added key"
        );
    }
    assert_eq!(builder.num_entries(), 1);
    builder.add(b"c", b"3").unwrap();
    builder.flush().unwrap();
    assert!(builder.file_size() > 0);
    // flushing without entries writes nothing
    let size = builder.file_size();
    builder.flush().unwrap();
    assert_eq!(builder.file_size(), size);
    builder.finish(false).unwrap();
    for r in [
        builder.add(b"d", b"4").map(|_| 0),
        builder.flush().map(|_| 0),
        builder.finish(false),
    ] {
        assert_eq!(
            r.unwrap_err().to_string(),
            "invalid argument: the table builder is not open"
        );
    }
    let data = builder.into_file().data;
    let table = open(&o, data).unwrap();
    assert_eq!(table.get(ReadOptions::default(), b"c").unwrap(), Some(b"3".to_vec()));

    let mut given_up = TableBuilder::new(MemFile::new(), Bytewise::default(), &o);
    given_up.add(b"a", b"1").unwrap();
    given_up.abandon();
    assert!(given_up.add(b"b", b"2").is_err());
    assert!(given_up.flush().is_err());
    assert!(given_up.finish(true).is_err());
    assert_ne!(BuilderState::Open, BuilderState::Abandoned);
}

// A file that fails every write after the first few.
struct FailingFile {
    writes_left: usize,
}

impl File for FailingFile {
    fn seek(&mut self, _pos: SeekFrom) -> Result<u64, Error> {
        Err(Error::io("no position"))
    }
    fn read(&mut self, _len: usize) -> Result<Vec<u8>, Error> {
        Err(Error::io("no position"))
    }
    fn read_all(&mut self, _buf: &mut Vec<u8>) -> Result<usize, Error> {
        Err(Error::io("no position"))
    }
    fn lock(&self) -> Result<(), Error> {
        Ok(())
    }
    fn unlock(&self) -> Result<(), Error> {
        Ok(())
    }
    fn write(&mut self, buf: &[u8]) -> Result<usize, Error> {
        if self.writes_left == 0 {
            return Err(Error::io("disk full"));
        }
        self.writes_left -= 1;
        Ok(buf.len())
    }
    fn flush(&mut self) -> Result<(), Error> {
        Ok(())
    }
    fn close(&mut self) -> Result<(), Error> {
        Ok(())
    }
    fn len(&self) -> Result<u64, Error> {
        Err(Error::io("unknown length"))
    }
    fn read_at(&self, _offset: u64, _len: usize) -> Result<Vec<u8>, Error> {
        Err(Error::io("write only"))
    }
}

#[test]
fn a_failing_file_ends_the_building() {
    let o = options(false);
    for writes in 0..6 {
        let mut builder = TableBuilder::new(FailingFile { writes_left: writes }, Bytewise::default(), &o);
        let mut failed = None;
        for i in 0..100 {
            if let Err(e) = builder.add(&key(i), &value(i)) {
                failed = Some(e);
                break;
            }
        }
        let e = match failed {
            Some(e) => e,
            None => builder.finish(false).unwrap_err(),
        };
        assert_eq!(e.to_string(), "I/O operation error: disk full");
        // the builder has given the table up
        assert_eq!(
            builder.add(b"zzz", b"").unwrap_err().to_string(),
            "invalid argument: the table builder is not open"
        );
    }
    assert!(!FailingFile { writes_left: 0 }.is_empty());
    assert!(MemFile::new().is_empty());
    assert!(!MemFile::from_bytes(vec![1]).is_empty());
}

#[test]
fn changed_magic_number_is_refused_on_open() {
    let o = options(false);
    let mut data = build_file(&o, 10);
    let last = data.len() - 1;
    data[last] ^= 0xff;
    let e = open(&o, data).err().unwrap();
    assert_eq!(
        e.to_string(),
        "data corruption: not an sstable (bad magic number)"
    );
    let e = open(&o, vec![0; 47]).err().unwrap();
    assert_eq!(
        e.to_string(),
        "data corruption: file is too short to be an sstable"
    );
    // the length given is longer than the file
    let data = build_file(&o, 10);
    let len = data.len() as u64 + 1;
    let e = Table::open(MemFile::from_bytes(data), 0, len, &o, Bytewise::default())
        .err()
        .unwrap();
    assert_eq!(e.to_string(), "I/O operation error: failed to fill whole buffer");
}

#[test]
fn every_flipped_bit_of_a_block_is_noticed() {
    let o = options(false);
    let good = build_file(&o, 40);
    let (footer, _) = Footer::decode_from(&good[good.len() - 48..]).unwrap();
    let first = BlockHandle::new(0, {
        // the first data block ends where the second begins
        let file = MemFile::from_bytes(good.clone());
        let index =
            Block::new(read_block(&file, &NoCodec::new(), &footer.index_handle, true).unwrap())
                .unwrap();
        let mut it = index.iter(Bytewise::default());
        it.seek_to_first();
        BlockHandle::decode_from(it.value()).unwrap().0.size
    });
    let codec = NoCodec::new();
    for i in 0..(first.size as usize + 5) {
        for bit in [0u8, 3, 7] {
            let mut bad = good.clone();
            bad[i] ^= 1 << bit;
            let file = MemFile::from_bytes(bad);
            let e = read_block(&file, &codec, &first, true).unwrap_err();
            assert_eq!(e.to_string(), "data corruption: block checksum mismatch");
        }
    }
    // the same through a table: lookups and cursors report the corruption
    let mut bad = good.clone();
    bad[3] ^= 0x10;
    let table = Arc::new(open(&o, bad.clone()).unwrap());
    let e = table.get(ReadOptions::default(), &key(0)).unwrap_err();
    assert!(e.is_corruption());
    let mut iter = new_table_iterator(Bytewise::default(), table.clone(), ReadOptions::default());
    iter.seek_to_first();
    assert!(!iter.valid());
    assert!(iter.status().unwrap_err().is_corruption());
    // once an error was met the cursor stays where it is
    iter.seek_to_last();
    assert!(!iter.valid());
    // a flipped bit in the index block is noticed on open
    let mut bad_index = good.clone();
    bad_index[footer.index_handle.offset as usize + 1] ^= 1;
    assert!(open(&o, bad_index).err().unwrap().is_corruption());
    // without checks the flipped bit in a value goes through
    let mut careless = options(false);
    careless.paranoid_checks = false;
    let mut flipped = good.clone();
    flipped[8] ^= 0x01;
    let table = open(&careless, flipped).unwrap();
    let quiet = ReadOptions {
        verify_checksums: false,
        fill_cache: false,
    };
    assert_ne!(table.get(quiet, &key(0)).unwrap(), Some(value(0)));
    assert!(table.get(ReadOptions::default(), &key(0)).is_err());
}

#[test]
fn sealed_blocks() {
    let payload = b"some block contents".to_vec();
    for kind in [0u8, 1] {
        let mut raw = payload.clone();
        raw.extend_from_slice(&trailer(&payload, kind));
        assert_eq!(raw.len(), payload.len() + 5);
        assert_eq!(raw[payload.len()], kind);
        let mut opened = raw.clone();
        let t = open_block(&mut opened, payload.len(), true).unwrap();
        assert_eq!(t.to_byte(), kind);
        assert_eq!(opened, payload);
    }
    // a compression byte that stands for nothing
    let mut raw = payload.clone();
    raw.extend_from_slice(&trailer(&payload, 2));
    let e = open_block(&mut raw.clone(), payload.len(), true).unwrap_err();
    assert_eq!(e.to_string(), "invalid argument: unknown compression type");
    assert_eq!(CompressionType::from_byte(2), None);
    assert_eq!(CompressionType::from_byte(1), Some(CompressionType::Snappy));
    assert_eq!(CompressionType::NoCompression.to_byte(), 0);
    // the wrong length
    let e = open_block(&mut raw.clone(), payload.len() - 1, false).unwrap_err();
    assert_eq!(e.to_string(), "data corruption: truncated block read");
    // a wrong checksum passes only where it is not looked at
    raw[0] ^= 1;
    raw[payload.len()] = 0;
    assert!(open_block(&mut raw.clone(), payload.len(), true).is_err());
    assert!(open_block(&mut raw.clone(), payload.len(), false).is_ok());
}

// Stores runs of equal bytes as a count and the byte.
#[derive(Clone, Copy)]
struct RunLength;

impl Codec for RunLength {
    fn compress(&self, raw: &[u8]) -> Option<Vec<u8>> {
        let mut out = vec![];
        let mut i = 0;
        while i < raw.len() {
            let mut n = 1;
            while i + n < raw.len() && raw[i + n] == raw[i] && n < 255 {
                n += 1;
            }
            out.push(n as u8);
            out.push(raw[i]);
            i += n;
        }
        Some(out)
    }

    fn decompress(&self, stored: &[u8]) -> Option<Vec<u8>> {
        if stored.len() % 2 != 0 {
            return None;
        }
        let mut out = vec![];
        for pair in stored.chunks(2) {
            if pair[0] == 0 {
                return None;
            }
            out.extend(std::iter::repeat(pair[1]).take(pair[0] as usize));
        }
        Some(out)
    }
}

#[test]
fn compressed_form_is_stored_only_where_it_is_materially_shorter() {
    let raw = vec![7u8; 800];
    // less than 700 bytes: more than an eighth shorter
    let (kind, stored) = stored_form(raw.clone(), Some(vec![1; 699]), CompressionType::Snappy);
    assert_eq!((kind, stored.len()), (CompressionType::Snappy, 699));
    let (kind, stored) = stored_form(raw.clone(), Some(vec![1; 700]), CompressionType::Snappy);
    assert_eq!((kind, stored), (CompressionType::NoCompression, raw.clone()));
    let (kind, _) = stored_form(raw.clone(), Some(vec![1; 900]), CompressionType::Snappy);
    assert_eq!(kind, CompressionType::NoCompression);
    let (kind, _) = stored_form(raw.clone(), None, CompressionType::Snappy);
    assert_eq!(kind, CompressionType::NoCompression);
    let (kind, _) = stored_form(raw.clone(), Some(vec![1; 10]), CompressionType::NoCompression);
    assert_eq!(kind, CompressionType::NoCompression);
    let (kind, stored) = stored_form(vec![], Some(vec![]), CompressionType::Snappy);
    assert_eq!((kind, stored), (CompressionType::NoCompression, vec![]));
}

#[test]
fn table_with_compressed_blocks() {
    let mut o: Options<Bytewise, BloomFilter, RunLength, NoCache> =
        Options::new(Bytewise::default(), RunLength);
    o.block_size = 512;
    o.compression = CompressionType::Snappy;
    o.paranoid_checks = true;
    let mut builder = TableBuilder::new(MemFile::new(), Bytewise::default(), &o);
    let long = vec![b'x'; 300];
    for i in 0..50 {
        // values of one byte repeated compress well; the others do not
        let v = if i % 2 == 0 { long.clone() } else { value(i) };
        builder.add(&key(i), &v).unwrap();
    }
    let size = builder.finish(false).unwrap();
    let data = builder.into_file().data;
    assert!((size as usize) < 50 * 150);
    let len = data.len() as u64;
    let table = Arc::new(
        Table::open(MemFile::from_bytes(data.clone()), 0, len, &o, Bytewise::default()).unwrap(),
    );
    let mut iter = new_table_iterator(Bytewise::default(), table.clone(), ReadOptions::default());
    iter.seek_to_first();
    for i in 0..50 {
        assert!(iter.valid());
        assert_eq!(iter.key(), key(i).as_slice());
        let v = if i % 2 == 0 { long.clone() } else { value(i) };
        assert_eq!(iter.value(), v.as_slice());
        iter.next();
    }
    assert!(!iter.valid());
    assert!(iter.status().is_ok());
    // read with a codec that knows no compressed form, the compressed blocks are refused
    let mut plain: Options<Bytewise, BloomFilter, NoCodec, NoCache> =
        Options::new(Bytewise::default(), NoCodec::new());
    plain.paranoid_checks = true;
    match Table::open(MemFile::from_bytes(data), 0, len, &plain, Bytewise::default()) {
        Ok(table) => {
            let e = table.get(ReadOptions::default(), &key(0)).unwrap_err();
            assert_eq!(
                e.to_string(),
                "data corruption: corrupted compressed block contents"
            );
        }
        Err(e) => assert_eq!(
            e.to_string(),
            "data corruption: corrupted compressed block contents"
        ),
    }
}

// A file that counts the reads made of it.
struct CountingFile {
    data: Vec<u8>,
    reads: Arc<AtomicUsize>,
}

impl File for CountingFile {
    fn seek(&mut self, _pos: SeekFrom) -> Result<u64, Error> {
        Err(Error::io("no position"))
    }
    fn read(&mut self, _len: usize) -> Result<Vec<u8>, Error> {
        Err(Error::io("no position"))
    }
    fn read_all(&mut self, _buf: &mut Vec<u8>) -> Result<usize, Error> {
        Err(Error::io("no position"))
    }
    fn lock(&self) -> Result<(), Error> {
        Ok(())
    }
    fn unlock(&self) -> Result<(), Error> {
        Ok(())
    }
    fn write(&mut self, buf: &[u8]) -> Result<usize, Error> {
        self.data.extend_from_slice(buf);
        Ok(buf.len())
    }
    fn flush(&mut self) -> Result<(), Error> {
        Ok(())
    }
    fn close(&mut self) -> Result<(), Error> {
        Ok(())
    }
    fn len(&self) -> Result<u64, Error> {
        Ok(self.data.len() as u64)
    }
    fn read_at(&self, offset: u64, len: usize) -> Result<Vec<u8>, Error> {
        self.reads.fetch_add(1, Ordering::SeqCst);
        let start = std::cmp::min(offset as usize, self.data.len());
        let end = std::cmp::min(start + len, self.data.len());
        Ok(self.data[start..end].to_vec())
    }
}

#[test]
fn filter_spares_the_read_of_the_data_block() {
    let o = options(true);
    let reads = Arc::new(AtomicUsize::new(0));
    let mut builder = TableBuilder::new(
        CountingFile { data: vec![], reads: reads.clone() },
        Bytewise::default(),
        &o,
    );
    for i in 0..10000 {
        builder.add(format!("k{}", i).as_bytes(), &value(i)).unwrap_or(());
    }
    // keys came in the order of their numbers, not of their bytes: only some were taken
    assert!(builder.num_entries() > 0);
    let mut builder = TableBuilder::new(
        CountingFile { data: vec![], reads: reads.clone() },
        Bytewise::default(),
        &o,
    );
    let mut keys: Vec<Vec<u8>> = (0..10000).map(|i| format!("k{}", i).into_bytes()).collect();
    keys.sort();
    for (i, k) in keys.iter().enumerate() {
        builder.add(k, &value(i)).unwrap();
    }
    builder.finish(false).unwrap();
    let file = builder.into_file();
    let len = file.data.len() as u64;
    assert_eq!(reads.load(Ordering::SeqCst), 0);
    let table = Table::open(file, 0, len, &o, Bytewise::default()).unwrap();
    // the footer, the index block, the metaindex block and the filter block
    assert_eq!(reads.load(Ordering::SeqCst), 4);
    // a key that is there: one read, of its data block
    assert_eq!(
        table.get(ReadOptions::default(), b"k5000").unwrap(),
        Some(value(keys.iter().position(|k| k == b"k5000").unwrap()))
    );
    assert_eq!(reads.load(Ordering::SeqCst), 5);
    // a key that is not there: the index names no block for it, or the filter refuses it
    assert_eq!(table.get(ReadOptions::default(), b"zz-absent").unwrap(), None);
    assert_eq!(reads.load(Ordering::SeqCst), 5);
    let mut refused = 0;
    for i in 0..1000 {
        let before = reads.load(Ordering::SeqCst);
        let absent = format!("k{}x", i).into_bytes();
        assert_eq!(table.get(ReadOptions::default(), &absent).unwrap(), None);
        assert!(reads.load(Ordering::SeqCst) - before <= 1);
        if reads.load(Ordering::SeqCst) == before {
            refused += 1;
        }
    }
    assert!(refused > 950);
    // without a filter every lookup of a key within the range reads a block
    let plain = options(false);
    let reads2 = Arc::new(AtomicUsize::new(0));
    let mut builder = TableBuilder::new(
        CountingFile { data: vec![], reads: reads2.clone() },
        Bytewise::default(),
        &plain,
    );
    for (i, k) in keys.iter().enumerate() {
        builder.add(k, &value(i)).unwrap();
    }
    builder.finish(false).unwrap();
    let file = builder.into_file();
    let len = file.data.len() as u64;
    let table = Table::open(file, 0, len, &plain, Bytewise::default()).unwrap();
    let before = reads2.load(Ordering::SeqCst);
    assert_eq!(before, 2);
    assert_eq!(table.get(ReadOptions::default(), b"k5000x").unwrap(), None);
    assert_eq!(reads2.load(Ordering::SeqCst), before + 1);
}

// A cache that keeps every block it is given.
#[derive(Default)]
struct KeepAll {
    blocks: RefCell<HashMap<(u64, u64), Arc<Vec<u8>>>>,
    hits: Cell<usize>,
}

impl<'a> BlockCache for &'a KeepAll {
    fn lookup(&self, table_id: u64, offset: u64) -> Option<Arc<Vec<u8>>> {
        let found = self.blocks.borrow().get(&(table_id, offset)).cloned();
        if found.is_some() {
            self.hits.set(self.hits.get() + 1);
        }
        found
    }

    fn insert(&self, table_id: u64, offset: u64, block: Arc<Vec<u8>>) {
        self.blocks.borrow_mut().insert((table_id, offset), block);
    }
}

#[test]
fn cached_blocks_are_not_read_again() {
    let plain = options(false);
    let data = build_file(&plain, 200);
    let cache = KeepAll::default();
    let mut o: Options<Bytewise, BloomFilter, NoCodec, &KeepAll> =
        Options::new(Bytewise::default(), NoCodec::new());
    o.paranoid_checks = true;
    o.block_cache = Some(&cache);
    let reads = Arc::new(AtomicUsize::new(0));
    let len = data.len() as u64;
    let file = CountingFile { data: data.clone(), reads: reads.clone() };
    let table = Arc::new(Table::open(file, 3, len, &o, Bytewise::default()).unwrap());
    let after_open = reads.load(Ordering::SeqCst);
    assert!(cache.blocks.borrow().is_empty());
    // a read that is not to fill the cache leaves it empty
    let quiet = ReadOptions { verify_checksums: true, fill_cache: false };
    assert_eq!(table.get(quiet, &key(0)).unwrap(), Some(value(0)));
    assert_eq!(reads.load(Ordering::SeqCst), after_open + 1);
    assert!(cache.blocks.borrow().is_empty());
    // the first read fills it, the second is served from it
    assert_eq!(table.get(ReadOptions::default(), &key(0)).unwrap(), Some(value(0)));
    assert_eq!(reads.load(Ordering::SeqCst), after_open + 2);
    assert_eq!(cache.blocks.borrow().len(), 1);
    assert!(cache.blocks.borrow().contains_key(&(3, 0)));
    assert_eq!(table.get(ReadOptions::default(), &key(1)).unwrap(), Some(value(1)));
    assert_eq!(reads.load(Ordering::SeqCst), after_open + 2);
    assert_eq!(cache.hits.get(), 1);
    // a scan reads every block once, and a second scan none
    let mut iter = new_table_iterator(Bytewise::default(), table.clone(), ReadOptions::default());
    iter.seek_to_first();
    let mut n = 0;
    while iter.valid() {
        assert_eq!(iter.key(), key(n).as_slice());
        n += 1;
        iter.next();
    }
    assert_eq!(n, 200);
    let blocks = cache.blocks.borrow().len();
    assert_eq!(reads.load(Ordering::SeqCst), after_open + 1 + blocks);
    let before = reads.load(Ordering::SeqCst);
    iter.seek_to_last();
    while iter.valid() {
        iter.prev();
    }
    assert_eq!(reads.load(Ordering::SeqCst), before);
    // a block that is refused is not kept
    let mut bad = data.clone();
    bad[3] ^= 0x10;
    let other = KeepAll::default();
    let mut o2: Options<Bytewise, BloomFilter, NoCodec, &KeepAll> =
        Options::new(Bytewise::default(), NoCodec::new());
    o2.block_cache = Some(&other);
    let table = Table::open(MemFile::from_bytes(bad), 4, len, &o2, Bytewise::default()).unwrap();
    assert!(table.get(ReadOptions::default(), &key(0)).is_err());
    assert!(other.blocks.borrow().is_empty());
    // kept bytes that are no block are read again from the file
    other.blocks.borrow_mut().insert((5, 0), Arc::new(vec![1, 2]));
    let table = Table::open(MemFile::from_bytes(data), 5, len, &o2, Bytewise::default()).unwrap();
    assert_eq!(table.get(ReadOptions::default(), &key(0)).unwrap(), Some(value(0)));
    assert!(NoCache::new().lookup(0, 0).is_none());
}

#[test]
fn table_in_descending_order() {
    let order = Descending::new(Bytewise::default());
    let o: Options<Descending<Bytewise>, BloomFilter, NoCodec, NoCache> = Options::new(order, NoCodec::new());
    let mut builder = TableBuilder::new(MemFile::new(), order, &o);
    for k in ["c", "b", "a"] {
        builder.add(k.as_bytes(), k.to_uppercase().as_bytes()).unwrap();
    }
    assert!(builder.add(b"b", b"again").is_err());
    builder.finish(false).unwrap();
    let data = builder.into_file().data;
    let len = data.len() as u64;
    let table = Arc::new(Table::open(MemFile::from_bytes(data), 0, len, &o, order).unwrap());
    let mut iter = new_table_iterator(order, table.clone(), ReadOptions::default());
    iter.seek_to_first();
    let mut seen = vec![];
    while iter.valid() {
        seen.push((iter.key().to_vec(), iter.value().to_vec()));
        iter.next();
    }
    assert_eq!(
        seen,
        vec![
            (b"c".to_vec(), b"C".to_vec()),
            (b"b".to_vec(), b"B".to_vec()),
            (b"a".to_vec(), b"A".to_vec()),
        ]
    );
    iter.seek(b"b");
    assert!(iter.valid());
    assert_eq!(iter.key(), b"b");
    iter.prev();
    assert_eq!(iter.key(), b"c");
    iter.seek(b"bb");
    assert_eq!(iter.key(), b"b");
    iter.seek(b"");
    assert!(!iter.valid());
    assert_eq!(table.get(ReadOptions::default(), b"a").unwrap(), Some(b"A".to_vec()));
}

#[test]
fn lookup_in_one_block() {
    let mut builder = wickdb::sstable::block_builder::BlockBuilder::new(4, Bytewise::default());
    for i in 0..20 {
        builder.add(&key(2 * i), &value(i)).unwrap();
    }
    let block = Block::new(builder.finish().to_vec()).unwrap();
    assert_eq!(
        find_in_block(&block, Bytewise::default(), &key(10)).unwrap(),
        Some(value(5))
    );
    assert_eq!(find_in_block(&block, Bytewise::default(), &key(11)).unwrap(), None);
    assert_eq!(find_in_block(&block, Bytewise::default(), b"zzz").unwrap(), None);
}

// A file that hands out a few bytes at a time and is interrupted now and then.
struct SlowFile {
    data: Vec<u8>,
    calls: AtomicUsize,
}

impl File for SlowFile {
    fn seek(&mut self, _pos: SeekFrom) -> Result<u64, Error> {
        Err(Error::io("no position"))
    }
    fn read(&mut self, _len: usize) -> Result<Vec<u8>, Error> {
        Err(Error::io("no position"))
    }
    fn read_all(&mut self, _buf: &mut Vec<u8>) -> Result<usize, Error> {
        Err(Error::io("no position"))
    }
    fn lock(&self) -> Result<(), Error> {
        Ok(())
    }
    fn unlock(&self) -> Result<(), Error> {
        Ok(())
    }
    fn write(&mut self, buf: &[u8]) -> Result<usize, Error> {
        Ok(buf.len())
    }
    fn flush(&mut self) -> Result<(), Error> {
        Ok(())
    }
    fn close(&mut self) -> Result<(), Error> {
        Ok(())
    }
    fn len(&self) -> Result<u64, Error> {
        Ok(self.data.len() as u64)
    }
    fn read_at(&self, offset: u64, len: usize) -> Result<Vec<u8>, Error> {
        let call = self.calls.fetch_add(1, Ordering::SeqCst);
        if call % 3 == 1 {
            return Err(Error::IO {
                interrupted: true,
                message: "interrupted".to_string(),
            });
        }
        let start = std::cmp::min(offset as usize, self.data.len());
        let end = std::cmp::min(start + std::cmp::min(len, 3), self.data.len());
        Ok(self.data[start..end].to_vec())
    }
}

#[test]
fn exact_reads_gather_the_bytes_of_several_reads() {
    let data: Vec<u8> = (0u8..100).collect();
    let file = SlowFile { data: data.clone(), calls: AtomicUsize::new(0) };
    assert_eq!(file.read_exact_at(10, 20).unwrap(), data[10..30].to_vec());
    assert_eq!(read_fully(&file, 10, 20).unwrap(), data[10..30].to_vec());
    assert_eq!(file.read_exact_at(95, 5).unwrap(), data[95..].to_vec());
    assert_eq!(file.read_exact_at(0, 0).unwrap(), Vec::<u8>::new());
    for r in [file.read_exact_at(95, 6), read_fully(&file, 95, 6), file.read_exact_at(200, 1)] {
        assert_eq!(
            r.unwrap_err().to_string(),
            "I/O operation error: failed to fill whole buffer"
        );
    }
    // an error that is not an interruption ends the reading
    let failing = FailingFile { writes_left: 0 };
    assert_eq!(
        failing.read_exact_at(0, 1).unwrap_err().to_string(),
        "I/O operation error: write only"
    );
    assert_eq!(
        read_fully(&failing, 0, 1).unwrap_err().to_string(),
        "I/O operation error: write only"
    );
    // a table can be read through such a file
    let o = options(true);
    let table_bytes = build_file(&o, 300);
    let len = table_bytes.len() as u64;
    let slow = SlowFile { data: table_bytes, calls: AtomicUsize::new(0) };
    let table = Table::open(slow, 0, len, &o, Bytewise::default()).unwrap();
    assert_eq!(table.get(ReadOptions::default(), &key(150)).unwrap(), Some(value(150)));
}

#[test]
fn error_texts() {
    assert_eq!(Error::corruption("x").to_string(), "data corruption: x");
    assert_eq!(Error::invalid_argument("y").to_string(), "invalid argument: y");
    assert_eq!(Error::io("z").to_string(), "I/O operation error: z");
    assert_eq!(Error::NotFound.to_string(), "key seeking failed");
    assert!(Error::corruption("x").is_corruption());
    assert!(!Error::NotFound.is_corruption());
    let copy = Error::io("z").duplicate();
    assert_eq!(copy.to_string(), "I/O operation error: z");
}

#[test]
fn block_beyond_the_end_of_the_file_is_refused() {
    let payload = b"some block contents".to_vec();
    let mut data = payload.clone();
    data.extend_from_slice(&trailer(&payload, 0));
    let whole = MemFile::from_bytes(data.clone());
    let size = payload.len() as u64;
    assert_eq!(
        read_block(&whole, &NoCodec::new(), &BlockHandle::new(0, size), true).unwrap(),
        payload
    );
    // one byte of the trailer is missing
    let short = MemFile::from_bytes(data[..data.len() - 1].to_vec());
    let e = read_block(&short, &NoCodec::new(), &BlockHandle::new(0, size), true).unwrap_err();
    assert_eq!(
        e.to_string(),
        "I/O operation error: failed to fill whole buffer"
    );
    // the block starts after the end of the file
    let e = read_block(&whole, &NoCodec::new(), &BlockHandle::new(100, 1), false).unwrap_err();
    assert_eq!(
        e.to_string(),
        "I/O operation error: failed to fill whole buffer"
    );
    // a size that no buffer can have
    let e = read_block(&whole, &NoCodec::new(), &BlockHandle::new(0, u64::MAX), false)
        .unwrap_err();
    assert_eq!(e.to_string(), "data corruption: truncated block read");
    // an empty block at the end of the file still has a trailer to read
    let e = read_block(&whole, &NoCodec::new(), &BlockHandle::new(data.len() as u64, 0), false)
        .unwrap_err();
    assert_eq!(
        e.to_string(),
        "I/O operation error: failed to fill whole buffer"
    );
}

#[test]
fn reading_nothing_asks_the_file_for_nothing() {
    let failing = FailingFile { writes_left: 0 };
    assert_eq!(failing.read_exact_at(0, 0).unwrap(), Vec::<u8>::new());
    assert_eq!(failing.read_exact_at(1 << 40, 0).unwrap(), Vec::<u8>::new());
    assert_eq!(read_fully(&failing, 7, 0).unwrap(), Vec::<u8>::new());
    let slow = SlowFile { data: vec![1, 2, 3], calls: AtomicUsize::new(0) };
    assert_eq!(slow.read_exact_at(100, 0).unwrap(), Vec::<u8>::new());
    assert_eq!(slow.calls.load(Ordering::SeqCst), 0);
}

#[test]
fn reads_go_on_where_the_last_one_ended() {
    // three bytes a read, every third call interrupted: 20 bytes take seven reads that bring
    // bytes, and the interrupted ones are tried again
    let data: Vec<u8> = (0u8..100).collect();
    let slow = SlowFile { data: data.clone(), calls: AtomicUsize::new(0) };
    assert_eq!(slow.read_exact_at(10, 20).unwrap(), data[10..30].to_vec());
    assert_eq!(slow.calls.load(Ordering::SeqCst), 10);
    // the end of the file after some reads: an error, and no part of the bytes
    let slow = SlowFile { data: data.clone(), calls: AtomicUsize::new(0) };
    let e = slow.read_exact_at(90, 11).unwrap_err();
    assert_eq!(e.to_string(), "I/O operation error: failed to fill whole buffer");
    assert!(slow.calls.load(Ordering::SeqCst) > 3);
}

#[test]
fn entries_are_counted() {
    let o = options(false);
    let mut builder = TableBuilder::new(MemFile::new(), Bytewise::default(), &o);
    assert_eq!(builder.num_entries(), 0);
    for i in 0..300 {
        builder.add(&key(i), &value(i)).unwrap();
        assert_eq!(builder.num_entries(), i as u64 + 1);
    }
    // an entry that is refused is not counted
    assert!(builder.add(&key(0), &value(0)).is_err());
    assert_eq!(builder.num_entries(), 300);
    builder.finish(false).unwrap();
    assert_eq!(builder.num_entries(), 300);
}

// A file that counts what is done to it.
struct CountedFile {
    bytes: Vec<u8>,
    writes: Arc<AtomicUsize>,
    flushes: Arc<AtomicUsize>,
    closes: Arc<AtomicUsize>,
}

impl File for CountedFile {
    fn seek(&mut self, _pos: SeekFrom) -> Result<u64, Error> {
        Err(Error::io("no position"))
    }
    fn read(&mut self, _len: usize) -> Result<Vec<u8>, Error> {
        Err(Error::io("no position"))
    }
    fn read_all(&mut self, _buf: &mut Vec<u8>) -> Result<usize, Error> {
        Err(Error::io("no position"))
    }
    fn lock(&self) -> Result<(), Error> {
        Ok(())
    }
    fn unlock(&self) -> Result<(), Error> {
        Ok(())
    }
    fn write(&mut self, buf: &[u8]) -> Result<usize, Error> {
        self.writes.fetch_add(1, Ordering::SeqCst);
        self.bytes.extend_from_slice(buf);
        Ok(buf.len())
    }
    fn flush(&mut self) -> Result<(), Error> {
        self.flushes.fetch_add(1, Ordering::SeqCst);
        Ok(())
    }
    fn close(&mut self) -> Result<(), Error> {
        self.closes.fetch_add(1, Ordering::SeqCst);
        Ok(())
    }
    fn len(&self) -> Result<u64, Error> {
        Ok(self.bytes.len() as u64)
    }
    fn read_at(&self, _offset: u64, _len: usize) -> Result<Vec<u8>, Error> {
        Err(Error::io("write only"))
    }
}

fn counted() -> (CountedFile, Arc<AtomicUsize>, Arc<AtomicUsize>, Arc<AtomicUsize>) {
    let writes = Arc::new(AtomicUsize::new(0));
    let flushes = Arc::new(AtomicUsize::new(0));
    let closes = Arc::new(AtomicUsize::new(0));
    let file = CountedFile {
        bytes: vec![],
        writes: writes.clone(),
        flushes: flushes.clone(),
        closes: closes.clone(),
    };
    (file, writes, flushes, closes)
}

#[test]
fn finishing_flushes_where_it_is_asked_to() {
    let o = options(false);
    for sync in [false, true] {
        let (file, writes, flushes, closes) = counted();
        let mut builder = TableBuilder::new(file, Bytewise::default(), &o);
        builder.add(b"a", b"1").unwrap();
        assert_eq!(writes.load(Ordering::SeqCst), 0);
        builder.finish(sync).unwrap();
        // the data block, the metaindex block and the index block with a trailer each, and
        // the footer
        assert_eq!(writes.load(Ordering::SeqCst), 7);
        // one flush after the data block, and one more where a sync is asked for
        assert_eq!(flushes.load(Ordering::SeqCst), if sync { 2 } else { 1 });
        assert_eq!(closes.load(Ordering::SeqCst), 1);
    }
    // an empty table: nothing to flush but what is asked for
    let (file, writes, flushes, closes) = counted();
    let mut builder = TableBuilder::new(file, Bytewise::default(), &o);
    builder.finish(true).unwrap();
    assert_eq!(writes.load(Ordering::SeqCst), 5);
    assert_eq!(flushes.load(Ordering::SeqCst), 1);
    assert_eq!(closes.load(Ordering::SeqCst), 1);
}

#[test]
fn a_block_is_written_once_it_is_as_large_as_asked_for() {
    let mut o = options(false);
    o.block_size = 64;
    let (file, writes, flushes, _) = counted();
    let mut builder = TableBuilder::new(file, Bytewise::default(), &o);
    let mut blocks = 0;
    for i in 0..40 {
        let before = builder.file_size();
        builder.add(&key(i), &value(i)).unwrap();
        if builder.file_size() > before {
            blocks += 1;
            // every block is larger than asked for by less than an entry
            let size = builder.file_size() - before - 5;
            assert!((64..64 + 24).contains(&size), "{}", size);
        }
        assert_eq!(writes.load(Ordering::SeqCst), 2 * blocks);
        assert_eq!(flushes.load(Ordering::SeqCst), blocks);
    }
    assert!(blocks >= 8);
    // an explicit flush writes what is there, and a second one nothing
    builder.add(&key(40), &value(40)).unwrap();
    let before = builder.file_size();
    builder.flush().unwrap();
    assert!(builder.file_size() > before);
    let after = builder.file_size();
    builder.flush().unwrap();
    assert_eq!(builder.file_size(), after);
    assert_eq!(writes.load(Ordering::SeqCst), 2 * (blocks + 1));
}

#[test]
fn every_index_entry_is_a_restart_point() {
    let o = options(false);
    let data = build_file(&o, 200);
    let (footer, _) = Footer::decode_from(&data[data.len() - 48..]).unwrap();
    let index = read_block(
        &MemFile::from_bytes(data.clone()),
        &NoCodec::new(),
        &footer.index_handle,
        true,
    )
    .unwrap();
    let restarts = u32::from_le_bytes(index[index.len() - 4..].try_into().unwrap()) as usize;
    let block = Block::new(index).unwrap();
    let mut iter = block.iter(Bytewise::default());
    iter.seek_to_first();
    let mut entries = 0;
    while iter.valid() {
        entries += 1;
        iter.next();
    }
    assert!(entries > 10);
    assert_eq!(restarts, entries);
}

#[test]
fn a_failed_step_gives_the_table_up_with_the_error_of_the_file() {
    let mut o = options(false);
    o.block_size = 32;
    // the first write of the first block fails while an entry is added
    let mut builder = TableBuilder::new(FailingFile { writes_left: 0 }, Bytewise::default(), &o);
    let mut failed = None;
    for i in 0..10 {
        if let Err(e) = builder.add(&key(i), &value(i)) {
            failed = Some(e);
            break;
        }
    }
    assert_eq!(
        failed.expect("a block was due").to_string(),
        "I/O operation error: disk full"
    );
    assert_eq!(
        builder.add(b"zzz", b"").unwrap_err().to_string(),
        "invalid argument: the table builder is not open"
    );
    assert_eq!(
        builder.finish(true).unwrap_err().to_string(),
        "invalid argument: the table builder is not open"
    );
}
