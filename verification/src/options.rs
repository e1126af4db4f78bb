//! What a table is built and read with.
use crate::filter::FilterPolicy;
use crate::util::comparator::Comparator;
use std::sync::Arc;
use vstd::prelude::*;

verus! {

/// How the contents of a block are stored.
#[derive(PartialEq, Eq, Structural, Debug, Clone, Copy)]
pub enum CompressionType {
    /// As they are.
    NoCompression,
    /// Compressed in a Snappy-compatible way.
    Snappy,
}

/// The byte that stands for a compression type in a block trailer.
pub open spec fn spec_compression_byte(t: CompressionType) -> u8 {
    match t {
        CompressionType::NoCompression => 0,
        CompressionType::Snappy => 1,
    }
}

/// The compression type that a trailer byte stands for, if any.
pub open spec fn spec_compression_of(b: u8) -> Option<CompressionType> {
    if b == 0 {
        Some(CompressionType::NoCompression)
    } else if b == 1 {
        Some(CompressionType::Snappy)
    } else {
        None
    }
}

impl CompressionType {
    /// The byte that stands for this compression type in a block trailer.
    pub fn to_byte(&self) -> (b: u8)
        ensures
            b == spec_compression_byte(*self),
    {
        match self {
            CompressionType::NoCompression => 0,
            CompressionType::Snappy => 1,
        }
    }

    /// The compression type that a trailer byte stands for, if any.
    pub fn from_byte(b: u8) -> (t: Option<CompressionType>)
        ensures
            t == spec_compression_of(b),
    {
        if b == 0 {
            Some(CompressionType::NoCompression)
        } else if b == 1 {
            Some(CompressionType::Snappy)
        } else {
            None
        }
    }
}

/// A compression codec. Whoever implements it decides what the operations do; the library
/// relies on nothing but the types, and stores a compressed form only where it is
/// materially shorter.
pub trait Codec: Copy {
    /// The compressed form of `raw`, or `None` where there is none to be had.
    fn compress(&self, raw: &[u8]) -> Option<Vec<u8>>;

    /// The bytes of which `stored` is the compressed form, or `None` where `stored` is no
    /// compressed form.
    fn decompress(&self, stored: &[u8]) -> Option<Vec<u8>>;
}

/// The bytes of an answer.
pub open spec fn spec_answer(o: Option<Vec<u8>>) -> Option<Seq<u8>> {
    match o {
        Some(v) => Some(v@),
        None => None,
    }
}

/// Whatever `codec` gives back for stored bytes is what `expand` says.
pub open spec fn decompress_follows<Z: Codec>(
    codec: Z,
    expand: spec_fn(Seq<u8>) -> Option<Seq<u8>>,
) -> bool {
    forall|stored: &[u8], r: Option<Vec<u8>>| #[trigger]
        call_ensures(Z::decompress, (&codec, stored), r) ==> spec_answer(r) == expand(stored@)
}

/// Whatever compressed form `codec` gives for bytes, `expand` gives those bytes for it.
pub open spec fn compress_follows<Z: Codec>(
    codec: Z,
    expand: spec_fn(Seq<u8>) -> Option<Seq<u8>>,
) -> bool {
    forall|raw: &[u8], r: Option<Vec<u8>>| #[trigger]
        call_ensures(Z::compress, (&codec, raw), r) ==> (r matches Some(v) ==> expand(v@)
            == Some(raw@))
}

/// `stored` is a compressed form that `codec` gave for `raw`.
pub open spec fn was_compressed<Z: Codec>(codec: Z, raw: Seq<u8>, stored: Seq<u8>) -> bool {
    exists|r: &[u8], v: Vec<u8>|
        r@ == raw && v@ == stored && #[trigger] call_ensures(Z::compress, (&codec, r), Some(v))
}

/// The codec that compresses nothing and knows no compressed form.
#[derive(Debug, Clone, Copy)]
pub struct NoCodec {}

impl NoCodec {
    /// The codec.
    pub fn new() -> (c: Self)
        ensures
            c == (NoCodec {  }),
    {
        NoCodec {  }
    }
}

impl Codec for NoCodec {
    fn compress(&self, raw: &[u8]) -> (r: Option<Vec<u8>>)
        ensures
            r is None,
    {
        None
    }

    fn decompress(&self, stored: &[u8]) -> (r: Option<Vec<u8>>)
        ensures
            r is None,
    {
        None
    }
}

/// A cache of blocks read, shared by the tables that are given it. Whoever implements it
/// decides what the operations do and when blocks leave the cache; the library relies on
/// nothing but the types.
pub trait BlockCache: Copy {
    /// The bytes of the block kept for the table `table_id` at the file offset `offset`, if
    /// one is kept.
    fn lookup(&self, table_id: u64, offset: u64) -> Option<Arc<Vec<u8>>>;

    /// Keeps the bytes of the block of the table `table_id` at the file offset `offset`.
    fn insert(&self, table_id: u64, offset: u64, block: Arc<Vec<u8>>);
}

/// The cache that keeps nothing.
#[derive(Debug, Clone, Copy)]
pub struct NoCache {}

impl NoCache {
    /// The cache.
    pub fn new() -> (c: Self)
        ensures
            c == (NoCache {  }),
    {
        NoCache {  }
    }
}

impl BlockCache for NoCache {
    fn lookup(&self, table_id: u64, offset: u64) -> (r: Option<Arc<Vec<u8>>>)
        ensures
            r is None,
    {
        None
    }

    fn insert(&self, table_id: u64, offset: u64, block: Arc<Vec<u8>>) {
    }
}

/// The block size that tables are built with where none is asked for.
pub const DEFAULT_BLOCK_SIZE: usize = 4096;

/// The restart interval that data blocks are built with where none is asked for.
pub const DEFAULT_RESTART_INTERVAL: usize = 16;

/// What a table is built and opened with.
pub struct Options<C: Comparator, P: FilterPolicy, Z: Codec, K: BlockCache> {
    /// The order of the keys.
    pub comparator: C,
    /// The size at which a data block is ended, its trailer not counted.
    pub block_size: usize,
    /// The number of entries of a data block from one restart point to the next.
    pub block_restart_interval: usize,
    /// How the contents of blocks are stored.
    pub compression: CompressionType,
    /// The codec that compresses and decompresses them.
    pub codec: Z,
    /// The policy that makes the filters of the table, if it is to have any.
    pub filter_policy: Option<P>,
    /// Whether the checksum of every block read is verified.
    pub paranoid_checks: bool,
    /// The cache that keeps the data blocks read, if there is to be one.
    pub block_cache: Option<K>,
}

impl<C: Comparator, P: FilterPolicy, Z: Codec, K: BlockCache> Options<C, P, Z, K> {
    /// Options with the default block size and restart interval, no compression, no
    /// filters, no paranoid checks and no cache.
    pub fn new(comparator: C, codec: Z) -> (o: Self)
        ensures
            o.comparator == comparator,
            o.codec == codec,
            o.block_size == DEFAULT_BLOCK_SIZE,
            o.block_restart_interval == DEFAULT_RESTART_INTERVAL,
            o.compression == CompressionType::NoCompression,
            o.filter_policy is None,
            !o.paranoid_checks,
            o.block_cache is None,
    {
        Options {
            comparator,
            block_size: DEFAULT_BLOCK_SIZE,
            block_restart_interval: DEFAULT_RESTART_INTERVAL,
            compression: CompressionType::NoCompression,
            codec,
            filter_policy: None,
            paranoid_checks: false,
            block_cache: None,
        }
    }
}

/// What a read is made with.
#[derive(Debug, Clone, Copy)]
pub struct ReadOptions {
    /// Whether the checksum of every block read for this read is verified.
    pub verify_checksums: bool,
    /// Whether blocks read for this read should be kept for later reads.
    pub fill_cache: bool,
}

impl Default for ReadOptions {
    /// Checksums verified, blocks kept.
    fn default() -> (o: Self)
        ensures
            o.verify_checksums,
            o.fill_cache,
    {
        ReadOptions { verify_checksums: true, fill_cache: true }
    }
}

} // verus!
