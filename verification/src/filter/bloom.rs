//! Bloom filters: a bit array in which every key sets a few bits, picked by a hash of the
//! key. A key whose bits are not all set was not among the keys.
use crate::filter::FilterPolicy;
use crate::util::coding::{decode_fixed_32_at, spec_decode_fixed_32};
use vstd::prelude::*;

verus! {

/// The seed of the hash that picks the bits.
pub const BLOOM_SEED: u32 = 0xbc9f1d34;

/// The multiplier of the hash.
pub const HASH_MULTIPLIER: u32 = 0xc6a4a793;

/// The most bits a filter is given.
pub const MAX_FILTER_BITS: u64 = 0x7fff_fff8;

/// The least bits a filter is given: tiny filters would let too much pass.
pub const MIN_FILTER_BITS: u64 = 64;

/// The sum of two numbers, cut to 32 bits.
pub open spec fn add32(a: u32, b: u32) -> u32 {
    ((a + b) % 0x1_0000_0000) as u32
}

/// The product of two numbers, cut to 32 bits.
pub open spec fn mul32(a: u32, b: u32) -> u32 {
    ((a * b) % 0x1_0000_0000) as u32
}

/// The hash after the word `w` has been mixed in.
pub open spec fn mix_word(h: u32, w: u32) -> u32 {
    let x = mul32(add32(h, w), HASH_MULTIPLIER);
    x ^ (x >> 16)
}

/// The hash after the last one, two or three bytes of `key` from `pos` on have been
/// mixed in.
pub open spec fn mix_tail(h: u32, key: Seq<u8>, pos: int) -> u32 {
    let rest = key.len() - pos;
    if rest <= 0 {
        h
    } else {
        let a = if rest >= 3 {
            add32(h, (key[pos + 2] as u32 * 65536) as u32)
        } else {
            h
        };
        let b = if rest >= 2 {
            add32(a, (key[pos + 1] as u32 * 256) as u32)
        } else {
            a
        };
        let c = mul32(add32(b, key[pos] as u32), HASH_MULTIPLIER);
        c ^ (c >> 24)
    }
}

/// The hash after all of `key` from `pos` on has been mixed in, four bytes at a time.
pub open spec fn mix_from(h: u32, key: Seq<u8>, pos: int) -> u32
    decreases key.len() - pos,
{
    if pos >= 0 && pos + 4 <= key.len() {
        mix_from(mix_word(h, spec_decode_fixed_32(key, pos) as u32), key, pos + 4)
    } else {
        mix_tail(h, key, pos)
    }
}

/// The hash of `key` with the seed `seed`.
pub open spec fn spec_hash(key: Seq<u8>, seed: u32) -> u32 {
    mix_from(seed ^ mul32((key.len() % 0x1_0000_0000) as u32, HASH_MULTIPLIER), key, 0)
}

/// The hash by which a Bloom filter picks the bits of `key`.
pub open spec fn spec_bloom_hash(key: Seq<u8>) -> u32 {
    spec_hash(key, BLOOM_SEED)
}

/// What is added to the hash from one probe to the next: the hash rotated right by 17 bits.
pub open spec fn probe_delta(h: u32) -> u32 {
    (h >> 17) | (h << 15)
}

/// The hash of the `j`-th probe.
pub open spec fn probe_hash(h: u32, delta: u32, j: nat) -> u32
    decreases j,
{
    if j == 0 {
        h
    } else {
        add32(probe_hash(h, delta, (j - 1) as nat), delta)
    }
}

/// Bit `pos` of the bit array `bits` is set.
#[verifier::opaque]
pub open spec fn bit_set(bits: Seq<u8>, pos: int) -> bool {
    bits[pos / 8] & (1u8 << ((pos % 8) as u8)) != 0
}

/// All `k` bits that `key` picks among the first `n` bits of `bits` are set.
pub open spec fn probes_set(bits: Seq<u8>, n: int, key: Seq<u8>, k: nat) -> bool {
    let h = spec_bloom_hash(key);
    forall|j: nat| j < k ==> bit_set(bits, #[trigger] probe_hash(h, probe_delta(h), j) as int % n)
}

/// Whether a Bloom filter lets a key pass. A filter is a bit array followed by one byte,
/// the number of probes. Filters shorter than two bytes let nothing pass; filters with more
/// than thirty probes are of a later format and let everything pass.
pub open spec fn spec_bloom_may_match(filter: Seq<u8>, key: Seq<u8>) -> bool {
    if filter.len() < 2 {
        false
    } else if filter.last() > 30 {
        true
    } else {
        probes_set(filter, (filter.len() - 1) * 8, key, filter.last() as nat)
    }
}

fn add_cut(a: u32, b: u32) -> (r: u32)
    ensures
        r == add32(a, b),
{
    ((a as u64 + b as u64) % 0x1_0000_0000) as u32
}

fn mul_cut(a: u32, b: u32) -> (r: u32)
    ensures
        r == mul32(a, b),
{
    assert(a * b <= 0xffff_ffff * 0xffff_ffff) by (nonlinear_arith)
        requires
            0 <= a <= 0xffff_ffff,
            0 <= b <= 0xffff_ffff,
    ;
    ((a as u64 * b as u64) % 0x1_0000_0000) as u32
}

/// The hash of `key` with the seed `seed`.
pub fn hash(key: &[u8], seed: u32) -> (h: u32)
    ensures
        h == spec_hash(key@, seed),
{
    let n: usize = key.len();
    let mut h: u32 = seed ^ mul_cut((n as u64 % 0x1_0000_0000) as u32, HASH_MULTIPLIER);
    let mut pos: usize = 0;
    while n - pos >= 4
        invariant
            pos <= n,
            n == key@.len(),
            mix_from(h, key@, pos as int) == spec_hash(key@, seed),
        decreases n - pos,
    {
        let w: u32 = decode_fixed_32_at(key, pos);
        let x: u32 = mul_cut(add_cut(h, w), HASH_MULTIPLIER);
        h = x ^ (x >> 16);
        pos = pos + 4;
    }
    let rest: usize = n - pos;
    if rest == 0 {
        return h;
    }
    if rest >= 3 {
        h = add_cut(h, key[pos + 2] as u32 * 65536);
    }
    if rest >= 2 {
        h = add_cut(h, key[pos + 1] as u32 * 256);
    }
    let c: u32 = mul_cut(add_cut(h, key[pos] as u32), HASH_MULTIPLIER);
    c ^ (c >> 24)
}

/// Whether bit `pos` of `bits` is set.
fn test_bit(bits: &[u8], pos: u64) -> (r: bool)
    requires
        pos / 8 < bits@.len(),
    ensures
        r == bit_set(bits@, pos as int),
{
    reveal(bit_set);
    let size: usize = bits.len();
    let index: usize = (pos / 8) as usize;
    let shift: u8 = (pos % 8) as u8;
    bits[index] & (1u8 << shift) != 0
}

/// Whether the bit that the probe hash `h` picks in the filter is set.
fn probe_is_set(filter: &[u8], h: u32) -> (r: bool)
    requires
        filter@.len() >= 2,
    ensures
        r == bit_set(filter@, h as int % ((filter@.len() - 1) * 8)),
{
    let len: usize = filter.len();
    let n: u128 = (len as u128 - 1) * 8;
    proof {
        vstd::arithmetic::div_mod::lemma_mod_bound(h as int, n as int);
        vstd::arithmetic::div_mod::lemma_mod_decreases(h as nat, n as nat);
    }
    let bitpos: u64 = (h as u128 % n) as u64;
    assert(bitpos / 8 < len - 1);
    test_bit(filter, bitpos)
}

/// Sets bit `pos` of `bits`.
fn set_bit(bits: &mut Vec<u8>, pos: u64)
    requires
        pos / 8 < old(bits)@.len(),
    ensures
        final(bits)@.len() == old(bits)@.len(),
        bit_set(final(bits)@, pos as int),
        forall|other: int|
            0 <= other / 8 < old(bits)@.len() && bit_set(old(bits)@, other) ==> bit_set(
                final(bits)@,
                other,
            ),
{
    reveal(bit_set);
    let size: usize = bits.len();
    let index: usize = (pos / 8) as usize;
    let shift: u8 = (pos % 8) as u8;
    let before: u8 = bits[index];
    bits.set(index, before | (1u8 << shift));
    proof {
        lemma_set_bit(before, shift, shift);
        assert forall|other: int|
            0 <= other / 8 < old(bits)@.len() && bit_set(old(bits)@, other) implies bit_set(
            bits@,
            other,
        ) by {
            if other / 8 == index {
                lemma_set_bit(before, shift, (other % 8) as u8);
            }
        }
    }
}

/// Setting a bit of a byte sets it and leaves the bits that were set.
proof fn lemma_set_bit(x: u8, a: u8, b: u8)
    requires
        a < 8,
        b < 8,
    ensures
        (x | (1u8 << a)) & (1u8 << a) != 0,
        x & (1u8 << b) != 0 ==> (x | (1u8 << a)) & (1u8 << b) != 0,
{
    assert(a < 8 ==> (x | (1u8 << a)) & (1u8 << a) != 0) by (bit_vector);
    assert(a < 8 && b < 8 && x & (1u8 << b) != 0 ==> (x | (1u8 << a)) & (1u8 << b) != 0)
        by (bit_vector);
}

/// Bloom filters with a given number of bits for every key.
#[derive(Debug, Clone, Copy)]
pub struct BloomFilter {
    bits_per_key: usize,
    // the number of probes, derived from the bits for every key
    k: usize,
}

impl BloomFilter {
    /// Filters with `bits_per_key` bits for every key. The number of probes is about
    /// `bits_per_key` times the natural logarithm of two, at least one and at most thirty.
    pub fn new(bits_per_key: usize) -> (b: Self)
        ensures
            b.wf(),
    {
        let scaled: u128 = bits_per_key as u128 * 69 / 100;
        let k: usize = if scaled < 1 {
            1
        } else if scaled > 30 {
            30
        } else {
            scaled as usize
        };
        BloomFilter { bits_per_key, k }
    }

    /// The number of probes is between one and thirty.
    pub closed spec fn wf(&self) -> bool {
        1 <= self.k <= 30
    }

    /// The number of probes.
    pub closed spec fn probes(&self) -> nat {
        self.k as nat
    }

    /// Sets the bits of `key` in the first `n` bits of `array`.
    fn set_probes(array: &mut Vec<u8>, n: u32, key: &[u8], k: usize)
        requires
            old(array)@.len() * 8 == n,
            n > 0,
            k <= 30,
        ensures
            final(array)@.len() == old(array)@.len(),
            probes_set(final(array)@, n as int, key@, k as nat),
            forall|pos: int|
                0 <= pos < n && bit_set(old(array)@, pos) ==> bit_set(final(array)@, pos),
    {
        let h0: u32 = hash(key, BLOOM_SEED);
        let delta: u32 = (h0 >> 17) | (h0 << 15);
        let mut h: u32 = h0;
        let mut j: usize = 0;
        while j < k
            invariant
                j <= k,
                array@.len() == old(array)@.len(),
                array@.len() * 8 == n,
                n > 0,
                h0 == spec_bloom_hash(key@),
                delta == probe_delta(h0),
                h == probe_hash(h0, delta, j as nat),
                forall|i: nat|
                    i < j ==> bit_set(array@, #[trigger] probe_hash(h0, delta, i) as int % (n as int)),
                forall|pos: int|
                    0 <= pos < n && bit_set(old(array)@, pos) ==> bit_set(array@, pos),
            decreases k - j,
        {
            let bitpos: u32 = h % n;
            let ghost prior = array@;
            set_bit(array, bitpos as u64);
            proof {
                assert forall|i: nat| i < j + 1 implies bit_set(
                    array@,
                    #[trigger] probe_hash(h0, delta, i) as int % (n as int),
                ) by {
                    if i < j {
                        let pos = probe_hash(h0, delta, i) as int % (n as int);
                        assert(bit_set(prior, pos));
                    }
                }
                assert forall|pos: int| 0 <= pos < n && bit_set(old(array)@, pos) implies bit_set(
                    array@,
                    pos,
                ) by {
                    assert(bit_set(prior, pos));
                }
                assert(probe_hash(h0, delta, (j + 1) as nat) == add32(h, delta));
            }
            h = add_cut(h, delta);
            j = j + 1;
        }
    }
}

impl FilterPolicy for BloomFilter {
    open spec fn spec_name(&self) -> Seq<char> {
        "leveldb.BuiltinBloomFilter"@
    }

    open spec fn may_match(&self, filter: Seq<u8>, key: Seq<u8>) -> bool {
        spec_bloom_may_match(filter, key)
    }

    fn name(&self) -> (s: &str) {
        "leveldb.BuiltinBloomFilter"
    }

    fn may_contain(&self, filter: &[u8], key: &[u8]) -> (b: bool) {
        let len: usize = filter.len();
        if len < 2 {
            return false;
        }
        let k: u8 = filter[len - 1];
        if k > 30 {
            return true;
        }
        let h0: u32 = hash(key, BLOOM_SEED);
        let delta: u32 = (h0 >> 17) | (h0 << 15);
        let mut h: u32 = h0;
        let mut j: u8 = 0;
        while j < k
            invariant
                j <= k <= 30,
                len == filter@.len(),
                len >= 2,
                k == filter@.last(),
                h0 == spec_bloom_hash(key@),
                delta == probe_delta(h0),
                h == probe_hash(h0, delta, j as nat),
                forall|i: nat|
                    i < j ==> bit_set(
                        filter@,
                        #[trigger] probe_hash(h0, delta, i) as int % ((len - 1) * 8),
                    ),
            decreases k - j,
        {
            if !probe_is_set(filter, h) {
                assert(!probes_set(filter@, (filter@.len() - 1) * 8, key@, k as nat));
                return false;
            }
            proof {
                assert(probe_hash(h0, delta, (j + 1) as nat) == add32(h, delta));
            }
            h = add_cut(h, delta);
            j = j + 1;
        }
        true
    }

    fn create_filter(&self, keys: &Vec<Vec<u8>>) -> (filter: Vec<u8>) {
        let k: usize = if self.k < 1 {
            1
        } else if self.k > 30 {
            30
        } else {
            self.k
        };
        let count: usize = keys.len();
        assert(count * self.bits_per_key <= 0xffff_ffff_ffff_ffff * 0xffff_ffff_ffff_ffff)
            by (nonlinear_arith)
            requires
                0 <= count <= 0xffff_ffff_ffff_ffff,
                0 <= self.bits_per_key <= 0xffff_ffff_ffff_ffff,
        ;
        let wanted: u128 = count as u128 * self.bits_per_key as u128;
        let bits: u64 = if wanted < MIN_FILTER_BITS as u128 {
            MIN_FILTER_BITS
        } else if wanted > MAX_FILTER_BITS as u128 {
            MAX_FILTER_BITS
        } else {
            wanted as u64
        };
        let bytes: usize = ((bits + 7) / 8) as usize;
        let n: u32 = (bytes as u64 * 8) as u32;
        let mut array: Vec<u8> = Vec::new();
        while array.len() < bytes
            invariant
                array@.len() <= bytes,
            decreases bytes - array@.len(),
        {
            array.push(0);
        }
        let mut i: usize = 0;
        while i < keys.len()
            invariant
                i <= keys@.len(),
                array@.len() == bytes,
                bytes * 8 == n,
                n > 0,
                k <= 30,
                forall|m: int|
                    0 <= m < i ==> probes_set(array@, n as int, #[trigger] keys@[m]@, k as nat),
            decreases keys@.len() - i,
        {
            let ghost prior = array@;
            Self::set_probes(&mut array, n, keys[i].as_slice(), k);
            proof {
                assert forall|m: int| 0 <= m < i + 1 implies probes_set(
                    array@,
                    n as int,
                    #[trigger] keys@[m]@,
                    k as nat,
                ) by {
                    if m < i {
                        let h = spec_bloom_hash(keys@[m]@);
                        assert(probes_set(prior, n as int, keys@[m]@, k as nat));
                        assert forall|j: nat| j < k implies bit_set(
                            array@,
                            #[trigger] probe_hash(h, probe_delta(h), j) as int % (n as int),
                        ) by {
                            let pos = probe_hash(h, probe_delta(h), j) as int % (n as int);
                            assert(bit_set(prior, pos));
                        }
                    }
                }
            }
            i = i + 1;
        }
        let ghost bits_only = array@;
        array.push(k as u8);
        proof {
            assert forall|m: int| 0 <= m < keys@.len() implies self.may_match(
                array@,
                #[trigger] keys@[m]@,
            ) by {
                let h = spec_bloom_hash(keys@[m]@);
                assert(probes_set(bits_only, n as int, keys@[m]@, k as nat));
                assert forall|j: nat| j < k implies bit_set(
                    array@,
                    #[trigger] probe_hash(h, probe_delta(h), j) as int % (n as int),
                ) by {
                    let pos = probe_hash(h, probe_delta(h), j) as int % (n as int);
                    assert(bit_set(bits_only, pos));
                    assert(array@[pos / 8] == bits_only[pos / 8]);
                    reveal(bit_set);
                }
            }
        }
        array
    }
}

} // verus!
