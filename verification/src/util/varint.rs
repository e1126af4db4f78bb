//! Variable-length unsigned integers: seven bits to a byte, least significant group first,
//! the top bit of a byte set while more bytes follow.
use vstd::prelude::*;

verus! {

/// The most bytes a varint-encoded `u32` takes.
pub const MAX_VARINT_LEN_U32: usize = 5;

/// The most bytes a varint-encoded `u64` takes.
pub const MAX_VARINT_LEN_U64: usize = 10;

/// The varint encoding of `v`.
pub open spec fn spec_varint(v: nat) -> Seq<u8>
    decreases v,
{
    if v < 128 {
        seq![v as u8]
    } else {
        seq![((v % 128) + 128) as u8] + spec_varint(v / 128)
    }
}

/// The varint that starts at `pos` in `s`, read from at most `max` bytes: its value before
/// any truncation and the number of bytes it takes. `None` when `s` ends, or `max` bytes
/// pass, before a byte without the continuation bit.
pub open spec fn varint_at(s: Seq<u8>, pos: int, max: nat) -> Option<(nat, nat)>
    decreases max,
{
    if max == 0 || pos < 0 || pos >= s.len() {
        None
    } else if s[pos] < 128 {
        Some((s[pos] as nat, 1nat))
    } else {
        match varint_at(s, pos + 1, (max - 1) as nat) {
            Some((v, n)) => Some((((s[pos] - 128) as nat) + 128 * v, n + 1)),
            None => None,
        }
    }
}

/// What reading a `u64` at `pos` gives: the value with the bits above the 64th dropped, and
/// the bytes consumed.
pub open spec fn spec_read_u64(s: Seq<u8>, pos: int) -> Option<(u64, nat)> {
    match varint_at(s, pos, 10) {
        Some((v, n)) => Some(((v % 0x1_0000_0000_0000_0000) as u64, n)),
        None => None,
    }
}

/// What reading a `u32` at `pos` gives: the value with the bits above the 32nd dropped, and
/// the bytes consumed.
pub open spec fn spec_read_u32(s: Seq<u8>, pos: int) -> Option<(u32, nat)> {
    match varint_at(s, pos, 5) {
        Some((v, n)) => Some(((v % 0x1_0000_0000) as u32, n)),
        None => None,
    }
}

/// 128 to the power `n`.
pub open spec fn pow128(n: nat) -> nat
    decreases n,
{
    if n == 0 {
        1
    } else {
        128 * pow128((n - 1) as nat)
    }
}

/// The value of the `n` continuation bytes from `pos` on, as a number in base 128.
pub open spec fn prefix_value(s: Seq<u8>, pos: int, n: nat) -> nat
    decreases n,
{
    if n == 0 {
        0
    } else {
        prefix_value(s, pos, (n - 1) as nat) + ((s[pos + n - 1] - 128) as nat) * pow128(
            (n - 1) as nat,
        )
    }
}

/// After `n` continuation bytes, the varint at `pos` is the varint that follows them, shifted
/// by `n` groups and added to what those bytes hold.
pub proof fn lemma_varint_after_prefix(s: Seq<u8>, pos: int, max: nat, n: nat)
    requires
        0 <= pos,
        pos + n <= s.len(),
        n <= max,
        forall|i: int| pos <= i < pos + n ==> s[i] >= 128,
    ensures
        varint_at(s, pos, max) == match varint_at(s, pos + n, (max - n) as nat) {
            Some((v, k)) => Some((prefix_value(s, pos, n) + pow128(n) * v, k + n)),
            None => None,
        },
    decreases n,
{
    if n == 0 {
        assert(pow128(0) == 1);
        assert(prefix_value(s, pos, 0) == 0);
        match varint_at(s, pos, max) {
            Some((v, k)) => {
                assert(1 * v == v);
            },
            None => {},
        }
    } else {
        let m = (n - 1) as nat;
        lemma_varint_after_prefix(s, pos, max, m);
        // unfold the varint at pos + m, whose byte is a continuation byte
        assert(s[pos + m] >= 128);
        let inner = varint_at(s, pos + m, (max - m) as nat);
        let tail = varint_at(s, pos + n, (max - n) as nat);
        assert(pos + m + 1 == pos + n);
        assert((max - m - 1) as nat == (max - n) as nat);
        match tail {
            Some((v, k)) => {
                let d = (s[pos + m] - 128) as nat;
                assert(inner == Some((d + 128 * v, k + 1)));
                assert(pow128(n) == 128 * pow128(m));
                assert(pow128(m) * (d + 128 * v) == d * pow128(m) + pow128(n) * v)
                    by (nonlinear_arith)
                    requires
                        pow128(n) == 128 * pow128(m),
                ;
            },
            None => {
                assert(inner is None);
            },
        }
    }
}

/// A varint encoding is never empty, its last byte has no continuation bit, and all before
/// it have one.
pub proof fn lemma_varint_shape(v: nat)
    ensures
        spec_varint(v).len() >= 1,
        spec_varint(v)[spec_varint(v).len() - 1] < 128,
        forall|i: int| 0 <= i < spec_varint(v).len() - 1 ==> spec_varint(v)[i] >= 128,
    decreases v,
{
    if v >= 128 {
        lemma_varint_shape(v / 128);
        let rest = spec_varint(v / 128);
        let s = spec_varint(v);
        assert(s =~= seq![((v % 128) + 128) as u8] + rest);
        assert forall|i: int| 0 <= i < s.len() - 1 implies s[i] >= 128 by {
            if i > 0 {
                assert(s[i] == rest[i - 1]);
            }
        }
    }
}

/// The encoding of a number below 128 to the `k` takes at most `k` bytes (and at least one).
pub proof fn lemma_varint_len(v: nat, k: nat)
    requires
        k >= 1,
        v < pow128(k),
    ensures
        1 <= spec_varint(v).len() <= k,
    decreases k,
{
    reveal_with_fuel(pow128, 2);
    if v >= 128 {
        if k == 1 {
            assert(pow128(1) == 128);
        } else {
            assert(pow128(k) == 128 * pow128((k - 1) as nat));
            lemma_varint_len(v / 128, (k - 1) as nat);
        }
    }
}

/// 128 to the tenth is above every `u64`, and 128 to the fifth above every `u32`.
pub proof fn lemma_pow128_bounds()
    ensures
        pow128(5) == 0x8_0000_0000,
        pow128(10) == 0x40_0000_0000_0000_0000,
{
    reveal_with_fuel(pow128, 11);
}

/// Reading back an encoding gives the number and the encoding's length, whatever stands
/// before and after it, if `max` bytes are enough for it.
pub proof fn lemma_varint_roundtrip(v: nat, before: Seq<u8>, after: Seq<u8>, max: nat)
    requires
        spec_varint(v).len() <= max,
    ensures
        varint_at(before + spec_varint(v) + after, before.len() as int, max) == Some(
            (v, spec_varint(v).len()),
        ),
    decreases v,
{
    let s = before + spec_varint(v) + after;
    let p = before.len() as int;
    assert(s[p] == spec_varint(v)[0]);
    if v >= 128 {
        let first = seq![((v % 128) + 128) as u8];
        let rest = spec_varint(v / 128);
        assert(spec_varint(v) =~= first + rest);
        assert(s =~= (before + first) + rest + after);
        lemma_varint_roundtrip(v / 128, before + first, after, (max - 1) as nat);
        assert((before + first).len() == p + 1);
    }
}

/// A varint that can be read is read the same when bytes are added after the buffer.
pub proof fn lemma_varint_extend(s: Seq<u8>, ext: Seq<u8>, pos: int, max: nat)
    requires
        varint_at(s, pos, max) is Some,
    ensures
        varint_at(s + ext, pos, max) == varint_at(s, pos, max),
    decreases max,
{
    assert((s + ext)[pos] == s[pos]);
    if s[pos] >= 128 {
        lemma_varint_extend(s, ext, pos + 1, (max - 1) as nat);
    }
}

/// A varint ends within the buffer it is read from and takes at least one byte.
pub proof fn lemma_varint_bounds(s: Seq<u8>, pos: int, max: nat)
    requires
        varint_at(s, pos, max) is Some,
    ensures
        0 <= pos,
        1 <= varint_at(s, pos, max)->Some_0.1 <= max,
        pos + varint_at(s, pos, max)->Some_0.1 <= s.len(),
    decreases max,
{
    if s[pos] >= 128 {
        lemma_varint_bounds(s, pos + 1, (max - 1) as nat);
    }
}

/// Unit type that carries the varint functions for `u64`.
pub struct VarintU64;

/// Unit type that carries the varint functions for `u32`.
pub struct VarintU32;

fn put_varint_nat(dst: &mut Vec<u8>, n: u64)
    ensures
        final(dst)@ == old(dst)@ + spec_varint(n as nat),
{
    let mut n: u64 = n;
    let ghost n0: nat = n as nat;
    while n >= 128
        invariant
            dst@ + spec_varint(n as nat) == old(dst)@ + spec_varint(n0),
        decreases n,
    {
        let ghost before = dst@;
        dst.push(((n % 128) + 128) as u8);
        proof {
            assert(spec_varint(n as nat) =~= seq![((n % 128) + 128) as u8] + spec_varint(
                (n / 128) as nat,
            ));
            assert(dst@ + spec_varint((n / 128) as nat) =~= before + spec_varint(n as nat));
        }
        n = n / 128;
    }
    let ghost before = dst@;
    dst.push(n as u8);
    proof {
        assert(dst@ =~= before + spec_varint(n as nat));
    }
}

fn read_varint_at(src: &[u8], pos: usize, max: usize) -> (r: Option<(u128, usize)>)
    requires
        max <= 10,
    ensures
        r matches Some((v, n)) ==> varint_at(src@, pos as int, max as nat) == Some(
            (v as nat, n as nat),
        ) && pos + n <= src.len() && 1 <= n <= max,
        r is None ==> varint_at(src@, pos as int, max as nat) is None,
{
    let mut i: usize = 0;
    let mut acc: u128 = 0;
    let mut mult: u128 = 1;
    if pos >= src.len() {
        return None;
    }
    while i < max && i < src.len() - pos
        invariant
            pos < src@.len(),
            i <= max <= 10,
            i <= src@.len() - pos,
            forall|j: int| pos <= j < pos + i ==> src@[j] >= 128,
            acc == prefix_value(src@, pos as int, i as nat),
            mult == pow128(i as nat),
            acc < mult,
        decreases max - i,
    {
        proof {
            lemma_pow128_monotone(i as nat, 10);
            lemma_pow128_bounds();
            lemma_varint_after_prefix(src@, pos as int, max as nat, i as nat);
        }
        let b: u8 = src[pos + i];
        if b < 128 {
            assert(mult * (b as nat) <= mult * 127) by (nonlinear_arith)
                requires
                    b <= 127,
                    mult >= 0,
            ;
            let v: u128 = acc + mult * (b as u128);
            return Some((v, i + 1));
        }
        proof {
            assert(mult * ((b - 128) as nat) <= mult * 127) by (nonlinear_arith)
                requires
                    b - 128 <= 127,
                    b >= 128,
                    mult >= 0,
            ;
            assert(pow128((i + 1) as nat) == 128 * pow128(i as nat));
            assert(prefix_value(src@, pos as int, (i + 1) as nat) == prefix_value(
                src@,
                pos as int,
                i as nat,
            ) + ((src@[pos + i] - 128) as nat) * pow128(i as nat));
            assert(mult * ((b - 128) as nat) == ((b - 128) as nat) * mult) by (nonlinear_arith);
        }
        acc = acc + mult * ((b - 128) as u128);
        mult = mult * 128;
        i = i + 1;
    }
    proof {
        lemma_varint_after_prefix(src@, pos as int, max as nat, i as nat);
    }
    None
}

/// Powers of 128 grow with the exponent.
pub proof fn lemma_pow128_monotone(a: nat, b: nat)
    requires
        a <= b,
    ensures
        1 <= pow128(a) <= pow128(b),
    decreases b,
{
    if b == 0 {
    } else if a == b {
        lemma_pow128_monotone((a - 1) as nat, (b - 1) as nat);
    } else {
        lemma_pow128_monotone(a, (b - 1) as nat);
    }
}

impl VarintU64 {
    /// Appends the varint encoding of `n` to `dst`.
    pub fn put_varint(dst: &mut Vec<u8>, n: u64)
        ensures
            final(dst)@ == old(dst)@ + spec_varint(n as nat),
    {
        put_varint_nat(dst, n)
    }

    /// Reads the varint at the start of `src`: the value and the number of bytes it took, or
    /// `None` when `src` ends, or ten bytes pass, before a byte without continuation bit.
    pub fn read(src: &[u8]) -> (r: Option<(u64, usize)>)
        ensures
            r matches Some((v, n)) ==> spec_read_u64(src@, 0) == Some((v, n as nat)) && 1 <= n
                <= 10 && n <= src.len(),
            r is None ==> spec_read_u64(src@, 0) is None,
    {
        Self::read_at(src, 0)
    }

    /// Reads the varint that starts at `pos` in `src`.
    pub fn read_at(src: &[u8], pos: usize) -> (r: Option<(u64, usize)>)
        ensures
            r matches Some((v, n)) ==> spec_read_u64(src@, pos as int) == Some((v, n as nat)) && 1
                <= n <= 10 && pos + n <= src.len(),
            r is None ==> spec_read_u64(src@, pos as int) is None,
    {
        match read_varint_at(src, pos, 10) {
            Some((v, n)) => Some(((v % 0x1_0000_0000_0000_0000) as u64, n)),
            None => None,
        }
    }
}

impl VarintU32 {
    /// Appends the varint encoding of `n` to `dst`.
    pub fn put_varint(dst: &mut Vec<u8>, n: u32)
        ensures
            final(dst)@ == old(dst)@ + spec_varint(n as nat),
    {
        put_varint_nat(dst, n as u64)
    }

    /// Reads the varint at the start of `src`: the value and the number of bytes it took, or
    /// `None` when `src` ends, or five bytes pass, before a byte without continuation bit.
    pub fn read(src: &[u8]) -> (r: Option<(u32, usize)>)
        ensures
            r matches Some((v, n)) ==> spec_read_u32(src@, 0) == Some((v, n as nat)) && 1 <= n
                <= 5 && n <= src.len(),
            r is None ==> spec_read_u32(src@, 0) is None,
    {
        Self::read_at(src, 0)
    }

    /// Reads the varint that starts at `pos` in `src`.
    pub fn read_at(src: &[u8], pos: usize) -> (r: Option<(u32, usize)>)
        ensures
            r matches Some((v, n)) ==> spec_read_u32(src@, pos as int) == Some((v, n as nat)) && 1
                <= n <= 5 && pos + n <= src.len(),
            r is None ==> spec_read_u32(src@, pos as int) is None,
    {
        match read_varint_at(src, pos, 5) {
            Some((v, n)) => Some(((v % 0x1_0000_0000) as u32, n)),
            None => None,
        }
    }
}

} // verus!
