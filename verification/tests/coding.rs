use wickdb::util::coding::{decode_fixed_32, decode_fixed_64, put_fixed_32, put_fixed_64};
use wickdb::util::crc32::{extend, mask, unmask, value};
use wickdb::util::varint::{VarintU32, VarintU64, MAX_VARINT_LEN_U32, MAX_VARINT_LEN_U64};

#[test]
fn fixed_width_bytes_are_little_endian() {
    let mut v = vec![];
    put_fixed_32(&mut v, 0x0403_0201);
    assert_eq!(v, vec![1, 2, 3, 4]);
    let mut w = vec![];
    put_fixed_64(&mut w, 0x0807_0605_0403_0201);
    assert_eq!(w, vec![1, 2, 3, 4, 5, 6, 7, 8]);
    assert_eq!(decode_fixed_32(&v), 0x0403_0201);
    assert_eq!(decode_fixed_64(&w), 0x0807_0605_0403_0201);
}

#[test]
fn fixed_width_round_trip() {
    for x in [0u32, 1, 255, 256, 65535, 65536, 0x00ff_ffff, 0x0100_0000, u32::MAX] {
        let mut v = vec![9, 9];
        put_fixed_32(&mut v, x);
        assert_eq!(v.len(), 6);
        assert_eq!(decode_fixed_32(&v[2..]), x);
    }
    for x in [0u64, 1, u32::MAX as u64, u32::MAX as u64 + 1, u64::MAX, 0xdb47_7524_8b80_fb57] {
        let mut v = vec![];
        put_fixed_64(&mut v, x);
        assert_eq!(v.len(), 8);
        assert_eq!(decode_fixed_64(&v), x);
    }
}

#[test]
fn fixed_width_decoding_of_short_input_pads_with_zeros() {
    assert_eq!(decode_fixed_32(&[]), 0);
    assert_eq!(decode_fixed_32(&[7]), 7);
    assert_eq!(decode_fixed_32(&[1, 2]), 0x0201);
    assert_eq!(decode_fixed_64(&[1, 0, 0, 0, 2]), 0x2_0000_0001);
    // longer input: only the first bytes count
    assert_eq!(decode_fixed_32(&[1, 0, 0, 0, 9, 9]), 1);
}

#[test]
fn varint_known_encodings() {
    let cases: Vec<(u64, Vec<u8>)> = vec![
        (0, vec![0]),
        (1, vec![1]),
        (127, vec![127]),
        (128, vec![0x80, 1]),
        (300, vec![0xac, 2]),
        (16383, vec![0xff, 0x7f]),
        (16384, vec![0x80, 0x80, 1]),
        (
            u64::MAX,
            vec![0xff, 0xff, 0xff, 0xff, 0xff, 0xff, 0xff, 0xff, 0xff, 1],
        ),
    ];
    for (n, bytes) in cases {
        let mut v = vec![];
        VarintU64::put_varint(&mut v, n);
        assert_eq!(v, bytes);
        assert_eq!(VarintU64::read(&bytes), Some((n, bytes.len())));
    }
}

#[test]
fn varint_round_trip_with_trailing_bytes() {
    let mut x: u64 = 1;
    for _ in 0..64 {
        for n in [x - 1, x, x + 1] {
            let mut v = vec![];
            VarintU64::put_varint(&mut v, n);
            assert!(v.len() <= MAX_VARINT_LEN_U64);
            let len = v.len();
            v.extend_from_slice(&[0xff, 0xff]);
            assert_eq!(VarintU64::read(&v), Some((n, len)));
        }
        x = x.wrapping_mul(2);
        if x == 0 {
            break;
        }
    }
    for n in [0u32, 127, 128, 300, u32::MAX] {
        let mut v = vec![5];
        VarintU32::put_varint(&mut v, n);
        assert!(v.len() - 1 <= MAX_VARINT_LEN_U32);
        assert_eq!(VarintU32::read_at(&v, 1), Some((n, v.len() - 1)));
    }
}

#[test]
fn varint_reading_fails_without_a_last_byte() {
    assert_eq!(VarintU64::read(&[]), None);
    assert_eq!(VarintU64::read(&[0x80]), None);
    assert_eq!(VarintU64::read(&[0xff, 0xff, 0xff]), None);
    // eleven bytes are one too many for a u64
    let long = [0x80u8, 0x80, 0x80, 0x80, 0x80, 0x80, 0x80, 0x80, 0x80, 0x80, 0x01];
    assert_eq!(VarintU64::read(&long), None);
    // six bytes are one too many for a u32
    assert_eq!(VarintU32::read(&[0x80, 0x80, 0x80, 0x80, 0x80, 0x01]), None);
    assert_eq!(VarintU32::read(&[0x80, 0x80, 0x80, 0x80, 0x01]), Some((1 << 28, 5)));
    // reading past the end of the input
    assert_eq!(VarintU64::read_at(&[1, 2], 2), None);
    assert_eq!(VarintU64::read_at(&[1, 2], 7), None);
}

#[test]
fn varint_bits_beyond_the_width_are_dropped() {
    // the tenth byte holds bits 63 and up
    let bytes = [0x80u8, 0x80, 0x80, 0x80, 0x80, 0x80, 0x80, 0x80, 0x80, 0x03];
    assert_eq!(VarintU64::read(&bytes), Some((1 << 63, 10)));
    let bytes = [0x80u8, 0x80, 0x80, 0x80, 0x7f];
    assert_eq!(VarintU32::read(&bytes), Some((0xf000_0000, 5)));
}

#[test]
fn crc32c_known_values() {
    // the check value of CRC-32C
    assert_eq!(value(b"123456789"), 0xe306_9283);
    assert_eq!(value(&[0u8; 32]), 0x8a91_36aa);
    assert_eq!(value(&[0xffu8; 32]), 0x62a8_ab43);
    let ascending: Vec<u8> = (0u8..32).collect();
    assert_eq!(value(&ascending), 0x46dd_794e);
    assert_eq!(value(b""), 0);
}

#[test]
fn crc32c_extend_continues_a_checksum() {
    assert_eq!(value(b"hello world"), extend(value(b"hello "), b"world"));
    assert_ne!(value(b"a"), value(b"foo"));
}

#[test]
fn crc_mask_is_reversible_and_not_the_identity() {
    let crc = value(b"foo");
    assert_ne!(crc, mask(crc));
    assert_ne!(crc, mask(mask(crc)));
    assert_eq!(crc, unmask(mask(crc)));
    assert_eq!(crc, unmask(unmask(mask(mask(crc)))));
    // rotate right by 15, add the constant
    assert_eq!(mask(0), 0xa282_ead8);
    assert_eq!(mask(1 << 15), 0xa282_ead9);
    assert_eq!(mask(u32::MAX), 0xa282_ead7);
}

#[test]
fn crc_detects_every_single_bit_flip() {
    let data = b"the quick brown fox".to_vec();
    let crc = value(&data);
    for i in 0..data.len() {
        for bit in 0..8 {
            let mut changed = data.clone();
            changed[i] ^= 1 << bit;
            assert_ne!(value(&changed), crc);
        }
    }
}
