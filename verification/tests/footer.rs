use wickdb::sstable::{BlockHandle, Footer};

#[test]
fn test_footer_corruption() {
    let footer = Footer::new(BlockHandle::new(300, 100), BlockHandle::new(401, 1000));
    let mut encoded = footer.encoded();
    let last = encoded.last_mut().unwrap();
    *last += 1;
    let r1 = Footer::decode_from(&encoded);
    assert!(r1.is_err());
    let e1 = r1.unwrap_err();
    assert_eq!(
        e1.to_string(),
        "data corruption: not an sstable (bad magic number)"
    );
}

#[test]
fn test_encode_decode() {
    let footer = Footer::new(BlockHandle::new(300, 100), BlockHandle::new(401, 1000));
    let encoded = footer.encoded();
    let (footer, _) = Footer::decode_from(&encoded).expect("footer decoding should work");
    assert_eq!(footer.index_handle, BlockHandle::new(401, 1000));
    assert_eq!(footer.meta_index_handle, BlockHandle::new(300, 100));
}

#[test]
fn footer_is_48_bytes_and_ends_in_the_magic_number() {
    let footer = Footer::new(BlockHandle::new(0, 0), BlockHandle::new(u64::MAX, u64::MAX));
    let encoded = footer.encoded();
    assert_eq!(encoded.len(), 48);
    assert_eq!(
        &encoded[40..],
        &[0x57, 0xfb, 0x80, 0x8b, 0x24, 0x75, 0x47, 0xdb]
    );
    // two short handles, then zeros up to the magic number
    let small = Footer::new(BlockHandle::new(1, 2), BlockHandle::new(3, 4)).encoded();
    assert_eq!(&small[..4], &[1, 2, 3, 4]);
    assert!(small[4..40].iter().all(|b| *b == 0));
    let (decoded, used) = Footer::decode_from(&encoded).unwrap();
    assert_eq!(used, 22);
    assert_eq!(decoded.meta_index_handle, BlockHandle::new(0, 0));
    assert_eq!(decoded.index_handle, BlockHandle::new(u64::MAX, u64::MAX));
}

#[test]
fn any_changed_magic_byte_is_refused() {
    let footer = Footer::new(BlockHandle::new(300, 100), BlockHandle::new(401, 1000));
    let encoded = footer.encoded();
    for i in 40..48 {
        for delta in [1u8, 0x80, 0xff] {
            let mut changed = encoded.clone();
            changed[i] = changed[i].wrapping_add(delta);
            let e = Footer::decode_from(&changed).unwrap_err();
            assert_eq!(
                e.to_string(),
                "data corruption: not an sstable (bad magic number)"
            );
        }
    }
}

#[test]
fn footer_with_a_bad_handle_is_refused() {
    let mut encoded = Footer::new(BlockHandle::new(1, 2), BlockHandle::new(3, 4)).encoded();
    // a varint of eleven bytes where the first handle stands
    for b in encoded.iter_mut().take(11) {
        *b = 0x80;
    }
    let e = Footer::decode_from(&encoded).unwrap_err();
    assert_eq!(e.to_string(), "data corruption: bad block handle");
}

#[test]
fn block_handle_round_trip() {
    let values = [
        0u64,
        1,
        127,
        128,
        16383,
        16384,
        u32::MAX as u64,
        1 << 35,
        1 << 63,
        u64::MAX - 1,
        u64::MAX,
    ];
    for offset in values {
        for size in values {
            let h = BlockHandle::new(offset, size);
            let encoded = h.encoded();
            assert!(encoded.len() >= 2 && encoded.len() <= 20);
            let (decoded, used) = BlockHandle::decode_from(&encoded).unwrap();
            assert_eq!(decoded, h);
            assert_eq!(used, encoded.len());
            // bytes after the handle are not looked at
            let mut longer = encoded.clone();
            longer.extend_from_slice(&[0xff, 0x01]);
            assert_eq!(BlockHandle::decode_from(&longer).unwrap(), (h, encoded.len()));
        }
    }
}

#[test]
fn block_handle_pieces() {
    let mut h = BlockHandle::new(1, 2);
    h.set_offset(300);
    assert_eq!(h, BlockHandle::new(300, 2));
    h.set_size(128);
    assert_eq!(h, BlockHandle::new(300, 128));
    assert_eq!(h.encoded(), vec![0xac, 0x02, 0x80, 0x01]);
    let mut dst = vec![7];
    h.encoded_to(&mut dst);
    assert_eq!(dst, vec![7, 0xac, 0x02, 0x80, 0x01]);
    assert_eq!(BlockHandle::decode_at(&dst, 1).unwrap(), (h, 4));
}

#[test]
fn block_handle_that_cannot_be_read() {
    for bad in [vec![], vec![0x80], vec![1], vec![1, 0x80], vec![0xff; 12]] {
        let e = BlockHandle::decode_from(&bad).unwrap_err();
        assert_eq!(e.to_string(), "data corruption: bad block handle");
        assert!(e.is_corruption());
    }
}

#[test]
fn footer_cut_short_is_refused() {
    let whole = Footer::new(BlockHandle::new(1, 2), BlockHandle::new(3, 4)).encoded();
    assert!(Footer::decode_from(&whole).is_ok());
    for len in [0usize, 1, 8, 40, 41, 47] {
        let e = Footer::decode_from(&whole[..len]).unwrap_err();
        assert!(e.is_corruption());
        assert_eq!(
            e.to_string(),
            "data corruption: not an sstable (bad magic number)"
        );
    }
    // bytes behind the footer do not count
    let mut longer = whole.clone();
    longer.extend_from_slice(b"more");
    assert!(Footer::decode_from(&longer).is_ok());
}
