use recorder::varint::{
    decode_varint32, decode_varint64, decode_zig_zag_64, encode_varint32, encode_varint32_size,
    encode_varint64, encode_zig_zag_64, encoded_varint64_len, varint64_to_vec, VarintError,
};

#[test]
fn test_encoded_varint64_len() {
    fn test(n: u64) {
        let mut buf = [0u8; 10];
        let expected = encode_varint64(n, &mut buf);
        assert_eq!(expected, encoded_varint64_len(n), "n={}", n);
    }

    for n in 0..1000 {
        test(n);
    }

    for p in 0.. {
        match 2u64.checked_pow(p) {
            Some(n) => test(n),
            None => break,
        }
    }

    for p in 0.. {
        match 3u64.checked_pow(p) {
            Some(n) => test(n),
            None => break,
        }
    }

    test(u64::MAX);
    test(u64::MAX - 1);
    test((i64::MAX as u64) + 1);
    test(i64::MAX as u64);
    test((i64::MAX as u64) - 1);
    test((u32::MAX as u64) + 1);
    test(u32::MAX as u64);
    test((u32::MAX as u64) - 1);
    test((i32::MAX as u64) + 1);
    test(i32::MAX as u64);
    test((i32::MAX as u64) - 1);
}

#[test]
fn test() {
    let mut buf = [0_u8; 10];
    let n = encode_varint32_size(100, &mut buf[..]);
    println!("encoded len {n}");
    let mut buf = [0u8; 10];
    let n = encode_varint64(1709094963000, &mut buf[..]);
    println!("encoded len {n}");

    let value = 1709094963000;
    let znum = encode_zig_zag_64(value);
    let n = encode_varint64(znum, &mut buf[..]);
    println!("encoded {value}: len {n}, znum {znum}");

    let value = 0x000FFFFF;
    let znum = encode_zig_zag_64(value);
    let n = encode_varint64(znum, &mut buf[..]);
    println!("encoded {value}: len {n}, znum {znum}");
}

#[test]
fn varint_exact_bytes() {
    assert_eq!(varint64_to_vec(0), vec![0]);
    assert_eq!(varint64_to_vec(127), vec![127]);
    assert_eq!(varint64_to_vec(128), vec![0x80, 0x01]);
    assert_eq!(varint64_to_vec(300), vec![0xAC, 0x02]);
    assert_eq!(varint64_to_vec(u64::MAX).len(), 10);
    let mut buf = [0u8; 5];
    assert_eq!(encode_varint32(u32::MAX, &mut buf), 5);
    assert_eq!(buf, [0xFF, 0xFF, 0xFF, 0xFF, 0x0F]);
}

#[test]
fn varint_round_trip_values() {
    for v in [0u64, 1, 127, 128, 300, 16384, 1 << 35, u64::MAX - 1, u64::MAX] {
        let mut enc = varint64_to_vec(v);
        let n = enc.len();
        enc.extend_from_slice(&[7, 7]);
        assert_eq!(decode_varint64(&enc), Ok(Some((v, n))));
    }
    for v in [0u32, 1, 300, u32::MAX] {
        let enc = varint64_to_vec(v as u64);
        assert_eq!(decode_varint32(&enc), Ok(Some((v, enc.len()))));
    }
}

#[test]
fn varint_decode_incomplete_and_malformed() {
    assert_eq!(decode_varint64(&[]), Ok(None));
    assert_eq!(decode_varint64(&[0x80, 0x80]), Ok(None));
    assert_eq!(decode_varint64(&[0xFF; 10]), Err(VarintError::Malformed));
    assert_eq!(decode_varint64(&[0xFF, 0xFF, 0xFF, 0xFF, 0xFF, 0xFF, 0xFF, 0xFF, 0xFF, 0x02]), Err(VarintError::Malformed));
    assert_eq!(decode_varint32(&[0xFF, 0xFF, 0xFF, 0xFF, 0x1F]), Err(VarintError::Malformed));
    assert_eq!(decode_varint32(&[0x80; 5]), Err(VarintError::Malformed));
}

#[test]
fn zigzag_values() {
    assert_eq!(encode_zig_zag_64(0), 0);
    assert_eq!(encode_zig_zag_64(-1), 1);
    assert_eq!(encode_zig_zag_64(1), 2);
    assert_eq!(encode_zig_zag_64(-2), 3);
    assert_eq!(encode_zig_zag_64(i64::MIN), u64::MAX);
    assert_eq!(encode_zig_zag_64(i64::MAX), u64::MAX - 1);
    for v in [0i64, -1, 1, i64::MIN, i64::MAX, 1709094963000, -1709094963000] {
        assert_eq!(decode_zig_zag_64(encode_zig_zag_64(v)), v);
    }
}
