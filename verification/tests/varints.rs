use uscope::error::DecodeError;
use uscope::leb128::{decode_u64, encode_u64, encode_u64_vec};

#[test]
fn roundtrip_zero() {
    let mut buf = [0u8; 10];
    let n = encode_u64(0, &mut buf);
    assert_eq!(n, 1);
    assert_eq!(buf[0], 0);
    let (val, consumed) = decode_u64(&buf[..n]).unwrap();
    assert_eq!(val, 0);
    assert_eq!(consumed, 1);
}

#[test]
fn roundtrip_small() {
    let mut buf = [0u8; 10];
    let n = encode_u64(127, &mut buf);
    assert_eq!(n, 1);
    let (val, consumed) = decode_u64(&buf[..n]).unwrap();
    assert_eq!(val, 127);
    assert_eq!(consumed, 1);
}

#[test]
fn roundtrip_128() {
    let mut buf = [0u8; 10];
    let n = encode_u64(128, &mut buf);
    assert_eq!(n, 2);
    let (val, consumed) = decode_u64(&buf[..n]).unwrap();
    assert_eq!(val, 128);
    assert_eq!(consumed, 2);
}

#[test]
fn roundtrip_large() {
    let mut buf = [0u8; 10];
    for &val in &[1000u64, 65535, 1_000_000, u64::MAX] {
        let n = encode_u64(val, &mut buf);
        let (decoded, consumed) = decode_u64(&buf[..n]).unwrap();
        assert_eq!(decoded, val);
        assert_eq!(consumed, n);
    }
}

#[test]
fn encode_vec() {
    let mut v = Vec::new();
    encode_u64_vec(300, &mut v);
    let (val, consumed) = decode_u64(&v).unwrap();
    assert_eq!(val, 300);
    assert_eq!(consumed, v.len());
}

#[test]
fn decode_incomplete() {
    assert_eq!(decode_u64(&[0x80]), Err(DecodeError::Incomplete));
    assert_eq!(decode_u64(&[]), Err(DecodeError::Incomplete));
}

#[test]
fn decode_overflow() {
    // 11 bytes with continuation bits set — would overflow u64
    let data = [0x80; 11];
    assert_eq!(decode_u64(&data), Err(DecodeError::Overflow));
}

#[test]
fn values_of_64_bits_and_more() {
    let mut data = [0x80u8; 10];
    data[9] = 1;
    assert_eq!(decode_u64(&data), Ok((1 << 63, 10)));
    let largest = [0xFF, 0xFF, 0xFF, 0xFF, 0xFF, 0xFF, 0xFF, 0xFF, 0xFF, 1];
    assert_eq!(decode_u64(&largest), Ok((u64::MAX, 10)));
    data[9] = 2;
    assert_eq!(decode_u64(&data), Err(DecodeError::Overflow));
    data[9] = 0x7F;
    assert_eq!(decode_u64(&data), Err(DecodeError::Overflow));
    data[9] = 0x82;
    assert_eq!(decode_u64(&data), Err(DecodeError::Incomplete));
}
