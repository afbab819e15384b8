use libsourcemap::errors::Error;
use libsourcemap::vlq::{decode, encode};

fn roundtrip(vals: &[i64]) {
    let encoded = encode(&vals.to_vec());
    let decoded = decode(&encoded).expect("valid encoding must decode");
    assert_eq!(decoded, vals.to_vec());
}

#[test]
fn vlq_roundtrip_zero_and_small() {
    roundtrip(&[0]);
    roundtrip(&[1]);
    roundtrip(&[-1]);
    roundtrip(&[15, 16, 31, 32, 33]);
    roundtrip(&[-15, -16, -31, -32, -33]);
}

#[test]
fn vlq_roundtrip_i32_extremes() {
    roundtrip(&[i32::MAX as i64]);
    roundtrip(&[i32::MIN as i64]);
    roundtrip(&[i32::MAX as i64 - 1, i32::MIN as i64 + 1]);
}

#[test]
fn vlq_roundtrip_full_magnitude() {
    // the codec carries magnitudes up to 32 bits
    roundtrip(&[u32::MAX as i64]);
    roundtrip(&[-(u32::MAX as i64)]);
}

#[test]
fn vlq_roundtrip_mixed_stream() {
    roundtrip(&[0, 0, 0, 0, 1, -1, 12345, -54321, 1 << 20]);
}

#[test]
fn vlq_known_encodings() {
    assert_eq!(encode(&vec![0]), b"A".to_vec());
    assert_eq!(encode(&vec![1]), b"C".to_vec());
    assert_eq!(encode(&vec![-1]), b"D".to_vec());
    assert_eq!(encode(&vec![16]), b"gB".to_vec());
    assert_eq!(decode(&b"AAAA".to_vec()).unwrap(), vec![0, 0, 0, 0]);
}

#[test]
fn vlq_rejects_invalid_byte() {
    assert_eq!(decode(&b"A!A".to_vec()), Err(Error::MalformedVlq));
    assert_eq!(decode(&b"\x00".to_vec()), Err(Error::MalformedVlq));
}

#[test]
fn vlq_rejects_truncated_stream() {
    // 'g' has the continuation flag set, so the value never ends
    assert_eq!(decode(&b"g".to_vec()), Err(Error::TruncatedVlq));
    assert_eq!(decode(&b"Ag".to_vec()), Err(Error::TruncatedVlq));
}

#[test]
fn vlq_rejects_too_many_continuations() {
    // seven digits all carrying the continuation flag: an eighth digit
    // would be needed, which the codec refuses
    assert_eq!(decode(&b"ggggggg".to_vec()), Err(Error::VlqOverflow));
}

#[test]
fn vlq_rejects_magnitude_beyond_32_bits() {
    // seven digits ending cleanly but standing for a 33-bit magnitude
    assert_eq!(decode(&b"ggggggQ".to_vec()), Err(Error::VlqOverflow));
}

#[test]
fn vlq_empty_stream_is_empty() {
    assert_eq!(decode(&Vec::new()).unwrap(), Vec::<i64>::new());
    assert_eq!(encode(&Vec::new()), Vec::<u8>::new());
}
