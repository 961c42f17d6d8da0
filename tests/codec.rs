use lstrings::{BigramMap, DecodeError, ENCODED_LEN};

#[test]
fn encode_has_fixed_length_and_layout() {
    let m = BigramMap::from_str("foo");
    let bytes = m.encode(0x0102_0304_0506_0708);
    assert_eq!(bytes.len(), ENCODED_LEN);
    assert_eq!(ENCODED_LEN, 65536 * 4 + 8);
    let idx = (b'f' as usize) * 256 + b'o' as usize;
    assert_eq!(&bytes[4 * idx..4 * idx + 4], &[1, 0, 0, 0]);
    assert_eq!(&bytes[65536 * 4..], &[8, 7, 6, 5, 4, 3, 2, 1]);
}

#[test]
fn codec_round_trip_keeps_counts_and_magnitude() {
    let mut m = BigramMap::new();
    m.add("the quick brown fox");
    m.add("jumps over the lazy dog");
    let bits = (m.norm_sq() as f64).sqrt().to_bits();
    let bytes = m.encode(bits);
    let (d, dbits) = BigramMap::decode(&bytes).unwrap();
    assert_eq!(d.counts(), m.counts());
    assert_eq!(d.norm_sq(), m.norm_sq());
    assert_eq!(dbits, bits);
    assert_eq!(f64::from_bits(dbits), (m.norm_sq() as f64).sqrt());
}

#[test]
fn codec_round_trip_large_counts() {
    let mut lut = vec![0u32; 65536];
    lut[1] = u32::MAX;
    lut[300] = 0x1234_5678;
    let m = BigramMap::from_counts(lut);
    let bytes = m.encode(u64::MAX);
    let (d, bits) = BigramMap::decode(&bytes).unwrap();
    assert_eq!(d.counts(), m.counts());
    assert_eq!(bits, u64::MAX);
}

#[test]
fn decode_rejects_truncated_payload() {
    let m = BigramMap::new();
    let bytes = m.encode(0);
    let r = BigramMap::decode(&bytes[..bytes.len() - 1]);
    assert_eq!(
        r.err(),
        Some(DecodeError::WrongLength { expected: ENCODED_LEN, found: ENCODED_LEN - 1 })
    );
}

#[test]
fn decode_rejects_long_payload() {
    let mut bytes = BigramMap::new().encode(0);
    bytes.push(0);
    assert!(BigramMap::decode(&bytes).is_err());
    assert!(BigramMap::decode(&[]).is_err());
}
