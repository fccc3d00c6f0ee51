use rust_sss::codec::{SecretValue, serialize_secret, deserialize_secret, pad_to_minimum};
use rust_sss::Error;

#[test]
fn serialize_integer_exact() {
    let bytes = serialize_secret(&SecretValue::Integer(42));
    assert_eq!(bytes, vec![1u8, 0, 0, 0, 0, 0, 0, 0, 42]);
}

#[test]
fn serialize_negative_integer_exact() {
    let bytes = serialize_secret(&SecretValue::Integer(-2));
    assert_eq!(bytes, vec![1u8, 255, 255, 255, 255, 255, 255, 255, 254]);
}

#[test]
fn serialize_text_exact() {
    let bytes = serialize_secret(&SecretValue::Text(b"hello".to_vec()));
    assert_eq!(bytes, vec![0u8, 0, 0, 0, 5, b'h', b'e', b'l', b'l', b'o']);
}

#[test]
fn serialize_real_exact() {
    let bits = 3.25f64.to_bits();
    let bytes = serialize_secret(&SecretValue::Real(bits));
    let mut expected = vec![2u8];
    expected.extend_from_slice(&3.25f64.to_be_bytes());
    assert_eq!(bytes, expected);
    assert_eq!(bits.to_be_bytes(), 3.25f64.to_be_bytes());
}

#[test]
fn roundtrip_text() {
    let v = SecretValue::Text(b"a longer text value, with punctuation!".to_vec());
    let bytes = serialize_secret(&v);
    assert_eq!(deserialize_secret(&bytes), Ok(v));
}

#[test]
fn roundtrip_integer() {
    let v = SecretValue::Integer(-9_000_000_000);
    let bytes = serialize_secret(&v);
    assert_eq!(deserialize_secret(&bytes), Ok(v));
}

#[test]
fn roundtrip_real() {
    let v = SecretValue::Real((-0.125f64).to_bits());
    let bytes = serialize_secret(&v);
    assert_eq!(deserialize_secret(&bytes), Ok(v));
}

#[test]
fn roundtrip_empty_text() {
    let v = SecretValue::Text(Vec::new());
    let bytes = serialize_secret(&v);
    assert_eq!(deserialize_secret(&bytes), Ok(v));
}

#[test]
fn padding_is_ignored_by_decoding() {
    let v = SecretValue::Integer(7);
    let mut bytes = serialize_secret(&v);
    pad_to_minimum(&mut bytes, 32);
    assert_eq!(bytes.len(), 32);
    assert_eq!(deserialize_secret(&bytes), Ok(v));
}

#[test]
fn pad_extends_to_minimum() {
    let mut bytes = vec![9u8, 8, 7];
    pad_to_minimum(&mut bytes, 32);
    let mut expected = vec![9u8, 8, 7];
    expected.extend_from_slice(&[0u8; 29]);
    assert_eq!(bytes, expected);
}

#[test]
fn pad_is_noop_at_or_above_minimum() {
    let mut bytes = vec![1u8; 40];
    pad_to_minimum(&mut bytes, 32);
    assert_eq!(bytes, vec![1u8; 40]);
}

#[test]
fn pad_is_idempotent() {
    let mut once = vec![5u8, 6];
    pad_to_minimum(&mut once, 32);
    let mut twice = once.clone();
    pad_to_minimum(&mut twice, 32);
    assert_eq!(once, twice);
}

#[test]
fn deserialize_rejects_empty() {
    assert_eq!(deserialize_secret(&Vec::new()), Err(Error::MalformedEnvelope));
}

#[test]
fn deserialize_rejects_unknown_tag() {
    let bytes = vec![9u8, 0, 0, 0, 0, 0, 0, 0, 0];
    assert_eq!(deserialize_secret(&bytes), Err(Error::MalformedEnvelope));
}

#[test]
fn deserialize_rejects_truncated_integer() {
    let bytes = vec![1u8, 0, 0, 0];
    assert_eq!(deserialize_secret(&bytes), Err(Error::MalformedEnvelope));
}

#[test]
fn deserialize_rejects_overlong_text_length() {
    // declares 10 payload bytes but carries only 3
    let bytes = vec![0u8, 0, 0, 0, 10, b'a', b'b', b'c'];
    assert_eq!(deserialize_secret(&bytes), Err(Error::MalformedEnvelope));
}
