use rust_sss::codec::{SecretValue, serialize_secret, pad_to_minimum};
use rust_sss::pipeline::{encrypt_flow, decrypt_flow, share_label};
use rust_sss::shamir::split_with_coeffs;
use rust_sss::Error;

fn pw(s: &str) -> Vec<u8> {
    s.as_bytes().to_vec()
}

#[test]
fn text_three_of_five_roundtrip() {
    let secret = SecretValue::Text(b"hello".to_vec());
    let out = encrypt_flow(&secret, &pw("pw123"), 3, 5).unwrap();
    assert_eq!(out.shares.len(), 5);
    let len = out.shares[0].len();
    for share in &out.shares {
        assert_eq!(share.len(), len);
    }
    let subset = vec![out.shares[0].clone(), out.shares[2].clone(), out.shares[3].clone()];
    assert_eq!(decrypt_flow(&subset, &pw("pw123")), Ok(secret));
}

#[test]
fn text_below_threshold_fails_decryption() {
    let secret = SecretValue::Text(b"hello".to_vec());
    let out = encrypt_flow(&secret, &pw("pw123"), 3, 5).unwrap();
    let subset = vec![out.shares[0].clone(), out.shares[2].clone()];
    assert_eq!(decrypt_flow(&subset, &pw("pw123")), Err(Error::DecryptionFailed));
}

#[test]
fn integer_two_of_two_needs_both() {
    let secret = SecretValue::Integer(42);
    let out = encrypt_flow(&secret, &pw("both needed"), 2, 2).unwrap();
    assert_eq!(decrypt_flow(&out.shares, &pw("both needed")), Ok(secret));
    for share in &out.shares {
        let single = vec![share.clone()];
        assert_eq!(decrypt_flow(&single, &pw("both needed")), Err(Error::DecryptionFailed));
    }
}

#[test]
fn tampered_share_fails_decryption() {
    let secret = SecretValue::Text(b"tamper check".to_vec());
    let out = encrypt_flow(&secret, &pw("pw"), 3, 5).unwrap();
    let share_len = out.shares[0].len();
    // flip one bit in a sample of non-index byte positions: inside the
    // embedded salt, the nonce, the ciphertext body and the tag
    for victim in 0..3 {
        for byte in [1, 10, 20, 30, 45, share_len - 1] {
            let mut subset = vec![
                out.shares[0].clone(),
                out.shares[1].clone(),
                out.shares[2].clone(),
            ];
            subset[victim][byte] ^= 0x01;
            assert_eq!(decrypt_flow(&subset, &pw("pw")), Err(Error::DecryptionFailed));
        }
    }
}

#[test]
fn wrong_password_fails_decryption() {
    let secret = SecretValue::Integer(-7);
    let out = encrypt_flow(&secret, &pw("right"), 2, 3).unwrap();
    let subset = vec![out.shares[1].clone(), out.shares[2].clone()];
    assert_eq!(decrypt_flow(&subset, &pw("wrong")), Err(Error::DecryptionFailed));
}

#[test]
fn real_roundtrip() {
    let secret = SecretValue::Real((-12.5f64).to_bits());
    let out = encrypt_flow(&secret, &pw("float"), 2, 2).unwrap();
    let recovered = decrypt_flow(&out.shares, &pw("float")).unwrap();
    match recovered {
        SecretValue::Real(bits) => assert_eq!(f64::from_bits(bits), -12.5),
        other => panic!("wrong variant: {:?}", other),
    }
}

#[test]
fn invalid_thresholds_rejected() {
    let secret = SecretValue::Integer(1);
    assert!(matches!(encrypt_flow(&secret, &pw("p"), 0, 5), Err(Error::InvalidThreshold)));
    assert!(matches!(encrypt_flow(&secret, &pw("p"), 3, 2), Err(Error::InvalidThreshold)));
}

#[test]
fn salt_and_nonce_have_documented_lengths() {
    let secret = SecretValue::Integer(5);
    let out = encrypt_flow(&secret, &pw("p"), 1, 1).unwrap();
    assert_eq!(out.salt.len(), 16);
    assert_eq!(out.nonce.len(), 12);
}

#[test]
fn share_embeds_salt_nonce_and_tagged_ciphertext_length() {
    // padded envelope (32) + tag (16) + salt (16) + nonce (12) + index (1)
    let secret = SecretValue::Integer(5);
    let out = encrypt_flow(&secret, &pw("p"), 2, 3).unwrap();
    assert_eq!(out.shares[0].len(), 1 + 16 + 12 + 32 + 16);
}

#[test]
fn share_label_matches_digest_prefix() {
    let share = vec![3u8, 1, 4, 1, 5, 9, 2, 6];
    let label = share_label(&share);
    let digest = <sha2::Sha256 as sha2::Digest>::digest(share.as_slice());
    let expected = hex::encode(&digest[..4]);
    assert_eq!(label, expected);
    assert_eq!(label.len(), 8);
}

#[test]
fn decrypt_flow_reports_share_errors() {
    let shares = vec![vec![0u8, 1, 2], vec![2u8, 3, 4]];
    assert_eq!(decrypt_flow(&shares, &pw("p")), Err(Error::MalformedShare));
    let shares = vec![vec![1u8, 1, 2], vec![2u8, 3]];
    assert_eq!(decrypt_flow(&shares, &pw("p")), Err(Error::InconsistentShares));
}

#[test]
fn decrypt_flow_rejects_too_short_combined() {
    // a single share of threshold 1 reproduces the combined bytes exactly;
    // 5 bytes cannot hold the 16-byte salt and 12-byte nonce
    let shares = vec![vec![1u8, 9, 9, 9, 9, 9]];
    assert_eq!(decrypt_flow(&shares, &pw("p")), Err(Error::MalformedEnvelope));
}

#[test]
fn manually_built_ciphertext_decrypts_through_shares() {
    // build the combined ciphertext with the outside crates directly and
    // check that splitting and the decrypt pipeline recover the secret
    let secret = SecretValue::Text(b"interop".to_vec());
    let mut envelope = serialize_secret(&secret);
    pad_to_minimum(&mut envelope, 32);

    let salt: Vec<u8> = (1u8..=16).collect();
    let nonce: Vec<u8> = (21u8..=32).collect();
    let mut key = [0u8; 32];
    pbkdf2::pbkdf2_hmac::<sha2::Sha256>(b"pass", &salt, 100_000, &mut key);
    let k: &aes_gcm::Key<aes_gcm::Aes256Gcm> = key.as_slice().try_into().unwrap();
    let cipher = <aes_gcm::Aes256Gcm as aes_gcm::KeyInit>::new(k);
    let n: &aes_gcm::aead::Nonce<aes_gcm::Aes256Gcm> = nonce.as_slice().try_into().unwrap();
    let ciphertext =
        <aes_gcm::Aes256Gcm as aes_gcm::aead::Aead>::encrypt(&cipher, n, envelope.as_slice())
            .unwrap();

    let mut combined = salt.clone();
    combined.extend_from_slice(&nonce);
    combined.extend_from_slice(&ciphertext);

    let coeffs: Vec<u8> = (0..combined.len()).map(|i| (i as u8).wrapping_add(3)).collect();
    let shares = split_with_coeffs(&combined, 2, 3, &coeffs).unwrap();
    let subset = vec![shares[2].clone(), shares[0].clone()];
    assert_eq!(decrypt_flow(&subset, &pw("pass")), Ok(secret));
}
