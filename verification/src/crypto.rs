//! Trusted boundary to the cryptographic primitives.
//!
//! Key derivation, the authenticated cipher, the digest, hex encoding and
//! the random source come from outside crates.  Each call sits behind one
//! wrapper whose contract states what the primitive's documentation
//! promises; results that have no short description (a key, a ciphertext,
//! a digest) are only named, as functions of the arguments alone.

use vstd::prelude::*;

verus! {

/// The 32-byte key that PBKDF2-HMAC-SHA256 with 100,000 iterations
/// derives from a password and a salt.
pub uninterp spec fn pbkdf2_key(password: Seq<u8>, salt: Seq<u8>) -> Seq<u8>;

/// The AES-256-GCM ciphertext, authentication tag appended, for a key, a
/// nonce and a plaintext.
pub uninterp spec fn aes_gcm_enc(key: Seq<u8>, nonce: Seq<u8>, plaintext: Seq<u8>) -> Seq<u8>;

/// The SHA-256 digest of a byte sequence.
pub uninterp spec fn sha256_of(data: Seq<u8>) -> Seq<u8>;

/// The lowercase hexadecimal digit for a value below 16.
pub open spec fn hex_digit(n: int) -> char
    recommends
        0 <= n < 16,
{
    if n < 10 {
        (48 + n) as char
    } else {
        (87 + n) as char
    }
}

/// The lowercase hexadecimal encoding of a byte sequence, two digits per
/// byte, high nibble first.
pub open spec fn hex_of(s: Seq<u8>) -> Seq<char>
    decreases s.len(),
{
    if s.len() == 0 {
        Seq::empty()
    } else {
        hex_of(s.drop_last()) + seq![
            hex_digit(s.last() as int / 16),
            hex_digit(s.last() as int % 16),
        ]
    }
}

/// Relies on rand's thread-local generator, a cryptographically secure
/// random source: of its output only the length can be promised.
#[verifier::external_body]
pub fn random_bytes(len: usize) -> (r: Vec<u8>)
    ensures
        r@.len() == len,
{
    let mut buf = vec![0u8; len];
    rand::Rng::fill_bytes(&mut rand::rng(), &mut buf);
    buf
}

/// Relies on pbkdf2::pbkdf2_hmac with SHA-256: the derived key is a
/// function of the password and the salt alone (the iteration count is
/// fixed here at 100,000) and fills the 32-byte output exactly.
#[verifier::external_body]
pub fn derive_key(password: &Vec<u8>, salt: &Vec<u8>) -> (r: Vec<u8>)
    ensures
        r@ == pbkdf2_key(password@, salt@),
        r@.len() == 32,
{
    let mut key = [0u8; 32];
    pbkdf2::pbkdf2_hmac::<sha2::Sha256>(password.as_slice(), salt.as_slice(), 100_000, &mut key);
    key.to_vec()
}

/// Relies on aes_gcm::Aes256Gcm through aead's `Aead::encrypt`: the
/// ciphertext is a function of key, nonce and plaintext alone, one
/// 16-byte tag longer than the plaintext; within the length bound below
/// GCM encryption does not fail.
#[verifier::external_body]
pub fn aes_encrypt(key: &Vec<u8>, nonce: &Vec<u8>, plaintext: &Vec<u8>) -> (r: Vec<u8>)
    requires
        key@.len() == 32,
        nonce@.len() == 12,
        plaintext@.len() <= 0xFFFF_FFFF,
    ensures
        r@ == aes_gcm_enc(key@, nonce@, plaintext@),
        r@.len() == plaintext@.len() + 16,
{
    let k: &aes_gcm::Key<aes_gcm::Aes256Gcm> = key.as_slice().try_into().expect("key length");
    let cipher = <aes_gcm::Aes256Gcm as aes_gcm::KeyInit>::new(k);
    let n: &aes_gcm::aead::Nonce<aes_gcm::Aes256Gcm> = nonce.as_slice().try_into().expect(
        "nonce length",
    );
    <aes_gcm::Aes256Gcm as aes_gcm::aead::Aead>::encrypt(&cipher, n, plaintext.as_slice()).expect(
        "encryption",
    )
}

/// Relies on aes_gcm::Aes256Gcm through aead's `Aead::decrypt`:
/// decryption inverts encryption under the same key and nonce; of any
/// other input nothing is promised, and a failed tag check comes back as
/// `None`.
#[verifier::external_body]
pub fn aes_decrypt(key: &Vec<u8>, nonce: &Vec<u8>, ciphertext: &Vec<u8>) -> (r: Option<Vec<u8>>)
    requires
        key@.len() == 32,
        nonce@.len() == 12,
    ensures
        forall|p: Seq<u8>|
            (p.len() + 16 == ciphertext@.len() && p.len() <= 0xFFFF_FFFF && ciphertext@
                == #[trigger] aes_gcm_enc(key@, nonce@, p)) ==> r is Some && r->0@ == p,
        r is Some ==> ciphertext@.len() >= 16 && r->0@.len() == ciphertext@.len() - 16,
{
    let k: &aes_gcm::Key<aes_gcm::Aes256Gcm> = key.as_slice().try_into().expect("key length");
    let cipher = <aes_gcm::Aes256Gcm as aes_gcm::KeyInit>::new(k);
    let n: &aes_gcm::aead::Nonce<aes_gcm::Aes256Gcm> = nonce.as_slice().try_into().expect(
        "nonce length",
    );
    match <aes_gcm::Aes256Gcm as aes_gcm::aead::Aead>::decrypt(&cipher, n, ciphertext.as_slice()) {
        Ok(p) => Some(p),
        Err(_) => None,
    }
}

/// Relies on sha2::Sha256 through `Digest::digest`: the digest is a
/// function of the input bytes alone and is 32 bytes long.
#[verifier::external_body]
pub fn sha256(data: &Vec<u8>) -> (r: Vec<u8>)
    ensures
        r@ == sha256_of(data@),
        r@.len() == 32,
{
    <sha2::Sha256 as sha2::Digest>::digest(data.as_slice()).to_vec()
}

/// Relies on hex::encode: two lowercase hexadecimal digits per input
/// byte, high nibble first.
#[verifier::external_body]
pub fn hex_encode(data: &Vec<u8>) -> (r: String)
    ensures
        r@ == hex_of(data@),
{
    hex::encode(data.as_slice())
}

} // verus!
