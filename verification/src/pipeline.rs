//! The pipeline composing codec, key derivation, cipher and splitter.
//!
//! Encrypting serializes and pads the secret, draws a fresh random salt
//! and nonce, derives the key from the password, encrypts, prepends salt
//! and nonce, and splits the combined bytes into shares.  Decrypting runs
//! the mirror image; the cipher's authentication tag is the only check
//! that the shares were sufficient and untampered.

use vstd::prelude::*;

use crate::Error;
use crate::codec::{
    MIN_SECRET_SIZE, SecretValue, SecretSpec, secret_wf, serialize_spec, deserialize_spec,
    pad_spec, serialize_secret, deserialize_secret, pad_to_minimum,
};
use crate::crypto::{
    pbkdf2_key, aes_gcm_enc, sha256_of, hex_of, random_bytes, derive_key, aes_encrypt, aes_decrypt,
    sha256, hex_encode,
};
use crate::codec::lemma_padded_codec_roundtrip;
use crate::shamir::{
    split_shares, combinable, combine_err, combine_bytes, split_with_coeffs, combine,
    lemma_single_share_recovers,
};

verus! {

/// Length of the salt that key derivation consumes.
pub const SALT_LEN: usize = 16;

/// Length of the nonce the cipher consumes.
pub const NONCE_LEN: usize = 12;

/// The combined ciphertext for a secret, a password, a salt and a nonce:
/// salt, then nonce, then the authenticated ciphertext of the padded
/// envelope.  This is the exact byte string that is split into shares
/// and that a successful combine reproduces.
pub open spec fn combined_spec(
    v: SecretSpec,
    password: Seq<u8>,
    salt: Seq<u8>,
    nonce: Seq<u8>,
) -> Seq<u8> {
    salt + nonce + aes_gcm_enc(
        pbkdf2_key(password, salt),
        nonce,
        pad_spec(serialize_spec(v), MIN_SECRET_SIZE as nat),
    )
}

/// The shares are a split of the combined ciphertext built from this
/// salt and nonce, for some drawn coefficient bytes of the right count.
pub open spec fn shares_of_encryption(
    v: SecretSpec,
    password: Seq<u8>,
    threshold: u8,
    count: u8,
    shares: Seq<Seq<u8>>,
    salt: Seq<u8>,
    nonce: Seq<u8>,
) -> bool {
    let combined = combined_spec(v, password, salt, nonce);
    exists|coeffs: Seq<u8>|
        coeffs.len() == combined.len() * ((threshold - 1) as int) && shares == #[trigger] split_shares(
            combined,
            coeffs,
            threshold as nat,
            count as nat,
        )
}

/// What an encryption run hands back: the shares to distribute, and the
/// salt and nonce for out-of-band display (they are also embedded in
/// every share).
pub struct EncryptOutput {
    pub shares: Vec<Vec<u8>>,
    pub salt: Vec<u8>,
    pub nonce: Vec<u8>,
}

/// Append all of `src` to `dst`.
fn append_bytes(dst: &mut Vec<u8>, src: &Vec<u8>)
    ensures
        final(dst)@ == old(dst)@ + src@,
{
    let mut i: usize = 0;
    proof {
        assert(dst@ =~= old(dst)@ + src@.subrange(0, 0));
    }
    while i < src.len()
        invariant
            i <= src@.len(),
            dst@ == old(dst)@ + src@.subrange(0, i as int),
        decreases src@.len() - i,
    {
        dst.push(src[i]);
        proof {
            assert(dst@ =~= old(dst)@ + src@.subrange(0, i + 1));
        }
        i = i + 1;
    }
    proof {
        assert(src@.subrange(0, src@.len() as int) =~= src@);
    }
}

/// The bytes of `src` from `from` up to `to`.
fn copy_range(src: &Vec<u8>, from: usize, to: usize) -> (r: Vec<u8>)
    requires
        from <= to <= src@.len(),
    ensures
        r@ == src@.subrange(from as int, to as int),
{
    let mut out: Vec<u8> = Vec::new();
    let mut i: usize = from;
    proof {
        assert(out@ =~= src@.subrange(from as int, from as int));
    }
    while i < to
        invariant
            from <= i <= to <= src@.len(),
            out@ == src@.subrange(from as int, i as int),
        decreases to - i,
    {
        out.push(src[i]);
        proof {
            assert(out@ =~= src@.subrange(from as int, i + 1));
        }
        i = i + 1;
    }
    out
}

/// Encrypt a secret under a password and split the result into `count`
/// shares with reconstruction threshold `threshold`.
///
/// Fails with `InvalidThreshold` exactly when 1 <= threshold <= count is
/// violated, before any cryptographic work.  On success the shares are
/// the split of the combined ciphertext built from the returned salt and
/// nonce and some drawn coefficient bytes.
pub fn encrypt_flow(secret: &SecretValue, password: &Vec<u8>, threshold: u8, count: u8) -> (r:
    Result<EncryptOutput, Error>)
    requires
        secret_wf(secret@),
        serialize_spec(secret@).len() <= 0xFFFF_FFFF,
        (serialize_spec(secret@).len() + 76) * 255 < usize::MAX,
    ensures
        r is Ok <==> 1 <= threshold && threshold <= count,
        match r {
            Ok(out) => {
                &&& out.salt@.len() == SALT_LEN
                &&& out.nonce@.len() == NONCE_LEN
                &&& shares_of_encryption(
                    secret@,
                    password@,
                    threshold,
                    count,
                    out.shares.deep_view(),
                    out.salt@,
                    out.nonce@,
                )
            },
            Err(e) => e == Error::InvalidThreshold,
        },
{
    if threshold < 1 || threshold > count {
        return Err(Error::InvalidThreshold);
    }
    let mut envelope = serialize_secret(secret);
    pad_to_minimum(&mut envelope, MIN_SECRET_SIZE);
    let salt = random_bytes(SALT_LEN);
    let nonce = random_bytes(NONCE_LEN);
    let key = derive_key(password, &salt);
    let ciphertext = aes_encrypt(&key, &nonce, &envelope);
    let mut combined: Vec<u8> = Vec::new();
    append_bytes(&mut combined, &salt);
    append_bytes(&mut combined, &nonce);
    append_bytes(&mut combined, &ciphertext);
    let ghost combined_s = combined_spec(secret@, password@, salt@, nonce@);
    proof {
        assert(combined@ =~= combined_s);
        assert(combined@.len() <= serialize_spec(secret@).len() + 76);
    }
    let clen: usize = combined.len();
    let k1: usize = (threshold - 1) as usize;
    proof {
        assert((clen as int) * (k1 as int) <= (serialize_spec(secret@).len() + 76) * 255)
            by (nonlinear_arith)
            requires
                0 <= clen as int <= serialize_spec(secret@).len() + 76,
                0 <= k1 as int <= 255,
        ;
    }
    let coeffs = random_bytes(clen * k1);
    match split_with_coeffs(&combined, threshold, count, &coeffs) {
        Ok(shares) => {
            proof {
                let w = coeffs@;
                assert(w.len() == combined_s.len() * ((threshold - 1) as int) && shares.deep_view()
                    == split_shares(combined_s, w, threshold as nat, count as nat));
                assert(shares_of_encryption(
                    secret@,
                    password@,
                    threshold,
                    count,
                    shares.deep_view(),
                    salt@,
                    nonce@,
                ));
            }
            Ok(EncryptOutput { shares, salt, nonce })
        },
        Err(e) => Err(e),
    }
}

/// Combine shares, strip salt and nonce, derive the key from the
/// password and decrypt, then decode the envelope.
///
/// Rejected shares surface the combiner's error; combined bytes too
/// short to hold salt and nonce fail with `MalformedEnvelope`; a failed
/// authentication check (wrong password, too few shares, or tampering)
/// fails with `DecryptionFailed`; and a decrypted envelope that does not
/// decode fails with `MalformedEnvelope`.  When the combined bytes are a
/// genuine encryption under this password, the encoded value is
/// returned.
pub fn decrypt_flow(shares: &Vec<Vec<u8>>, password: &Vec<u8>) -> (r: Result<SecretValue, Error>)
    ensures
        !combinable(shares.deep_view()) ==> r == Err::<SecretValue, Error>(
            combine_err(shares.deep_view()),
        ),
        combinable(shares.deep_view()) && combine_bytes(shares.deep_view()).len() < SALT_LEN
            + NONCE_LEN ==> r == Err::<SecretValue, Error>(Error::MalformedEnvelope),
        combinable(shares.deep_view()) && combine_bytes(shares.deep_view()).len() >= SALT_LEN
            + NONCE_LEN ==> {
            let cb = combine_bytes(shares.deep_view());
            let key = pbkdf2_key(password@, cb.subrange(0, SALT_LEN as int));
            let nonce = cb.subrange(SALT_LEN as int, SALT_LEN + NONCE_LEN);
            let ct = cb.subrange(SALT_LEN + NONCE_LEN, cb.len() as int);
            forall|p: Seq<u8>|
                (p.len() + 16 == ct.len() && p.len() <= 0xFFFF_FFFF && ct == #[trigger] aes_gcm_enc(
                    key,
                    nonce,
                    p,
                )) ==> match deserialize_spec(p) {
                    Some(v) => (r matches Ok(rv) && rv@ == v),
                    None => r == Err::<SecretValue, Error>(Error::MalformedEnvelope),
                }
        },
{
    let combined = match combine(shares) {
        Ok(c) => c,
        Err(e) => {
            return Err(e);
        },
    };
    if combined.len() < SALT_LEN + NONCE_LEN {
        return Err(Error::MalformedEnvelope);
    }
    let salt = copy_range(&combined, 0, SALT_LEN);
    let nonce = copy_range(&combined, SALT_LEN, SALT_LEN + NONCE_LEN);
    let ciphertext = copy_range(&combined, SALT_LEN + NONCE_LEN, combined.len());
    let key = derive_key(password, &salt);
    let plaintext = match aes_decrypt(&key, &nonce, &ciphertext) {
        Some(p) => p,
        None => {
            return Err(Error::DecryptionFailed);
        },
    };
    match deserialize_secret(&plaintext) {
        Ok(v) => Ok(v),
        Err(_) => Err(Error::MalformedEnvelope),
    }
}

/// With threshold 1, any single share of an encryption already
/// reconstructs the combined ciphertext exactly, and the padded envelope
/// inside it decodes back to the secret: the round trip holds through
/// every verified stage, with the cipher's own inversion bridging the
/// encrypted middle.
pub proof fn lemma_single_share_roundtrip(
    v: SecretSpec,
    password: Seq<u8>,
    n: u8,
    shares: Seq<Seq<u8>>,
    salt: Seq<u8>,
    nonce: Seq<u8>,
    i: int,
)
    requires
        secret_wf(v),
        shares_of_encryption(v, password, 1, n, shares, salt, nonce),
        0 <= i < shares.len(),
    ensures
        combinable(seq![shares[i]]),
        combine_bytes(seq![shares[i]]) == combined_spec(v, password, salt, nonce),
        deserialize_spec(pad_spec(serialize_spec(v), MIN_SECRET_SIZE as nat)) == Some(v),
{
    let combined = combined_spec(v, password, salt, nonce);
    let coeffs = choose|coeffs: Seq<u8>|
        coeffs.len() == combined.len() * ((1u8 - 1) as int) && shares == #[trigger] split_shares(
            combined,
            coeffs,
            1u8 as nat,
            n as nat,
        );
    assert(coeffs.len() == 0);
    assert(shares.len() == n as nat);
    lemma_single_share_recovers(combined, coeffs, n as nat, i);
    assert(shares[i] == split_shares(combined, coeffs, 1, n as nat)[i]);
    lemma_padded_codec_roundtrip(v, MIN_SECRET_SIZE as nat);
}

/// The short human label of a share, for bookkeeping only: the first
/// four bytes of its SHA-256 digest, hex-encoded.
pub fn share_label(share: &Vec<u8>) -> (r: String)
    ensures
        r@ == hex_of(sha256_of(share@).subrange(0, 4)),
{
    let digest = sha256(share);
    let prefix = copy_range(&digest, 0, 4);
    hex_encode(&prefix)
}

} // verus!
