//! Envelope codec: a typed secret value and its self-describing byte
//! encoding.
//!
//! The envelope is one tag byte (0 = text, 1 = integer, 2 = real) followed
//! by the variant payload: text carries a 4-byte big-endian length and the
//! UTF-8 bytes, an integer its 8-byte big-endian two's complement, and a
//! real the 8-byte big-endian IEEE-754 bit pattern of the number.  Decoding
//! reads only the declared payload, so trailing padding is never
//! interpreted.

use vstd::prelude::*;

use crate::Error;

verus! {

/// Minimum envelope length before encryption; shorter envelopes are
/// zero-padded so that very short secrets do not leak their length
/// through the share size.
pub const MIN_SECRET_SIZE: usize = 32;

/// A typed secret value.
///
/// Text is carried as its UTF-8 bytes; a real number is carried as the
/// bit pattern of its 64-bit IEEE-754 representation, so that the byte
/// layout of the envelope is exact while the library itself stays within
/// integer arithmetic.
#[derive(Debug, PartialEq, Eq)]
pub enum SecretValue {
    Text(Vec<u8>),
    Integer(i64),
    Real(u64),
}

/// The mathematical model of a `SecretValue`.
pub enum SecretSpec {
    Text(Seq<u8>),
    Integer(i64),
    Real(u64),
}

impl View for SecretValue {
    type V = SecretSpec;

    open spec fn view(&self) -> SecretSpec {
        match self {
            SecretValue::Text(b) => SecretSpec::Text(b@),
            SecretValue::Integer(i) => SecretSpec::Integer(*i),
            SecretValue::Real(r) => SecretSpec::Real(*r),
        }
    }
}

/// A value is encodable when its declared text length fits the 4-byte
/// length field.
pub open spec fn secret_wf(v: SecretSpec) -> bool {
    match v {
        SecretSpec::Text(b) => b.len() <= 0xFFFF_FFFF,
        SecretSpec::Integer(_) => true,
        SecretSpec::Real(_) => true,
    }
}

/// The big-endian bytes of a 32-bit word.
pub open spec fn u32_be(x: u32) -> Seq<u8> {
    seq![
        ((x >> 24) & 0xff) as u8,
        ((x >> 16) & 0xff) as u8,
        ((x >> 8) & 0xff) as u8,
        (x & 0xff) as u8,
    ]
}

/// The 32-bit word read from 4 big-endian bytes.
pub open spec fn u32_from_be(b: Seq<u8>) -> u32
    recommends
        b.len() == 4,
{
    ((b[0] as u32) << 24) | ((b[1] as u32) << 16) | ((b[2] as u32) << 8) | (b[3] as u32)
}

/// The big-endian bytes of a 64-bit word.
pub open spec fn u64_be(x: u64) -> Seq<u8> {
    seq![
        ((x >> 56) & 0xff) as u8,
        ((x >> 48) & 0xff) as u8,
        ((x >> 40) & 0xff) as u8,
        ((x >> 32) & 0xff) as u8,
        ((x >> 24) & 0xff) as u8,
        ((x >> 16) & 0xff) as u8,
        ((x >> 8) & 0xff) as u8,
        (x & 0xff) as u8,
    ]
}

/// The 64-bit word read from 8 big-endian bytes.
pub open spec fn u64_from_be(b: Seq<u8>) -> u64
    recommends
        b.len() == 8,
{
    ((b[0] as u64) << 56) | ((b[1] as u64) << 48) | ((b[2] as u64) << 40) | ((b[3] as u64) << 32)
        | ((b[4] as u64) << 24) | ((b[5] as u64) << 16) | ((b[6] as u64) << 8) | (b[7] as u64)
}

/// The envelope encoding of a secret value.
pub open spec fn serialize_spec(v: SecretSpec) -> Seq<u8> {
    match v {
        SecretSpec::Text(b) => seq![0u8] + u32_be(b.len() as u32) + b,
        SecretSpec::Integer(i) => seq![1u8] + u64_be(i as u64),
        SecretSpec::Real(r) => seq![2u8] + u64_be(r),
    }
}

/// The secret value read back from envelope bytes, or `None` when the
/// bytes do not carry a valid envelope.  Bytes past the declared payload
/// are ignored.
pub open spec fn deserialize_spec(bytes: Seq<u8>) -> Option<SecretSpec> {
    if bytes.len() < 1 {
        None
    } else if bytes[0] == 0 {
        if bytes.len() < 5 {
            None
        } else {
            let len = u32_from_be(bytes.subrange(1, 5)) as int;
            if 5 + len > bytes.len() {
                None
            } else {
                Some(SecretSpec::Text(bytes.subrange(5, 5 + len)))
            }
        }
    } else if bytes[0] == 1 {
        if bytes.len() < 9 {
            None
        } else {
            Some(SecretSpec::Integer(u64_from_be(bytes.subrange(1, 9)) as i64))
        }
    } else if bytes[0] == 2 {
        if bytes.len() < 9 {
            None
        } else {
            Some(SecretSpec::Real(u64_from_be(bytes.subrange(1, 9))))
        }
    } else {
        None
    }
}

/// `s` extended with zero bytes up to length `m`; unchanged when already
/// long enough.
pub open spec fn pad_spec(s: Seq<u8>, m: nat) -> Seq<u8> {
    if s.len() >= m {
        s
    } else {
        s + Seq::new((m - s.len()) as nat, |i: int| 0u8)
    }
}

/// Padding is idempotent: padding an already padded sequence changes
/// nothing.
pub proof fn lemma_pad_idempotent(s: Seq<u8>, m: nat)
    ensures
        pad_spec(pad_spec(s, m), m) == pad_spec(s, m),
{
}

/// Reading a 64-bit word back from its big-endian bytes recovers it.
proof fn lemma_u64_be_roundtrip(x: u64)
    ensures
        u64_from_be(u64_be(x)) == x,
{
    let b0 = ((x >> 56) & 0xff) as u8;
    let b1 = ((x >> 48) & 0xff) as u8;
    let b2 = ((x >> 40) & 0xff) as u8;
    let b3 = ((x >> 32) & 0xff) as u8;
    let b4 = ((x >> 24) & 0xff) as u8;
    let b5 = ((x >> 16) & 0xff) as u8;
    let b6 = ((x >> 8) & 0xff) as u8;
    let b7 = (x & 0xff) as u8;
    assert(((b0 as u64) << 56) | ((b1 as u64) << 48) | ((b2 as u64) << 40) | ((b3 as u64) << 32)
        | ((b4 as u64) << 24) | ((b5 as u64) << 16) | ((b6 as u64) << 8) | (b7 as u64) == x)
        by (bit_vector)
        requires
            b0 == ((x >> 56) & 0xff) as u8,
            b1 == ((x >> 48) & 0xff) as u8,
            b2 == ((x >> 40) & 0xff) as u8,
            b3 == ((x >> 32) & 0xff) as u8,
            b4 == ((x >> 24) & 0xff) as u8,
            b5 == ((x >> 16) & 0xff) as u8,
            b6 == ((x >> 8) & 0xff) as u8,
            b7 == (x & 0xff) as u8,
    ;
}

/// Reading a 32-bit word back from its big-endian bytes recovers it.
proof fn lemma_u32_be_roundtrip(x: u32)
    ensures
        u32_from_be(u32_be(x)) == x,
{
    let b0 = ((x >> 24) & 0xff) as u8;
    let b1 = ((x >> 16) & 0xff) as u8;
    let b2 = ((x >> 8) & 0xff) as u8;
    let b3 = (x & 0xff) as u8;
    assert(((b0 as u32) << 24) | ((b1 as u32) << 16) | ((b2 as u32) << 8) | (b3 as u32) == x)
        by (bit_vector)
        requires
            b0 == ((x >> 24) & 0xff) as u8,
            b1 == ((x >> 16) & 0xff) as u8,
            b2 == ((x >> 8) & 0xff) as u8,
            b3 == (x & 0xff) as u8,
    ;
}

/// Decoding an encoded value recovers it, whatever bytes follow the
/// encoding.  In particular zero padding appended after encoding is never
/// interpreted.
pub proof fn lemma_codec_roundtrip(v: SecretSpec, ext: Seq<u8>)
    requires
        secret_wf(v),
    ensures
        deserialize_spec(serialize_spec(v) + ext) == Some(v),
{
    let bytes = serialize_spec(v) + ext;
    match v {
        SecretSpec::Text(b) => {
            let len32 = b.len() as u32;
            lemma_u32_be_roundtrip(len32);
            assert(bytes.subrange(1, 5) =~= u32_be(len32));
            assert(u32_from_be(bytes.subrange(1, 5)) == len32);
            assert(len32 as int == b.len() as int);
            assert(bytes.subrange(5, 5 + b.len() as int) =~= b);
        },
        SecretSpec::Integer(i) => {
            lemma_u64_be_roundtrip(i as u64);
            assert(bytes.subrange(1, 9) =~= u64_be(i as u64));
            assert(((i as u64) as i64) == i) by (bit_vector);
        },
        SecretSpec::Real(r) => {
            lemma_u64_be_roundtrip(r);
            assert(bytes.subrange(1, 9) =~= u64_be(r));
        },
    }
}

/// Decoding an encoded value after padding recovers it.
pub proof fn lemma_padded_codec_roundtrip(v: SecretSpec, m: nat)
    requires
        secret_wf(v),
    ensures
        deserialize_spec(pad_spec(serialize_spec(v), m)) == Some(v),
{
    let s = serialize_spec(v);
    if s.len() >= m {
        lemma_codec_roundtrip(v, Seq::empty());
        assert(s + Seq::empty() =~= s);
    } else {
        lemma_codec_roundtrip(v, Seq::new((m - s.len()) as nat, |i: int| 0u8));
    }
}

/// Append one 64-bit word in big-endian order.
fn push_u64_be(out: &mut Vec<u8>, x: u64)
    ensures
        final(out)@ == old(out)@ + u64_be(x),
{
    out.push(((x >> 56) & 0xff) as u8);
    out.push(((x >> 48) & 0xff) as u8);
    out.push(((x >> 40) & 0xff) as u8);
    out.push(((x >> 32) & 0xff) as u8);
    out.push(((x >> 24) & 0xff) as u8);
    out.push(((x >> 16) & 0xff) as u8);
    out.push(((x >> 8) & 0xff) as u8);
    out.push((x & 0xff) as u8);
    proof {
        assert(out@ =~= old(out)@ + u64_be(x));
    }
}

/// Encode a secret value as envelope bytes.
pub fn serialize_secret(secret: &SecretValue) -> (r: Vec<u8>)
    requires
        secret_wf(secret@),
    ensures
        r@ == serialize_spec(secret@),
{
    let mut out: Vec<u8> = Vec::new();
    match secret {
        SecretValue::Text(b) => {
            out.push(0u8);
            let len32: u32 = b.len() as u32;
            out.push(((len32 >> 24) & 0xff) as u8);
            out.push(((len32 >> 16) & 0xff) as u8);
            out.push(((len32 >> 8) & 0xff) as u8);
            out.push((len32 & 0xff) as u8);
            let mut i: usize = 0;
            proof {
                assert(out@ =~= seq![0u8] + u32_be(b@.len() as u32) + b@.subrange(0, 0));
            }
            while i < b.len()
                invariant
                    i <= b@.len(),
                    out@ == seq![0u8] + u32_be(b@.len() as u32) + b@.subrange(0, i as int),
                decreases b@.len() - i,
            {
                out.push(b[i]);
                proof {
                    assert(b@.subrange(0, i + 1) =~= b@.subrange(0, i as int) + seq![b@[i as int]]);
                    assert(out@ =~= seq![0u8] + u32_be(b@.len() as u32) + b@.subrange(0, i + 1));
                }
                i = i + 1;
            }
            proof {
                assert(b@.subrange(0, b@.len() as int) =~= b@);
                assert(out@ =~= serialize_spec(secret@));
            }
        },
        SecretValue::Integer(i) => {
            out.push(1u8);
            push_u64_be(&mut out, *i as u64);
            proof {
                assert(out@ =~= serialize_spec(secret@));
            }
        },
        SecretValue::Real(r) => {
            out.push(2u8);
            push_u64_be(&mut out, *r);
            proof {
                assert(out@ =~= serialize_spec(secret@));
            }
        },
    }
    out
}

/// Read one 64-bit big-endian word starting at `at`.
fn read_u64_be(bytes: &Vec<u8>, at: usize) -> (r: u64)
    requires
        at + 8 <= bytes@.len(),
    ensures
        r == u64_from_be(bytes@.subrange(at as int, at + 8)),
{
    let n: usize = bytes.len();
    let r = ((bytes[at] as u64) << 56) | ((bytes[at + 1] as u64) << 48) | ((bytes[at + 2] as u64)
        << 40) | ((bytes[at + 3] as u64) << 32) | ((bytes[at + 4] as u64) << 24) | ((bytes[at + 5]
        as u64) << 16) | ((bytes[at + 6] as u64) << 8) | (bytes[at + 7] as u64);
    proof {
        let s = bytes@.subrange(at as int, at + 8);
        assert(s[0] == bytes@[at as int] && s[1] == bytes@[at + 1] && s[2] == bytes@[at + 2] && s[3]
            == bytes@[at + 3] && s[4] == bytes@[at + 4] && s[5] == bytes@[at + 5] && s[6] == bytes@[
            at + 6] && s[7] == bytes@[at + 7]);
    }
    r
}

/// Decode envelope bytes back into a secret value.
///
/// Fails with `MalformedEnvelope` exactly when the bytes do not begin
/// with a valid envelope: unknown tag, truncated fixed-width payload, or
/// a declared text length that exceeds the remaining bytes.
pub fn deserialize_secret(bytes: &Vec<u8>) -> (r: Result<SecretValue, Error>)
    ensures
        match r {
            Ok(v) => deserialize_spec(bytes@) == Some(v@),
            Err(e) => e == Error::MalformedEnvelope && deserialize_spec(bytes@) is None,
        },
{
    let n: usize = bytes.len();
    if n < 1 {
        return Err(Error::MalformedEnvelope);
    }
    let tag: u8 = bytes[0];
    if tag == 0 {
        if n < 5 {
            return Err(Error::MalformedEnvelope);
        }
        let len32 = ((bytes[1] as u32) << 24) | ((bytes[2] as u32) << 16) | ((bytes[3] as u32) << 8)
            | (bytes[4] as u32);
        proof {
            let s = bytes@.subrange(1, 5);
            assert(s[0] == bytes@[1] && s[1] == bytes@[2] && s[2] == bytes@[3] && s[3] == bytes@[4]);
        }
        let len: usize = len32 as usize;
        if len > n - 5 {
            return Err(Error::MalformedEnvelope);
        }
        let mut payload: Vec<u8> = Vec::new();
        let mut i: usize = 0;
        proof {
            assert(payload@ =~= bytes@.subrange(5, 5));
        }
        while i < len
            invariant
                i <= len,
                n == bytes@.len(),
                5 + len <= n,
                payload@ == bytes@.subrange(5, 5 + i as int),
            decreases len - i,
        {
            payload.push(bytes[5 + i]);
            proof {
                assert(payload@ =~= bytes@.subrange(5, 5 + i + 1));
            }
            i = i + 1;
        }
        Ok(SecretValue::Text(payload))
    } else if tag == 1 {
        if n < 9 {
            return Err(Error::MalformedEnvelope);
        }
        let word: u64 = read_u64_be(bytes, 1);
        Ok(SecretValue::Integer(#[verifier::truncate] (word as i64)))
    } else if tag == 2 {
        if n < 9 {
            return Err(Error::MalformedEnvelope);
        }
        let word: u64 = read_u64_be(bytes, 1);
        Ok(SecretValue::Real(word))
    } else {
        Err(Error::MalformedEnvelope)
    }
}

/// Append zero bytes until `bytes` reaches at least `min_len`; a no-op
/// when it is already long enough.
pub fn pad_to_minimum(bytes: &mut Vec<u8>, min_len: usize)
    ensures
        final(bytes)@ == pad_spec(old(bytes)@, min_len as nat),
{
    let mut i: usize = bytes.len();
    if i >= min_len {
        return ;
    }
    proof {
        assert(bytes@ =~= old(bytes)@ + Seq::new(0, |j: int| 0u8));
    }
    while i < min_len
        invariant
            old(bytes)@.len() < min_len,
            old(bytes)@.len() <= i <= min_len,
            bytes@ == old(bytes)@ + Seq::new((i - old(bytes)@.len()) as nat, |j: int| 0u8),
        decreases min_len - i,
    {
        bytes.push(0u8);
        proof {
            assert(bytes@ =~= old(bytes)@ + Seq::new(
                (i + 1 - old(bytes)@.len()) as nat,
                |j: int| 0u8,
            ));
        }
        i = i + 1;
    }
    proof {
        assert(bytes@ =~= pad_spec(old(bytes)@, min_len as nat));
    }
}

} // verus!
