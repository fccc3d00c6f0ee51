//! Threshold secret sharing of password-encrypted secrets.
//!
//! A secret value is encoded into a self-describing envelope, encrypted
//! under a password-derived key with an authenticated cipher, and the
//! resulting byte string is split into N shares over GF(2^8) such that
//! any K of them reconstruct it.

use vstd::prelude::*;

pub mod codec;
pub mod crypto;
pub mod gf256;
pub mod pipeline;
pub mod shamir;

verus! {

/// Errors the library can report.
#[derive(Debug, Clone, Copy, PartialEq, Eq, Structural)]
pub enum Error {
    /// Decoded bytes do not match the envelope layout.
    MalformedEnvelope,
    /// Threshold and share count violate 1 <= K <= N <= 255.
    InvalidThreshold,
    /// Supplied shares disagree in length or repeat an index.
    InconsistentShares,
    /// A supplied share carries the reserved index 0 or no index at all.
    MalformedShare,
    /// The authentication tag did not verify: wrong password,
    /// insufficient shares, or corrupted data.
    DecryptionFailed,
}

} // verus!
