//! Length rules of HKDF-style key derivation.
//!
//! The key-derivation helper used around the handshake accepts a
//! pseudorandom key only when it is at least one digest output long,
//! and can expand to at most 255 blocks of one digest output each.
//! The decisions behind those two error conditions are plain
//! arithmetic on lengths and stand here; the digest computation itself
//! is not this crate's concern.

use vstd::prelude::*;

verus! {

/// The pseudorandom key was too short: shorter than one digest output.
#[derive(Clone, Copy, Debug)]
pub struct InvalidPrkLength;

/// The requested output was too large: more than 255 blocks of one
/// digest output each.
#[derive(Clone, Copy, Debug)]
pub struct InvalidLength;

/// A pseudorandom key of `prk_len` bytes is usable with a digest of
/// `digest_len` output bytes exactly when it is no shorter than one
/// digest output.
pub fn check_prk_length(prk_len: usize, digest_len: usize) -> (r: Result<(), InvalidPrkLength>)
    ensures
        r is Ok <==> prk_len >= digest_len,
{
    if prk_len < digest_len {
        Result::Err(InvalidPrkLength)
    } else {
        Result::Ok(())
    }
}

/// An output of `okm_len` bytes can be expanded with a digest of
/// `digest_len` output bytes exactly when it needs at most 255 blocks.
pub fn check_okm_length(okm_len: usize, digest_len: usize) -> (r: Result<(), InvalidLength>)
    ensures
        r is Ok <==> okm_len as int <= 255 * (digest_len as int),
{
    if (okm_len as u128) > 255u128 * (digest_len as u128) {
        Result::Err(InvalidLength)
    } else {
        Result::Ok(())
    }
}

} // verus!
