//! The outside functions that the library computes with.

use ed25519_dalek::SigningKey;
use rand::RngCore;
use sha2::{Digest, Sha256};
use vstd::prelude::*;

verus! {

/// What `sha2::Sha256::digest` returns for `data`.
pub uninterp spec fn sha256_digest(data: Seq<u8>) -> Seq<u8>;

/// Calls `sha2::Sha256::digest`. The contract says that the 32 bytes it returns
/// are a function of `data` alone.
#[verifier::external_body]
pub(crate) fn sha256(data: &[u8]) -> (r: [u8; 32])
    ensures
        r@ == sha256_digest(data@),
{
    Sha256::digest(data).into()
}

/// The bytes of `ed25519_dalek::SigningKey::verifying_key` for the signing key
/// that is made of `secret`.
pub uninterp spec fn ed25519_verifying_key(secret: Seq<u8>) -> Seq<u8>;

/// Makes an `ed25519_dalek::SigningKey` of `secret` and calls its
/// `verifying_key`. The contract says that the 32 bytes of the verifying key are
/// a function of `secret` alone.
#[verifier::external_body]
pub(crate) fn verifying_key(secret: &[u8; 32]) -> (r: [u8; 32])
    ensures
        r@ == ed25519_verifying_key(secret@),
{
    SigningKey::from(secret).verifying_key().to_bytes()
}

/// Calls `rand::RngCore::fill_bytes` on the generator of this thread. The bytes
/// are random: the contract says only that their number stays.
#[verifier::external_body]
pub(crate) fn fill_random(bytes: &mut Vec<u8>)
    ensures
        final(bytes)@.len() == old(bytes)@.len(),
{
    rand::thread_rng().fill_bytes(bytes)
}

} // verus!
