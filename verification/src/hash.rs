//! Hash functions used for commitments and for drawing pseudo-random values.

use sha3::Digest;
use vstd::prelude::*;

verus! {

/// The BLAKE3 digest of a byte string (32 bytes).
pub uninterp spec fn blake3_digest(data: Seq<u8>) -> Seq<u8>;

/// The SHA3-256 digest of a byte string (32 bytes).
pub uninterp spec fn sha3_256_digest(data: Seq<u8>) -> Seq<u8>;

/// Calls `blake3::hash`; the contract claims only that the result is the (deterministic) BLAKE3
/// digest of `data`, named by `blake3_digest`.
#[verifier::external_body]
fn blake3_hash(data: &[u8]) -> (r: [u8; 32])
    ensures
        r@ == blake3_digest(data@),
{
    *blake3::hash(data).as_bytes()
}

/// Calls `sha3::Sha3_256::digest`; the contract claims only that the result is the
/// (deterministic) SHA3-256 digest of `data`, named by `sha3_256_digest`.
#[verifier::external_body]
fn sha3_hash(data: &[u8]) -> (r: [u8; 32])
    ensures
        r@ == sha3_256_digest(data@),
{
    sha3::Sha3_256::digest(data).into()
}

/// A hash function which maps a byte string to a 32-byte digest.
#[derive(Debug, Clone, Copy, PartialEq, Eq, Structural)]
pub enum HashFunction {
    Blake3,
    Sha3,
}

/// The digest of `data` under `hash_fn`.
pub open spec fn digest(hash_fn: HashFunction, data: Seq<u8>) -> Seq<u8> {
    match hash_fn {
        HashFunction::Blake3 => blake3_digest(data),
        HashFunction::Sha3 => sha3_256_digest(data),
    }
}

impl HashFunction {
    /// Hashes `data` into a 32-byte digest.
    pub fn hash(&self, data: &[u8]) -> (r: [u8; 32])
        ensures
            r@ == digest(*self, data@),
    {
        match self {
            HashFunction::Blake3 => blake3_hash(data),
            HashFunction::Sha3 => sha3_hash(data),
        }
    }
}

} // verus!
