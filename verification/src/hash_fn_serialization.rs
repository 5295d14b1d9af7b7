//! Encoding of the hash function of proof options as a single byte: 0 for BLAKE3 and 1 for
//! SHA3-256.

use crate::hash::HashFunction;
use vstd::prelude::*;

verus! {

/// A byte that names no supported hash function.
#[derive(Debug, Clone, Copy, PartialEq, Eq, Structural)]
pub struct UnsupportedHashFunction(pub u8);

/// The byte that encodes `hf`.
pub open spec fn hash_fn_code(hf: HashFunction) -> u8 {
    match hf {
        HashFunction::Blake3 => 0,
        HashFunction::Sha3 => 1,
    }
}

/// The hash function that `byte` encodes, or the rejection of the byte.
pub open spec fn decoded(byte: u8) -> Result<HashFunction, UnsupportedHashFunction> {
    if byte == 0 {
        Ok(HashFunction::Blake3)
    } else if byte == 1 {
        Ok(HashFunction::Sha3)
    } else {
        Err(UnsupportedHashFunction(byte))
    }
}

/// Encodes a hash function as a byte.
pub fn serialize(hf: &HashFunction) -> (r: u8)
    ensures
        r == hash_fn_code(*hf),
{
    match hf {
        HashFunction::Blake3 => 0,
        HashFunction::Sha3 => 1,
    }
}

/// Decodes a hash function from a byte; any byte other than 0 and 1 is rejected.
pub fn deserialize(byte: u8) -> (r: Result<HashFunction, UnsupportedHashFunction>)
    ensures
        r == decoded(byte),
{
    match byte {
        0u8 => Ok(HashFunction::Blake3),
        1u8 => Ok(HashFunction::Sha3),
        _ => Err(UnsupportedHashFunction(byte)),
    }
}

/// Decoding an encoded hash function gives it back, and encoding a decoded byte gives the
/// byte back.
pub proof fn lemma_hash_fn_round_trip(hf: HashFunction, byte: u8)
    ensures
        decoded(hash_fn_code(hf)) == Ok::<HashFunction, UnsupportedHashFunction>(hf),
        decoded(byte) matches Ok(h) ==> hash_fn_code(h) == byte,
{
}

} // verus!
