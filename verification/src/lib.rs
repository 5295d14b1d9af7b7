//! A distributed STARK prover toolkit: prime field arithmetic, the constraint and trace
//! bookkeeping of the prover, the Fiat-Shamir channel with proof-of-work grinding, query
//! position mappings used by the (distributed) FRI protocol, and the wire format of the
//! object porter that moves data between nodes.

pub mod field;
pub mod sums;
pub mod stream;
pub mod hash;
pub mod hash_fn_serialization;
pub mod options;
pub mod channel;
pub mod evaluator;
pub mod poly;
pub mod composition;
pub mod constraints;
pub mod positions;
pub mod verification;
pub mod trace;
pub mod fri;
pub mod worker;
pub mod folding;
pub mod interpolation;
