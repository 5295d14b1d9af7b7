//! The prover side of the Fiat-Shamir channel: commitments written by the prover, seeds drawn
//! from them, and the proof-of-work ("grinding") applied to the query seed.

use crate::hash::{HashFunction, digest};
use crate::options::ProofOptions;
use vstd::prelude::*;

verus! {

// PROOF-OF-WORK (specification)
// ================================================================================================

/// Concatenation of 32-byte values.
pub open spec fn concat_roots(roots: Seq<[u8; 32]>) -> Seq<u8>
    decreases roots.len(),
{
    if roots.len() == 0 {
        Seq::empty()
    } else {
        concat_roots(roots.drop_last()) + roots.last()@
    }
}

/// Little-endian bytes of a `u64`.
pub open spec fn le_bytes(n: u64) -> Seq<u8> {
    Seq::new(8, |i: int| ((n >> (8 * i) as u64) & 0xff) as u8)
}

/// The 64 bytes hashed when testing a proof-of-work nonce: the seed, 24 zero bytes, and the
/// nonce in little-endian order.
pub open spec fn pow_input(seed: Seq<u8>, nonce: u64) -> Seq<u8> {
    seed + Seq::new(24, |i: int| 0u8) + le_bytes(nonce)
}

/// The `u64` whose little-endian bytes are the first `k` bytes of `r`.
pub open spec fn le_u64(r: Seq<u8>, k: nat) -> u64
    decreases k,
{
    if k == 0 {
        0
    } else {
        le_u64(r, (k - 1) as nat) | ((r[k - 1] as u64) << (8 * (k - 1)) as u64)
    }
}

/// A nonce is a valid proof of work for `seed` when the hash of the proof-of-work input,
/// read as a little-endian `u64` from its first 8 bytes, has at least `grinding_factor`
/// trailing zeros.
pub open spec fn pow_ok(hash_fn: HashFunction, seed: Seq<u8>, nonce: u64, grinding_factor: u32) -> bool {
    le_u64(digest(hash_fn, pow_input(seed, nonce)), 8).trailing_zeros() >= grinding_factor
}

// PROOF-OF-WORK (executable)
// ================================================================================================

/// Appends the bytes of all `roots` to `out`.
pub fn append_roots(out: &mut Vec<u8>, roots: &[[u8; 32]])
    ensures
        final(out)@ == old(out)@ + concat_roots(roots@),
{
    let mut i: usize = 0;
    assert(roots@.take(0) =~= Seq::<[u8; 32]>::empty());
    assert(old(out)@ + concat_roots(roots@.take(0)) =~= old(out)@);
    while i < roots.len()
        invariant
            i <= roots@.len(),
            out@ == old(out)@ + concat_roots(roots@.take(i as int)),
        decreases roots.len() - i,
    {
        let root: &[u8; 32] = &roots[i];
        let mut k: usize = 0;
        let ghost start = out@;
        while k < 32
            invariant
                k <= 32,
                root@.len() == 32,
                out@ == start + root@.subrange(0, k as int),
            decreases 32 - k,
        {
            out.push(root[k]);
            k = k + 1;
            assert(out@ =~= start + root@.subrange(0, k as int));
        }
        proof {
            assert(root@.subrange(0, 32) =~= root@);
            let next = roots@.take(i + 1);
            assert(next.drop_last() =~= roots@.take(i as int));
            assert(out@ =~= old(out)@ + concat_roots(next));
        }
        i = i + 1;
    }
    assert(roots@.take(i as int) =~= roots@);
}

/// Hashes the concatenation of all FRI layer roots into the query seed.
pub fn build_query_seed(fri_roots: &[[u8; 32]], hash_fn: HashFunction) -> (r: [u8; 32])
    ensures
        r@ == digest(hash_fn, concat_roots(fri_roots@)),
{
    let mut root_bytes: Vec<u8> = Vec::new();
    append_roots(&mut root_bytes, fri_roots);
    assert(root_bytes@ =~= concat_roots(fri_roots@));
    hash_fn.hash(root_bytes.as_slice())
}

/// The proof-of-work input for `seed` and `nonce`.
pub fn pow_buffer(seed: &[u8; 32], nonce: u64) -> (r: Vec<u8>)
    ensures
        r@ == pow_input(seed@, nonce),
{
    let mut buf: Vec<u8> = Vec::new();
    let mut k: usize = 0;
    while k < 32
        invariant
            k <= 32,
            seed@.len() == 32,
            buf@ == seed@.subrange(0, k as int),
        decreases 32 - k,
    {
        buf.push(seed[k]);
        k = k + 1;
        assert(buf@ =~= seed@.subrange(0, k as int));
    }
    while k < 56
        invariant
            32 <= k <= 56,
            seed@.len() == 32,
            buf@ == seed@ + Seq::new((k - 32) as nat, |i: int| 0u8),
        decreases 56 - k,
    {
        buf.push(0u8);
        k = k + 1;
        assert(buf@ =~= seed@ + Seq::new((k - 32) as nat, |i: int| 0u8));
    }
    let mut j: u64 = 0;
    while j < 8
        invariant
            j <= 8,
            seed@.len() == 32,
            buf@ == seed@ + Seq::new(24, |i: int| 0u8) + le_bytes(nonce).subrange(0, j as int),
        decreases 8 - j,
    {
        buf.push(((nonce >> (8 * j)) & 0xff) as u8);
        j = j + 1;
        assert(buf@ =~= seed@ + Seq::new(24, |i: int| 0u8) + le_bytes(nonce).subrange(0, j as int));
    }
    assert(le_bytes(nonce).subrange(0, 8) =~= le_bytes(nonce));
    buf
}

/// Reads the first 8 bytes of `r` as a little-endian `u64`.
pub fn seed_head(r: &[u8; 32]) -> (h: u64)
    ensures
        h == le_u64(r@, 8),
{
    let mut h: u64 = 0;
    let mut k: u64 = 0;
    while k < 8
        invariant
            k <= 8,
            r@.len() == 32,
            h == le_u64(r@, k as nat),
        decreases 8 - k,
    {
        h = h | ((r[k as usize] as u64) << (8 * k));
        k = k + 1;
    }
    h
}

/// Searches for the first nonce (counting from 1) that is a valid proof of work for `seed`;
/// returns the hash of its proof-of-work input together with the nonce, or `None` when no nonce
/// up to `u64::MAX` works.
pub fn find_pow_nonce(seed: [u8; 32], grinding_factor: u32, hash: HashFunction) -> (r: Option<
    ([u8; 32], u64),
>)
    ensures
        match r {
            Some((result, nonce)) => {
                &&& nonce >= 1
                &&& result@ == digest(hash, pow_input(seed@, nonce))
                &&& pow_ok(hash, seed@, nonce, grinding_factor)
                &&& forall|n: u64| 1 <= n < nonce ==> !pow_ok(hash, seed@, n, grinding_factor)
            },
            None => forall|n: u64| 1 <= n ==> !pow_ok(hash, seed@, n, grinding_factor),
        },
{
    let mut nonce: u64 = 0;
    while nonce < u64::MAX
        invariant
            forall|n: u64| 1 <= n <= nonce ==> !pow_ok(hash, seed@, n, grinding_factor),
        decreases u64::MAX - nonce,
    {
        nonce = nonce + 1;
        let buf = pow_buffer(&seed, nonce);
        let result = hash.hash(buf.as_slice());
        let head = seed_head(&result);
        if head.trailing_zeros() >= grinding_factor {
            return Some((result, nonce));
        }
    }
    None
}

// PROVER CHANNEL
// ================================================================================================

/// Commitments made by the prover during proof generation.
#[derive(Debug, Clone)]
pub struct Commitments {
    pub trace_root: [u8; 32],
    pub constraint_root: [u8; 32],
    pub fri_roots: Vec<[u8; 32]>,
}

/// Simulates the interaction between the prover and the verifier: the prover commits to values,
/// and seeds for pseudo-random values are derived from these commitments.
pub struct ProverChannel {
    options: ProofOptions,
    ce_blowup_factor: usize,
    trace_root: Option<[u8; 32]>,
    constraint_root: Option<[u8; 32]>,
    fri_roots: Vec<[u8; 32]>,
    query_seed: Option<[u8; 32]>,
    pow_nonce: u64,
}

impl ProverChannel {
    pub closed spec fn spec_options(&self) -> ProofOptions {
        self.options
    }

    pub closed spec fn spec_ce_blowup_factor(&self) -> usize {
        self.ce_blowup_factor
    }

    pub closed spec fn spec_trace_root(&self) -> Option<[u8; 32]> {
        self.trace_root
    }

    pub closed spec fn spec_constraint_root(&self) -> Option<[u8; 32]> {
        self.constraint_root
    }

    pub closed spec fn spec_fri_roots(&self) -> Seq<[u8; 32]> {
        self.fri_roots@
    }

    pub closed spec fn spec_query_seed(&self) -> Option<[u8; 32]> {
        self.query_seed
    }

    pub closed spec fn spec_pow_nonce(&self) -> u64 {
        self.pow_nonce
    }

    /// The query seed was ground: it is the hash of the proof-of-work input for a valid nonce,
    /// built on the hash of the FRI layer roots.
    pub open spec fn ground(&self) -> bool {
        let hf = self.spec_options().spec_hash_fn();
        let g = self.spec_options().spec_grinding_factor() as u32;
        let seed = digest(hf, concat_roots(self.spec_fri_roots()));
        &&& pow_ok(hf, seed, self.spec_pow_nonce(), g)
        &&& self.spec_query_seed() matches Some(qs) && qs@ == digest(
            hf,
            pow_input(seed, self.spec_pow_nonce()),
        )
    }

    /// Creates a new prover channel for a computation with the specified proof `options` and
    /// constraint evaluation blowup factor.
    pub fn new(options: &ProofOptions, ce_blowup_factor: usize) -> (r: Self)
        ensures
            r.spec_options() == *options,
            r.spec_ce_blowup_factor() == ce_blowup_factor,
            r.spec_trace_root() is None,
            r.spec_constraint_root() is None,
            r.spec_fri_roots() == Seq::<[u8; 32]>::empty(),
            r.spec_query_seed() is None,
            r.spec_pow_nonce() == 0,
    {
        ProverChannel {
            options: *options,
            ce_blowup_factor,
            trace_root: None,
            constraint_root: None,
            fri_roots: Vec::new(),
            query_seed: None,
            pow_nonce: 0,
        }
    }

    /// Returns the proof options of this channel.
    pub fn options(&self) -> (r: &ProofOptions)
        ensures
            *r == self.spec_options(),
    {
        &self.options
    }

    /// Commits the prover to the extended execution trace; a trace root can be committed once.
    pub fn commit_trace(&mut self, trace_root: [u8; 32])
        requires
            old(self).spec_trace_root() is None,
        ensures
            final(self).spec_trace_root() == Some(trace_root),
            final(self).spec_options() == old(self).spec_options(),
            final(self).spec_ce_blowup_factor() == old(self).spec_ce_blowup_factor(),
            final(self).spec_constraint_root() == old(self).spec_constraint_root(),
            final(self).spec_fri_roots() == old(self).spec_fri_roots(),
            final(self).spec_query_seed() == old(self).spec_query_seed(),
            final(self).spec_pow_nonce() == old(self).spec_pow_nonce(),
    {
        self.trace_root = Some(trace_root);
    }

    /// Commits the prover to the constraint evaluations; a constraint root can be committed
    /// once.
    pub fn commit_constraints(&mut self, constraint_root: [u8; 32])
        requires
            old(self).spec_constraint_root() is None,
        ensures
            final(self).spec_constraint_root() == Some(constraint_root),
            final(self).spec_options() == old(self).spec_options(),
            final(self).spec_ce_blowup_factor() == old(self).spec_ce_blowup_factor(),
            final(self).spec_trace_root() == old(self).spec_trace_root(),
            final(self).spec_fri_roots() == old(self).spec_fri_roots(),
            final(self).spec_query_seed() == old(self).spec_query_seed(),
            final(self).spec_pow_nonce() == old(self).spec_pow_nonce(),
    {
        self.constraint_root = Some(constraint_root);
    }

    /// Commits the prover to a FRI layer.
    pub fn commit_fri_layer(&mut self, layer_root: [u8; 32])
        ensures
            final(self).spec_fri_roots() == old(self).spec_fri_roots().push(layer_root),
            final(self).spec_options() == old(self).spec_options(),
            final(self).spec_ce_blowup_factor() == old(self).spec_ce_blowup_factor(),
            final(self).spec_trace_root() == old(self).spec_trace_root(),
            final(self).spec_constraint_root() == old(self).spec_constraint_root(),
            final(self).spec_query_seed() == old(self).spec_query_seed(),
            final(self).spec_pow_nonce() == old(self).spec_pow_nonce(),
    {
        self.fri_roots.push(layer_root);
    }

    /// Computes the query seed from the FRI layer roots and applies proof-of-work to it, with
    /// the grinding factor and hash function of the options. Returns false, leaving the channel
    /// unchanged, when no nonce up to `u64::MAX` is a valid proof of work.
    pub fn grind_query_seed(&mut self) -> (found: bool)
        requires
            old(self).spec_fri_roots().len() > 0,
            old(self).spec_query_seed() is None,
        ensures
            final(self).spec_options() == old(self).spec_options(),
            final(self).spec_ce_blowup_factor() == old(self).spec_ce_blowup_factor(),
            final(self).spec_trace_root() == old(self).spec_trace_root(),
            final(self).spec_constraint_root() == old(self).spec_constraint_root(),
            final(self).spec_fri_roots() == old(self).spec_fri_roots(),
            ({
                let hf = old(self).spec_options().spec_hash_fn();
                let g = old(self).spec_options().spec_grinding_factor() as u32;
                let seed = digest(hf, concat_roots(old(self).spec_fri_roots()));
                if found {
                    let nonce = final(self).spec_pow_nonce();
                    &&& final(self).ground()
                    &&& nonce >= 1
                    &&& pow_ok(hf, seed, nonce, g)
                    &&& forall|n: u64| 1 <= n < nonce ==> !pow_ok(hf, seed, n, g)
                    &&& final(self).spec_query_seed() matches Some(qs) && qs@ == digest(
                        hf,
                        pow_input(seed, nonce),
                    )
                } else {
                    &&& forall|n: u64| 1 <= n ==> !pow_ok(hf, seed, n, g)
                    &&& final(self).spec_query_seed() is None
                    &&& final(self).spec_pow_nonce() == old(self).spec_pow_nonce()
                }
            }),
    {
        let hash_fn = self.options.hash_fn();
        let seed = build_query_seed(self.fri_roots.as_slice(), hash_fn);
        match find_pow_nonce(seed, self.options.grinding_factor(), hash_fn) {
            Some((result, nonce)) => {
                self.query_seed = Some(result);
                self.pow_nonce = nonce;
                true
            },
            None => false,
        }
    }

    /// Seed for drawing the coefficients of constraint composition: the trace root.
    pub fn constraint_seed(&self) -> (r: [u8; 32])
        requires
            self.spec_trace_root() is Some,
        ensures
            Some(r) == self.spec_trace_root(),
    {
        self.trace_root.unwrap()
    }

    /// Seed for drawing the coefficients of the DEEP composition: the constraint root.
    pub fn composition_seed(&self) -> (r: [u8; 32])
        requires
            self.spec_constraint_root() is Some,
        ensures
            Some(r) == self.spec_constraint_root(),
    {
        self.constraint_root.unwrap()
    }

    /// Seed for drawing the folding coefficient of the FRI layer at `layer_depth`: the root of
    /// that layer.
    pub fn fri_layer_seed(&self, layer_depth: usize) -> (r: [u8; 32])
        requires
            layer_depth < self.spec_fri_roots().len(),
        ensures
            r == self.spec_fri_roots()[layer_depth as int],
    {
        self.fri_roots[layer_depth]
    }

    /// Seed for drawing query positions.
    pub fn query_seed(&self) -> (r: [u8; 32])
        requires
            self.spec_query_seed() is Some,
        ensures
            Some(r) == self.spec_query_seed(),
    {
        self.query_seed.unwrap()
    }

    /// Returns the roots committed so far together with the proof-of-work nonce; the trace and
    /// constraint roots must have been committed.
    pub fn build_commitments(self) -> (r: (Commitments, u64))
        requires
            self.spec_trace_root() is Some,
            self.spec_constraint_root() is Some,
        ensures
            Some(r.0.trace_root) == self.spec_trace_root(),
            Some(r.0.constraint_root) == self.spec_constraint_root(),
            r.0.fri_roots@ == self.spec_fri_roots(),
            r.1 == self.spec_pow_nonce(),
    {
        (
            Commitments {
                trace_root: self.trace_root.unwrap(),
                constraint_root: self.constraint_root.unwrap(),
                fri_roots: self.fri_roots,
            },
            self.pow_nonce,
        )
    }
}

} // verus!
