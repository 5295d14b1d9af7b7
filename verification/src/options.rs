//! Options of a STARK proof: number of queries, blowup factor, grinding factor and the hash
//! function.

use crate::hash::HashFunction;
use vstd::arithmetic::power2::{lemma2_to64, lemma2_to64_rest, lemma_pow2_strictly_increases, lemma_pow2_unfold, pow2};
use vstd::prelude::*;

verus! {

/// `n` is a power of two.
pub open spec fn is_pow2(n: int) -> bool
    decreases n,
{
    if n <= 0 {
        false
    } else if n == 1 {
        true
    } else {
        n % 2 == 0 && is_pow2(n / 2)
    }
}

/// Base-2 logarithm of a power of two.
pub open spec fn log2(n: int) -> nat
    decreases n,
{
    if n <= 1 {
        0
    } else {
        1 + log2(n / 2)
    }
}

pub proof fn lemma_pow2_log2(n: int)
    requires
        is_pow2(n),
    ensures
        pow2(log2(n)) == n,
    decreases n,
{
    if n > 1 {
        lemma_pow2_log2(n / 2);
        lemma_pow2_unfold(log2(n));
    } else {
        lemma2_to64();
    }
}

/// Returns true when `n` is a power of two.
pub fn is_power_of_two(n: usize) -> (r: bool)
    ensures
        r == is_pow2(n as int),
{
    let mut m = n;
    while m > 1 && m % 2 == 0
        invariant
            m > 0 || n == 0,
            m <= n,
            is_pow2(n as int) == is_pow2(m as int),
        decreases m,
    {
        m = m / 2;
    }
    m == 1
}

/// Returns the base-2 logarithm of a power of two.
pub fn log2_of(n: usize) -> (r: u32)
    requires
        is_pow2(n as int),
    ensures
        r == log2(n as int),
{
    let mut m = n;
    let mut k: u32 = 0;
    while m > 1
        invariant
            is_pow2(m as int),
            is_pow2(n as int),
            k + log2(m as int) == log2(n as int),
            k <= 64,
            m <= n,
            n <= usize::MAX,
        decreases m,
    {
        proof {
            lemma_pow2_log2(m as int);
            lemma_pow2_log2(n as int);
            lemma_log2_bound(n as int);
        }
        m = m / 2;
        k = k + 1;
    }
    k
}

proof fn lemma_log2_bound(n: int)
    requires
        is_pow2(n),
        n <= usize::MAX,
    ensures
        log2(n) < 64,
{
    lemma_pow2_log2(n);
    if log2(n) >= 64 {
        if log2(n) > 64 {
            lemma_pow2_strictly_increases(64, log2(n));
        }
        lemma2_to64_rest();
    }
}

// PROOF OPTIONS
// ================================================================================================

/// Parameters of proof generation.
#[derive(Debug, Clone, Copy)]
pub struct ProofOptions {
    num_queries: u8,
    /// log2 of the blowup factor
    blowup_factor: u8,
    grinding_factor: u8,
    hash_fn: HashFunction,
}

impl ProofOptions {
    pub closed spec fn spec_num_queries(&self) -> nat {
        self.num_queries as nat
    }

    pub closed spec fn spec_blowup_factor(&self) -> nat {
        pow2(self.blowup_factor as nat)
    }

    pub closed spec fn spec_grinding_factor(&self) -> nat {
        self.grinding_factor as nat
    }

    pub closed spec fn spec_hash_fn(&self) -> HashFunction {
        self.hash_fn
    }

    /// Valid options: 1 to 128 queries, a power-of-two blowup factor between 4 and 256, and a
    /// grinding factor of at most 32.
    pub closed spec fn wf(&self) -> bool {
        &&& 0 < self.num_queries <= 128
        &&& 2 <= self.blowup_factor <= 8
        &&& self.grinding_factor <= 32
    }

    /// Creates proof options; the blowup factor is stored as its logarithm.
    pub fn new(num_queries: usize, blowup_factor: usize, grinding_factor: u32, hash_fn: HashFunction) -> (r:
        ProofOptions)
        requires
            0 < num_queries <= 128,
            is_pow2(blowup_factor as int),
            4 <= blowup_factor <= 256,
            grinding_factor <= 32,
        ensures
            r.wf(),
            r.spec_num_queries() == num_queries,
            r.spec_blowup_factor() == blowup_factor,
            r.spec_grinding_factor() == grinding_factor,
            r.spec_hash_fn() == hash_fn,
    {
        let log = log2_of(blowup_factor);
        proof {
            lemma_pow2_log2(blowup_factor as int);
            if log < 2 {
                lemma_pow2_strictly_increases(log as nat, 2);
                lemma2_to64();
            }
            if log > 8 {
                lemma_pow2_strictly_increases(8, log as nat);
                lemma2_to64();
            }
        }
        ProofOptions {
            num_queries: num_queries as u8,
            blowup_factor: log as u8,
            grinding_factor: grinding_factor as u8,
            hash_fn,
        }
    }

    pub fn num_queries(&self) -> (r: usize)
        ensures
            r == self.spec_num_queries(),
    {
        self.num_queries as usize
    }

    pub fn blowup_factor(&self) -> (r: usize)
        requires
            self.wf(),
        ensures
            r == self.spec_blowup_factor(),
            4 <= r <= 256,
    {
        proof {
            lemma2_to64();
        }
        let log = self.blowup_factor;
        let r: usize = if log == 2 {
            4
        } else if log == 3 {
            8
        } else if log == 4 {
            16
        } else if log == 5 {
            32
        } else if log == 6 {
            64
        } else if log == 7 {
            128
        } else {
            256
        };
        r
    }

    pub fn grinding_factor(&self) -> (r: u32)
        ensures
            r == self.spec_grinding_factor(),
    {
        self.grinding_factor as u32
    }

    pub fn hash_fn(&self) -> (r: HashFunction)
        ensures
            r == self.spec_hash_fn(),
    {
        self.hash_fn
    }
}

} // verus!
