//! Arithmetic in the 128-bit prime field with modulus 2^128 - 45 * 2^40 + 1.
//!
//! Elements are represented canonically as `u128` values strictly smaller than the modulus.

use vstd::arithmetic::div_mod::*;
use vstd::arithmetic::mul::*;
use vstd::arithmetic::power::*;
use vstd::arithmetic::power2::pow2;
use vstd::prelude::*;

verus! {

/// Field modulus: 2^128 - 45 * 2^40 + 1.
pub const MODULUS: u128 = 340282366920938463463374557953744961537u128;

/// Base-2 logarithm of the largest multiplicative subgroup of the field whose order is a power
/// of two: the modulus minus one is 2^40 times an odd number.
pub const TWO_ADICITY: u32 = 40;

/// A generator of the multiplicative subgroup of order 2^40.
pub const TWO_ADIC_ROOT_OF_UNITY: u128 = 23953097886125630542083529559205016746u128;

/// The additive identity.
pub const ZERO: u128 = 0u128;

/// The multiplicative identity.
pub const ONE: u128 = 1u128;

/// The modulus as a mathematical integer.
pub open spec fn m() -> int {
    MODULUS as int
}

/// A value is a canonical field element when it is smaller than the modulus.
pub open spec fn is_element(a: u128) -> bool {
    a < MODULUS
}

/// Reduction of an integer into the canonical range `[0, MODULUS)`.
pub open spec fn modp(x: int) -> int {
    x % m()
}

/// Field addition.
pub open spec fn f_add(a: int, b: int) -> int {
    modp(a + b)
}

/// Field subtraction.
pub open spec fn f_sub(a: int, b: int) -> int {
    modp(a - b)
}

/// Field multiplication.
pub open spec fn f_mul(a: int, b: int) -> int {
    modp(a * b)
}

/// Field exponentiation.
pub open spec fn f_exp(a: int, e: nat) -> int {
    modp(pow(a, e))
}

/// Field inversion: `a^(p - 2)`, the inverse of every non-zero element (zero for zero).
pub open spec fn f_inv(a: int) -> int {
    f_exp(a, (MODULUS - 2) as nat)
}

/// Field division: `a * b^(p - 2)`.
pub open spec fn f_div(a: int, b: int) -> int {
    f_mul(a, f_inv(b))
}

/// Value of the polynomial with coefficients `p` (lowest degree first) at `x`, over the
/// integers.
pub open spec fn poly_sum(p: Seq<u128>, x: int) -> int
    decreases p.len(),
{
    if p.len() == 0 {
        0
    } else {
        p[0] + x * poly_sum(p.drop_first(), x)
    }
}

/// Value of the polynomial with coefficients `p` (lowest degree first) at `x`, in the field.
pub open spec fn poly_eval(p: Seq<u128>, x: int) -> int {
    modp(poly_sum(p, x))
}

/// The generator of the subgroup of order 2^n: the two-adic root of unity raised to 2^(40 - n).
pub open spec fn root_of_unity(n: nat) -> u128 {
    f_exp(TWO_ADIC_ROOT_OF_UNITY as int, pow2((TWO_ADICITY - n) as nat)) as u128
}

/// Returns `(a + b) mod p`.
pub fn field_add(a: u128, b: u128) -> (r: u128)
    requires
        is_element(a),
        is_element(b),
    ensures
        is_element(r),
        r == f_add(a as int, b as int),
{
    let z = MODULUS - b;
    if a >= z {
        proof {
            lemma_fundamental_div_mod_converse(a + b, m(), 1, a + b - m());
        }
        a - z
    } else {
        proof {
            lemma_small_mod((a + b) as nat, m() as nat);
        }
        a + b
    }
}

/// Returns `(a - b) mod p`.
pub fn field_sub(a: u128, b: u128) -> (r: u128)
    requires
        is_element(a),
        is_element(b),
    ensures
        is_element(r),
        r == f_sub(a as int, b as int),
{
    if a >= b {
        proof {
            lemma_small_mod((a - b) as nat, m() as nat);
        }
        a - b
    } else {
        proof {
            lemma_fundamental_div_mod_converse(a - b, m(), -1, a - b + m());
        }
        MODULUS - (b - a)
    }
}

/// Returns `-a mod p`.
pub fn field_neg(a: u128) -> (r: u128)
    requires
        is_element(a),
    ensures
        is_element(r),
        r == modp(-a),
{
    field_sub(ZERO, a)
}

/// Returns `(a * b) mod p`; computed by binary double-and-add so that no intermediate value
/// exceeds 128 bits.
pub fn field_mul(a: u128, b: u128) -> (r: u128)
    requires
        is_element(a),
        is_element(b),
    ensures
        is_element(r),
        r == f_mul(a as int, b as int),
{
    let mut result: u128 = 0;
    let mut base: u128 = a;
    let mut e: u128 = b;
    proof {
        lemma_small_mod(a as nat, m() as nat);
    }
    while e > 0
        invariant
            is_element(result),
            is_element(base),
            modp(result + base * e) == modp(a * b),
        decreases e,
    {
        let ghost old_result = result as int;
        let ghost old_base = base as int;
        let ghost old_e = e as int;
        let bit = e % 2;
        if bit == 1 {
            result = field_add(result, base);
        }
        base = field_add(base, base);
        e = e / 2;
        proof {
            let r1 = old_result + bit * old_base;
            assert(result as int == modp(r1));
            assert(base as int == modp(2 * old_base));
            assert(old_e == 2 * (e as int) + bit);
            assert(r1 + (2 * old_base) * (e as int) == old_result + old_base * old_e) by (nonlinear_arith)
                requires
                    r1 == old_result + bit * old_base,
                    old_e == 2 * (e as int) + bit,
            ;
            lemma_add_mod_noop(r1, (2 * old_base) * (e as int), m());
            lemma_mul_mod_noop_left(2 * old_base, e as int, m());
            lemma_add_mod_noop(result as int, (base as int) * (e as int), m());
            lemma_mod_twice(r1, m());
            lemma_mod_twice((2 * old_base) * (e as int), m());
        }
    }
    proof {
        lemma_small_mod(result as nat, m() as nat);
    }
    result
}

/// Returns `a^e mod p`, computed by binary square-and-multiply.
pub fn field_exp(a: u128, e: u128) -> (r: u128)
    requires
        is_element(a),
    ensures
        is_element(r),
        r == f_exp(a as int, e as nat),
{
    let mut result: u128 = ONE;
    let mut base: u128 = a;
    let mut k: u128 = e;
    proof {
        lemma_pow0(a as int);
        lemma_mul_basics(pow(a as int, e as nat));
    }
    while k > 0
        invariant
            is_element(result),
            is_element(base),
            modp(result * pow(base as int, k as nat)) == modp(pow(a as int, e as nat)),
        decreases k,
    {
        let ghost r0 = result as int;
        let ghost b0 = base as int;
        let ghost k0 = k as nat;
        let bit = k % 2;
        if bit == 1 {
            result = field_mul(result, base);
        }
        base = field_mul(base, base);
        k = k / 2;
        proof {
            let h = k as nat;
            let bb = b0 * b0;
            // pow(b0, k0) == pow(b0, bit) * pow(b0 * b0, h)
            lemma_pow_adds(b0, bit as nat, 2 * h);
            lemma_pow_multiplies(b0, 2, h);
            lemma_square_is_pow2(b0);
            assert(k0 == bit as nat + 2 * h);
            assert(pow(b0, k0) == pow(b0, bit as nat) * pow(bb, h));
            let r1 = r0 * pow(b0, bit as nat);
            if bit == 1 {
                lemma_pow1(b0);
            } else {
                lemma_pow0(b0);
            }
            assert(result as int == modp(r1));
            assert(base as int == modp(bb));
            // result * pow(base, h) == r1 * pow(bb, h)  (mod p)
            lemma_pow_mod_noop(bb, h, m());
            lemma_mul_mod_noop_left(r1, pow(bb, h), m());
            lemma_mul_mod_noop_right(result as int, pow(bb, h), m());
            lemma_mul_mod_noop_right(result as int, pow(base as int, h), m());
            lemma_mod_twice(bb, m());
            lemma_mul_is_associative(r0, pow(b0, bit as nat), pow(bb, h));
        }
    }
    proof {
        lemma_pow0(base as int);
        lemma_small_mod(result as nat, m() as nat);
    }
    result
}

/// Returns `a^(p - 2) mod p`, which is the multiplicative inverse of every non-zero `a`
/// (and zero for `a = 0`).
pub fn field_inv(a: u128) -> (r: u128)
    requires
        is_element(a),
    ensures
        is_element(r),
        r == f_inv(a as int),
{
    field_exp(a, MODULUS - 2)
}

/// Returns `a * b^(p - 2) mod p`, that is `a / b` for every non-zero `b`.
pub fn field_div(a: u128, b: u128) -> (r: u128)
    requires
        is_element(a),
        is_element(b),
    ensures
        is_element(r),
        r == f_div(a as int, b as int),
{
    let inv = field_inv(b);
    field_mul(a, inv)
}

/// Evaluates the polynomial with coefficients `p` (lowest degree first) at `x` using Horner's
/// method.
pub fn eval(p: &[u128], x: u128) -> (r: u128)
    requires
        is_element(x),
        forall|i: int| 0 <= i < p@.len() ==> is_element(#[trigger] p@[i]),
    ensures
        is_element(r),
        r == poly_eval(p@, x as int),
{
    let mut result: u128 = ZERO;
    let mut i: usize = p.len();
    assert(p@.skip(i as int) =~= Seq::<u128>::empty());
    proof {
        lemma_small_mod(0, m() as nat);
    }
    while i > 0
        invariant
            i <= p@.len(),
            is_element(x),
            is_element(result),
            forall|j: int| 0 <= j < p@.len() ==> is_element(#[trigger] p@[j]),
            result == poly_eval(p@.skip(i as int), x as int),
        decreases i,
    {
        i = i - 1;
        let ghost tail = p@.skip(i + 1);
        let t = field_mul(result, x);
        result = field_add(t, p[i]);
        proof {
            let s = p@.skip(i as int);
            assert(s.drop_first() =~= tail);
            assert(s[0] == p@[i as int]);
            let ps = poly_sum(tail, x as int);
            // result == ((ps % m) * x % m + p[i]) % m == (p[i] + x * ps) % m
            lemma_mul_mod_noop_left(ps, x as int, m());
            lemma_add_mod_noop(ps * (x as int), p@[i as int] as int, m());
            lemma_mod_twice(ps * (x as int), m());
            lemma_small_mod(p@[i as int] as nat, m() as nat);
            lemma_mul_is_commutative(ps, x as int);
        }
    }
    assert(p@.skip(0) =~= p@);
    result
}

/// Field multiplication is commutative and associative.
pub proof fn lemma_f_mul_assoc(a: int, b: int, c: int)
    ensures
        f_mul(a, b) == f_mul(b, a),
        f_mul(f_mul(a, b), c) == f_mul(a, f_mul(b, c)),
{
    lemma_mul_is_commutative(a, b);
    lemma_mul_mod_noop_left(a * b, c, m());
    lemma_mul_mod_noop_right(a, b * c, m());
    lemma_mul_is_associative(a, b, c);
}

/// Multiplying by one keeps a reduced value.
pub proof fn lemma_f_mul_one(a: int)
    requires
        0 <= a < m(),
    ensures
        f_mul(a, 1) == a,
        f_mul(1, a) == a,
{
    lemma_small_mod(a as nat, m() as nat);
}

/// Powers add up: `a^(e1 + e2) == a^e1 * a^e2` in the field.
pub proof fn lemma_f_exp_add(a: int, e1: nat, e2: nat)
    ensures
        f_exp(a, e1 + e2) == f_mul(f_exp(a, e1), f_exp(a, e2)),
{
    lemma_pow_adds(a, e1, e2);
    lemma_mul_mod_noop(pow(a, e1), pow(a, e2), m());
}

/// Returns the generator of the subgroup of order 2^n, for `n` from 1 to the two-adicity.
pub fn get_root_of_unity(n: u32) -> (r: u128)
    requires
        1 <= n <= TWO_ADICITY,
    ensures
        is_element(r),
        r == root_of_unity(n as nat),
{
    let shift: u64 = (TWO_ADICITY - n) as u64;
    proof {
        vstd::bits::lemma_u64_pow2_no_overflow(shift as nat);
        vstd::bits::lemma_u64_shl_is_mul(1, shift);
    }
    let power: u64 = 1u64 << shift;
    field_exp(TWO_ADIC_ROOT_OF_UNITY, power as u128)
}

} // verus!
