//! The prover's side of the DEEP composition: the trace polynomials are combined into one
//! polynomial, with the out-of-domain points `z` and `z * g` divided out, and added to the
//! coefficients of the composition polynomial with the degree raised to the composition
//! degree.

use crate::field::{
    f_add, f_mul, f_sub, field_add, field_mul, get_root_of_unity, is_element, m, poly_eval,
    poly_sum, root_of_unity, TWO_ADICITY,
};
use crate::options::{log2, log2_of};
use vstd::arithmetic::div_mod::{
    lemma_add_mod_noop, lemma_add_mod_noop_right, lemma_mod_equivalence, lemma_mod_twice,
    lemma_mul_mod_noop, lemma_mul_mod_noop_right,
};
use crate::poly::{acc_poly, add_in_place, all_elements, mul_acc_at, PolyTable, valid_polys};
use crate::verification::{coefficients_ok, CompositionCoefficients};
use vstd::prelude::*;

verus! {

// SYNTHETIC DIVISION
// ================================================================================================

/// Coefficient `i` of the quotient of `p` (lowest degree first) by `x - a`: the top coefficient
/// is zero, and each one below is the next coefficient of `p` plus `a` times the next one of the
/// quotient.
pub open spec fn quotient_coefficient(p: Seq<u128>, a: int, i: int) -> int
    decreases p.len() - i,
{
    if i + 1 >= p.len() {
        0
    } else {
        f_add(p[i + 1] as int, f_mul(a, quotient_coefficient(p, a, i + 1)))
    }
}

/// The quotient of `p` by `x - a`, with as many coefficients as `p` (the top one zero); the
/// remainder `p(a)` is dropped.
pub open spec fn quotient(p: Seq<u128>, a: int) -> Seq<u128> {
    Seq::new(p.len(), |i: int| quotient_coefficient(p, a, i) as u128)
}

/// Divides the polynomial `p` by `x - a` in place (synthetic division), dropping the remainder.
pub fn syn_div_in_place(p: &mut Vec<u128>, a: u128)
    requires
        all_elements(old(p)@),
        is_element(a),
    ensures
        final(p)@ == quotient(old(p)@, a as int),
        all_elements(final(p)@),
{
    let ghost q = old(p)@;
    let n = p.len();
    let mut c: u128 = 0;
    let mut i: usize = n;
    while i > 0
        invariant
            n == p@.len() == q.len(),
            i <= n,
            is_element(a),
            is_element(c),
            all_elements(q),
            all_elements(p@),
            forall|j: int| 0 <= j < i ==> #[trigger] p@[j] == q[j],
            forall|j: int| i <= j < n ==> #[trigger] p@[j] == quotient_coefficient(q, a as int, j),
            i >= 1 ==> c == quotient_coefficient(q, a as int, i - 1),
        decreases i,
    {
        i = i - 1;
        let t = field_add(p[i], field_mul(a, c));
        p.set(i, c);
        c = t;
    }
    assert(p@ =~= quotient(q, a as int));
}

/// Each quotient coefficient is the value at `a` of the coefficients of `p` above it.
proof fn lemma_quotient_coefficient(p: Seq<u128>, a: int, i: int)
    requires
        0 <= i < p.len(),
    ensures
        quotient_coefficient(p, a, i) == poly_eval(p.skip(i + 1), a),
    decreases p.len() - i,
{
    if i + 1 >= p.len() {
        assert(p.skip(i + 1) =~= Seq::<u128>::empty());
        assert(poly_sum(p.skip(i + 1), a) == 0);
        assert(0int % m() == 0);
    } else {
        lemma_quotient_coefficient(p, a, i + 1);
        let tail = p.skip(i + 1);
        assert(tail.drop_first() =~= p.skip(i + 2));
        assert(tail[0] == p[i + 1]);
        let s = poly_sum(p.skip(i + 2), a);
        lemma_mul_mod_noop_right(a, s, m());
        lemma_add_mod_noop_right(p[i + 1] as int, a * s, m());
        assert(poly_sum(tail, a) == p[i + 1] + a * s);
        assert(quotient_coefficient(p, a, i + 1) == s % m());
        assert(quotient_coefficient(p, a, i) == (p[i + 1] + (a * (s % m())) % m()) % m());
    }
}

/// The quotient of `p` starts with the value at `a` of `p` without its constant coefficient,
/// followed by the quotient of that polynomial.
proof fn lemma_quotient_head(p: Seq<u128>, a: int)
    requires
        p.len() >= 1,
    ensures
        quotient(p, a)[0] as int == poly_eval(p.drop_first(), a),
        quotient(p, a).drop_first() == quotient(p.drop_first(), a),
{
    lemma_quotient_coefficient(p, a, 0);
    assert(p.skip(1) =~= p.drop_first());
    let q = quotient(p, a);
    let q1 = quotient(p.drop_first(), a);
    assert forall|i: int| 0 <= i < q1.len() implies #[trigger] q.drop_first()[i] == q1[i] by {
        lemma_quotient_coefficient(p, a, i + 1);
        lemma_quotient_coefficient(p.drop_first(), a, i);
        assert(p.drop_first().skip(i + 1) =~= p.skip(i + 2));
    }
    assert(q.drop_first() =~= q1);
}

/// Over the integers, `quotient(p)(x) * (x - a) + p(a)` and `p(x)` differ by a multiple of the
/// modulus.
proof fn lemma_quotient_congruence(p: Seq<u128>, a: int, x: int)
    ensures
        (poly_sum(quotient(p, a), x) * (x - a) + poly_eval(p, a) - poly_sum(p, x)) % m() == 0,
    decreases p.len(),
{
    if p.len() == 0 {
        assert(quotient(p, a) =~= Seq::<u128>::empty());
    } else {
        let p1 = p.drop_first();
        lemma_quotient_congruence(p1, a, x);
        lemma_quotient_head(p, a);
        let q0 = poly_eval(p1, a);
        let s1 = poly_sum(quotient(p1, a), x);
        let px1 = poly_sum(p1, x);
        let pa = poly_eval(p, a);
        let p0 = p[0] as int;
        let d1 = s1 * (x - a) + q0 - px1;
        let d = (q0 + x * s1) * (x - a) + pa - (p0 + x * px1);
        assert(poly_sum(quotient(p, a), x) == q0 + x * s1);
        assert(d == x * d1 + (pa - (p0 + a * q0))) by (nonlinear_arith)
            requires
                d1 == s1 * (x - a) + q0 - px1,
                d == (q0 + x * s1) * (x - a) + pa - (p0 + x * px1),
        ;
        // x * d1 vanishes
        lemma_mul_mod_noop_right(x, d1, m());
        // p(a) == p0 + a * q0 modulo the modulus
        let sa = poly_sum(p1, a);
        assert(pa == (p0 + a * sa) % m());
        lemma_mul_mod_noop_right(a, sa, m());
        lemma_add_mod_noop_right(p0, a * sa, m());
        lemma_add_mod_noop_right(p0, a * q0, m());
        lemma_mod_twice(p0 + a * sa, m());
        lemma_mod_equivalence(pa, p0 + a * q0, m());
        lemma_add_mod_noop(x * d1, pa - (p0 + a * q0), m());
    }
}

/// Synthetic division divides by `x - a`: at every point `x`, the quotient times `x - a`, plus
/// the value of `p` at `a`, is the value of `p`.
pub proof fn lemma_quotient_divides(p: Seq<u128>, a: int, x: int)
    ensures
        f_add(f_mul(poly_eval(quotient(p, a), x), f_sub(x, a)), poly_eval(p, a)) == poly_eval(p, x),
{
    lemma_quotient_congruence(p, a, x);
    let s = poly_sum(quotient(p, a), x);
    let pa = poly_eval(p, a);
    lemma_mul_mod_noop(s, x - a, m());
    lemma_mod_twice(pa + 0, m());
    lemma_add_mod_noop(s * (x - a), pa, m());
    lemma_mod_twice(s * (x - a), m());
    lemma_mod_equivalence(s * (x - a) + pa, poly_sum(p, x), m());
}

// TRACE POLYNOMIAL COMPOSITION
// ================================================================================================

/// Coefficients (lowest degree first) of the sum over the first `n` polynomials `P_i` of
/// `(P_i(x) - P_i(point)) * k_i`: only the constant coefficient takes the values at `point`.
pub open spec fn deep_combination(polys: Seq<Seq<u128>>, point: int, ks: Seq<u128>, n: nat) -> Seq<u128>
    decreases n,
{
    if n == 0 {
        Seq::new(polys[0].len(), |j: int| 0u128)
    } else {
        let prev = deep_combination(polys, point, ks, (n - 1) as nat);
        let p = polys[n - 1];
        let k = ks[n - 1] as int;
        let v = poly_eval(p, point);
        Seq::new(
            polys[0].len(),
            |j: int|
                (if j == 0 {
                    f_sub(f_add(prev[0] as int, f_mul(p[0] as int, k)), f_mul(v, k))
                } else {
                    f_add(prev[j] as int, f_mul(p[j] as int, k))
                }) as u128,
        )
    }
}

/// The trace polynomial T of the DEEP composition:
/// `sum_i (P_i(x) - P_i(z)) / (x - z) * a_i + (P_i(x) - P_i(next_z)) / (x - next_z) * b_i`,
/// where `(a_i, b_i)` are the trace coefficients.
pub open spec fn trace_composition(
    polys: Seq<Seq<u128>>,
    z: int,
    next_z: int,
    coefficients: Seq<(u128, u128)>,
) -> Seq<u128> {
    let firsts = coefficients.map_values(|c: (u128, u128)| c.0);
    let seconds = coefficients.map_values(|c: (u128, u128)| c.1);
    let t1 = quotient(deep_combination(polys, z, firsts, polys.len()), z);
    let t2 = quotient(deep_combination(polys, next_z, seconds, polys.len()), next_z);
    Seq::new(polys[0].len(), |j: int| f_add(t1[j] as int, t2[j] as int) as u128)
}

/// Coefficient `j` of the composition polynomial after adding `T(x) * k1 + T(x) * x^shift * k2`
/// to the coefficients `old`.
pub open spec fn composed_coefficient(old: Seq<u128>, t: Seq<u128>, k1: u128, k2: u128, shift: int, j: int) -> u128 {
    let a = if j < t.len() {
        f_add(old[j] as int, f_mul(t[j] as int, k1 as int)) as u128
    } else {
        old[j]
    };
    if shift <= j < shift + t.len() {
        f_add(a as int, f_mul(t[j - shift] as int, k2 as int)) as u128
    } else {
        a
    }
}

/// The out-of-domain point of the next step: `z` times the generator of the trace domain of
/// `trace_length` points.
pub open spec fn next_point(z: u128, trace_length: nat) -> u128 {
    f_mul(z as int, root_of_unity(log2(trace_length as int)) as int) as u128
}

/// Values of the polynomials at `x`.
pub open spec fn evaluations_at(polys: Seq<Seq<u128>>, x: int) -> Seq<u128> {
    Seq::new(polys.len(), |i: int| poly_eval(polys[i], x) as u128)
}

/// Combines all trace polynomials into a single polynomial and adds it into the coefficients of
/// the composition polynomial: the trace polynomials are evaluated at the out-of-domain points
/// `z` and `next_z`, which is `z` times the generator of the trace domain (of as many points as
/// each trace polynomial has coefficients); their pseudo-random combinations
/// `(P_i(x) - P_i(z)) / (x - z)` and `(P_i(x) - P_i(next_z)) / (x - next_z)` make up `T(x)`,
/// whose degree is raised to `degree` by adding `T(x) * k1 + T(x) * x^p * k2`, with `p` the
/// difference between `degree` and the degree `poly_size - 2` of `T`. Returns the evaluations of
/// the trace polynomials at `z` and at `next_z`.
pub fn add_trace_polys(
    coefficients: &mut Vec<u128>,
    trace_polys: &PolyTable,
    z: u128,
    cc: &CompositionCoefficients,
    degree: usize,
) -> (frame: (Vec<u128>, Vec<u128>))
    requires
        valid_polys(trace_polys.polys()),
        trace_polys.polys()[0].len() >= 2,
        trace_polys.polys().len() <= cc.trace@.len(),
        coefficients_ok(cc),
        is_element(z),
        log2(trace_polys.polys()[0].len() as int) <= TWO_ADICITY,
        all_elements(old(coefficients)@),
        trace_polys.polys()[0].len() - 2 <= degree,
        degree - (trace_polys.polys()[0].len() - 2) + trace_polys.polys()[0].len() <= old(
            coefficients,
        )@.len(),
    ensures
        frame.0@ == evaluations_at(trace_polys.polys(), z as int),
        frame.1@ == evaluations_at(
            trace_polys.polys(),
            next_point(z, trace_polys.polys()[0].len()) as int,
        ),
        final(coefficients)@.len() == old(coefficients)@.len(),
        forall|j: int|
            0 <= j < old(coefficients)@.len() ==> #[trigger] final(coefficients)@[j] == composed_coefficient(
                old(coefficients)@,
                trace_composition(
                    trace_polys.polys(),
                    z as int,
                    next_point(z, trace_polys.polys()[0].len()) as int,
                    cc.trace@,
                ),
                cc.trace_degree.0,
                cc.trace_degree.1,
                degree - (trace_polys.polys()[0].len() - 2),
                j,
            ),
{
    let ghost polys = trace_polys.polys();
    let ghost firsts = cc.trace@.map_values(|c: (u128, u128)| c.0);
    let ghost seconds = cc.trace@.map_values(|c: (u128, u128)| c.1);
    let trace_length = trace_polys.poly_size();
    proof {
        assert(log2(trace_length as int) >= 1);
    }
    let g = get_root_of_unity(log2_of(trace_length));
    let next_z = field_mul(z, g);
    let state1 = trace_polys.evaluate_at(z);
    let state2 = trace_polys.evaluate_at(next_z);
    let mut t1: Vec<u128> = Vec::new();
    let mut t2: Vec<u128> = Vec::new();
    let mut j: usize = 0;
    while j < trace_length
        invariant
            j <= trace_length,
            t1@ == Seq::new(j as nat, |q: int| 0u128),
            t2@ == Seq::new(j as nat, |q: int| 0u128),
        decreases trace_length - j,
    {
        t1.push(0);
        t2.push(0);
        j = j + 1;
        proof {
            assert(t1@ =~= Seq::new(j as nat, |q: int| 0u128));
            assert(t2@ =~= Seq::new(j as nat, |q: int| 0u128));
        }
    }
    proof {
        assert(t1@ =~= deep_combination(polys, z as int, firsts, 0));
        assert(t2@ =~= deep_combination(polys, next_z as int, seconds, 0));
    }
    let n = trace_polys.num_polys();
    let mut i: usize = 0;
    while i < n
        invariant
            polys == trace_polys.polys(),
            valid_polys(polys),
            n == polys.len(),
            n <= cc.trace@.len(),
            trace_length == polys[0].len(),
            trace_length >= 2,
            coefficients_ok(cc),
            firsts == cc.trace@.map_values(|c: (u128, u128)| c.0),
            seconds == cc.trace@.map_values(|c: (u128, u128)| c.1),
            state1@ == evaluations_at(polys, z as int),
            state2@ == evaluations_at(polys, next_z as int),
            all_elements(state1@),
            all_elements(state2@),
            i <= n,
            t1@ == deep_combination(polys, z as int, firsts, i as nat),
            t2@ == deep_combination(polys, next_z as int, seconds, i as nat),
            all_elements(t1@),
            all_elements(t2@),
        decreases n - i,
    {
        let poly = trace_polys.get_poly(i);
        proof {
            assert(all_elements(polys[i as int]));
            assert(polys[i as int].len() == trace_length);
            assert(is_element(cc.trace@[i as int].0) && is_element(cc.trace@[i as int].1));
        }
        let (a, b) = cc.trace[i];
        let ghost prev1 = t1@;
        let ghost prev2 = t2@;
        acc_poly(&mut t1, poly, state1[i], a);
        acc_poly(&mut t2, poly, state2[i], b);
        i = i + 1;
        proof {
            assert(firsts[i - 1] == a);
            assert(seconds[i - 1] == b);
            assert(t1@ =~= deep_combination(polys, z as int, firsts, i as nat));
            assert(t2@ =~= deep_combination(polys, next_z as int, seconds, i as nat));
        }
    }
    syn_div_in_place(&mut t1, z);
    syn_div_in_place(&mut t2, next_z);
    add_in_place(&mut t1, t2.as_slice());
    let ghost t = trace_composition(polys, z as int, next_z as int, cc.trace@);
    proof {
        assert(t1@ =~= t);
    }
    let shift = degree - (trace_length - 2);
    let ghost c0 = coefficients@;
    mul_acc_at(coefficients, 0, t1.as_slice(), cc.trace_degree.0);
    let ghost c1 = coefficients@;
    mul_acc_at(coefficients, shift, t1.as_slice(), cc.trace_degree.1);
    proof {
        assert forall|j: int| 0 <= j < c0.len() implies #[trigger] coefficients@[j] == composed_coefficient(
            c0,
            t,
            cc.trace_degree.0,
            cc.trace_degree.1,
            shift as int,
            j,
        ) by {
            if j < t.len() {
                assert(c1[0 + j] == c1[j]);
            }
            if shift <= j < shift + t.len() {
                assert(coefficients@[shift + (j - shift)] == coefficients@[j]);
            }
        }
    }
    (state1, state2)
}

} // verus!
