//! Exactness of Lagrange interpolation: the interpolant through `n` points whose differences have
//! inverses is the polynomial with at most `n` coefficients through them. The proof writes the
//! interpolant's coefficients out and uses that a polynomial with at most `n` coefficients that
//! vanishes at `n` such points vanishes everywhere.

use crate::composition::{lemma_quotient_divides, quotient, quotient_coefficient};
use crate::field::{f_add, f_inv, f_mul, f_sub, lemma_f_mul_assoc, lemma_f_mul_one, m, poly_eval, poly_sum};
use crate::sums::{cong, lemma_cong_add, lemma_cong_mod, lemma_cong_mul};
use crate::verification::{basis_upto, interpolant, interpolant_upto};
use vstd::arithmetic::div_mod::lemma_small_mod;
use vstd::prelude::*;

verus! {

// COEFFICIENT ALGEBRA
// ================================================================================================

/// Coefficient-wise `a * s + b * t` of two coefficient sequences of the same length.
pub open spec fn combination(s: Seq<u128>, t: Seq<u128>, a: int, b: int) -> Seq<u128> {
    Seq::new(s.len(), |i: int| f_add(f_mul(a, s[i] as int), f_mul(b, t[i] as int)) as u128)
}

/// `n` zero coefficients.
pub open spec fn zeros(n: nat) -> Seq<u128> {
    Seq::new(n, |i: int| 0u128)
}

proof fn lemma_combination_sum(s: Seq<u128>, t: Seq<u128>, a: int, b: int, x: int)
    requires
        s.len() == t.len(),
    ensures
        cong(poly_sum(combination(s, t, a, b), x), a * poly_sum(s, x) + b * poly_sum(t, x)),
    decreases s.len(),
{
    let c = combination(s, t, a, b);
    if s.len() == 0 {
        assert(a * 0 + b * 0 == 0) by (nonlinear_arith);
    } else {
        let s1 = s.drop_first();
        let t1 = t.drop_first();
        lemma_combination_sum(s1, t1, a, b, x);
        assert(c.drop_first() =~= combination(s1, t1, a, b));
        let c0 = c[0] as int;
        let u = a * (s[0] as int);
        let v = b * (t[0] as int);
        // the first coefficient
        lemma_cong_mod(u);
        lemma_cong_mod(v);
        lemma_cong_add(u % m(), u, v % m(), v);
        lemma_cong_mod(u % m() + v % m());
        assert(cong(c0, u + v));
        // the rest, times x
        let r = poly_sum(combination(s1, t1, a, b), x);
        let lin = a * poly_sum(s1, x) + b * poly_sum(t1, x);
        lemma_cong_mul(r, lin, x);
        lemma_cong_add(c0, u + v, x * r, x * lin);
        assert(poly_sum(c, x) == c0 + x * r);
        let s0 = s[0] as int;
        let t0 = t[0] as int;
        let ps = poly_sum(s, x);
        let pt = poly_sum(t, x);
        let ps1 = poly_sum(s1, x);
        let pt1 = poly_sum(t1, x);
        assert(ps == s0 + x * ps1);
        assert(pt == t0 + x * pt1);
        lemma_combination_step(u, v, x, lin, a, b, s0, t0, ps, pt, ps1, pt1);
    }
}

proof fn lemma_combination_step(
    u: int,
    v: int,
    x: int,
    lin: int,
    a: int,
    b: int,
    s0: int,
    t0: int,
    ps: int,
    pt: int,
    ps1: int,
    pt1: int,
)
    requires
        u == a * s0,
        v == b * t0,
        lin == a * ps1 + b * pt1,
        ps == s0 + x * ps1,
        pt == t0 + x * pt1,
    ensures
        u + v + x * lin == a * ps + b * pt,
{
    assert(x * (a * ps1 + b * pt1) == a * (x * ps1) + b * (x * pt1)) by (nonlinear_arith);
    assert(a * (s0 + x * ps1) == a * s0 + a * (x * ps1)) by (nonlinear_arith);
    assert(b * (t0 + x * pt1) == b * t0 + b * (x * pt1)) by (nonlinear_arith);
}

/// The value of a combination is the combination of the values.
pub proof fn lemma_combination(s: Seq<u128>, t: Seq<u128>, a: int, b: int, x: int)
    requires
        s.len() == t.len(),
    ensures
        poly_eval(combination(s, t, a, b), x) == f_add(f_mul(a, poly_eval(s, x)), f_mul(b, poly_eval(t, x))),
{
    lemma_combination_sum(s, t, a, b, x);
    let ps = poly_sum(s, x);
    let pt = poly_sum(t, x);
    lemma_cong_mod(ps);
    lemma_cong_mod(pt);
    lemma_cong_mul(ps % m(), ps, a);
    lemma_cong_mul(pt % m(), pt, b);
    lemma_cong_mod(a * (ps % m()));
    lemma_cong_mod(b * (pt % m()));
    lemma_cong_add(f_mul(a, ps % m()), a * ps, f_mul(b, pt % m()), b * pt);
    lemma_cong_mod(f_mul(a, ps % m()) + f_mul(b, pt % m()));
}

/// A zero coefficient on top changes no value.
pub proof fn lemma_push_zero(s: Seq<u128>, x: int)
    ensures
        poly_sum(s.push(0), x) == poly_sum(s, x),
        poly_eval(s.push(0), x) == poly_eval(s, x),
    decreases s.len(),
{
    if s.len() == 0 {
        assert(s.push(0).drop_first() =~= Seq::<u128>::empty());
        assert(poly_sum(s.push(0).drop_first(), x) == 0);
        assert(s.push(0)[0] == 0);
        assert(x * 0 == 0);
        assert(poly_sum(s.push(0), x) == 0);
    } else {
        lemma_push_zero(s.drop_first(), x);
        assert(s.push(0).drop_first() =~= s.drop_first().push(0));
        assert(s.push(0)[0] == s[0]);
    }
}

/// Zero coefficients have value zero.
proof fn lemma_zeros(n: nat, x: int)
    ensures
        poly_sum(zeros(n), x) == 0,
        poly_eval(zeros(n), x) == 0,
    decreases n,
{
    if n > 0 {
        lemma_zeros((n - 1) as nat, x);
        assert(zeros(n).drop_first() =~= zeros((n - 1) as nat));
        assert(x * 0 == 0);
    }
}

/// Coefficients of `s(x) * (x - a) * c`, one more than those of `s`.
pub open spec fn times_linear(s: Seq<u128>, a: int, c: int) -> Seq<u128> {
    combination(seq![0u128] + s, s.push(0), c, f_mul(f_sub(0, a), c))
}

proof fn lemma_times_linear(s: Seq<u128>, a: int, c: int, x: int)
    ensures
        times_linear(s, a, c).len() == s.len() + 1,
        poly_eval(times_linear(s, a, c), x) == f_mul(poly_eval(s, x), f_mul(f_sub(x, a), c)),
{
    let sh = seq![0u128] + s;
    lemma_combination(sh, s.push(0), c, f_mul(f_sub(0, a), c), x);
    lemma_push_zero(s, x);
    assert(sh.drop_first() =~= s);
    let v = poly_eval(s, x);
    let ps = poly_sum(s, x);
    assert(poly_sum(sh, x) == 0 + x * ps);
    // all sides are congruent to v * (x - a) * c
    let na = f_mul(f_sub(0, a), c);
    lemma_cong_mod(x * ps);
    lemma_cong_mod(ps);
    lemma_cong_mul(ps % m(), ps, x);
    let lhs = f_add(f_mul(c, (x * ps) % m()), f_mul(na, v));
    // f_mul(c, (x ps) % m) ~ c x ps ; f_mul(na, v) ~ -a c ps
    lemma_cong_mul((x * ps) % m(), x * ps, c);
    lemma_cong_mod(c * ((x * ps) % m()));
    lemma_cong_mod(0 - a);
    lemma_cong_mul((0 - a) % m(), 0 - a, c);
    lemma_cong_mod(((0 - a) % m()) * c);
    assert(cong(na, (0 - a) * c)) by {
        assert(((0 - a) % m()) * c == c * ((0 - a) % m())) by (nonlinear_arith);
        assert((0 - a) * c == c * (0 - a)) by (nonlinear_arith);
    }
    lemma_cong_mul(v, ps, na);
    lemma_cong_mul(na, (0 - a) * c, ps);
    lemma_cong_mod(na * v);
    assert(cong(f_mul(na, v), (0 - a) * c * ps)) by {
        assert(ps * na == na * ps) by (nonlinear_arith);
        assert(ps * ((0 - a) * c) == (0 - a) * c * ps) by (nonlinear_arith);
    }
    lemma_cong_add(f_mul(c, (x * ps) % m()), c * (x * ps), f_mul(na, v), (0 - a) * c * ps);
    lemma_cong_mod(f_mul(c, (x * ps) % m()) + f_mul(na, v));
    // the right-hand side
    let xa = f_sub(x, a);
    lemma_cong_mod(x - a);
    lemma_cong_mul(xa, x - a, c);
    lemma_cong_mod(c * xa);
    let w = f_mul(xa, c);
    assert(cong(w, (x - a) * c)) by {
        assert(xa * c == c * xa) by (nonlinear_arith);
        assert((x - a) * c == c * (x - a)) by (nonlinear_arith);
    }
    lemma_cong_mul(v, ps, w);
    lemma_cong_mul(w, (x - a) * c, ps);
    lemma_cong_mod(v * w);
    assert(cong(f_mul(v, w), ps * ((x - a) * c))) by {
        assert(w * v == v * w) by (nonlinear_arith);
        assert(w * ps == ps * w) by (nonlinear_arith);
    }
    assert(c * (x * ps) + (0 - a) * c * ps == ps * ((x - a) * c)) by (nonlinear_arith);
}

// ROOTS
// ================================================================================================

/// The differences of the points have inverses.
pub open spec fn invertible_differences(xs: Seq<u128>) -> bool {
    forall|a: int, b: int|
        0 <= a < xs.len() && 0 <= b < xs.len() && a != b ==> f_mul(
            #[trigger] f_sub(xs[a] as int, xs[b] as int),
            f_inv(f_sub(xs[a] as int, xs[b] as int)),
        ) == 1
}

/// A polynomial with at most as many coefficients as there are points, which vanishes at all of
/// them, vanishes everywhere.
pub proof fn lemma_vanishing(q: Seq<u128>, xs: Seq<u128>, x: int)
    requires
        q.len() <= xs.len(),
        invertible_differences(xs),
        forall|k: int| 0 <= k < xs.len() ==> poly_eval(q, #[trigger] xs[k] as int) == 0,
    ensures
        poly_eval(q, x) == 0,
    decreases xs.len(),
{
    if q.len() == 0 {
        assert(0int % m() == 0);
    } else {
        let x0 = xs[0] as int;
        let qq = quotient(q, x0);
        let q1 = qq.drop_last();
        assert(qq[qq.len() - 1] as int == quotient_coefficient(q, x0, q.len() - 1));
        assert(qq =~= q1.push(0));
        assert(poly_eval(q, x0) == 0);
        // q(y) == q1(y) * (y - x0) at every point
        assert forall|y: int| #[trigger] poly_eval(q, y) == f_mul(poly_eval(q1, y), f_sub(y, x0)) by {
            lemma_quotient_divides(q, x0, y);
            lemma_push_zero(q1, y);
            let w = f_mul(poly_eval(q1, y), f_sub(y, x0));
            assert(0 <= w < m());
            lemma_small_mod(w as nat, m() as nat);
        }
        let rest = xs.drop_first();
        assert forall|a: int, b: int|
            0 <= a < rest.len() && 0 <= b < rest.len() && a != b implies f_mul(
            #[trigger] f_sub(rest[a] as int, rest[b] as int),
            f_inv(f_sub(rest[a] as int, rest[b] as int)),
        ) == 1 by {
            assert(rest[a] == xs[a + 1] && rest[b] == xs[b + 1]);
        }
        assert forall|k: int| 0 <= k < rest.len() implies poly_eval(q1, #[trigger] rest[k] as int) == 0 by {
            let y = xs[k + 1] as int;
            assert(rest[k] as int == y);
            let v = poly_eval(q1, y);
            let d = f_sub(y, x0);
            assert(poly_eval(q, y) == 0);
            assert(f_mul(v, d) == 0);
            assert(f_mul(d, f_inv(d)) == 1);
            assert(0 <= v < m());
            lemma_f_mul_one(v);
            lemma_f_mul_assoc(v, d, f_inv(d));
            assert(f_mul(0, f_inv(d)) == 0);
        }
        lemma_vanishing(q1, rest, x);
        assert(f_mul(0, f_sub(x, x0)) == 0);
    }
}

// THE INTERPOLANT'S COEFFICIENTS
// ================================================================================================

/// Coefficients of the basis polynomial of point `i` over the first `n` points.
pub open spec fn basis_coefficients(xs: Seq<u128>, i: int, n: nat) -> Seq<u128>
    decreases n,
{
    if n == 0 {
        seq![1u128]
    } else {
        let j = n - 1;
        let prev = basis_coefficients(xs, i, (n - 1) as nat);
        if j == i {
            prev
        } else {
            times_linear(prev, xs[j] as int, f_inv(f_sub(xs[i] as int, xs[j] as int)))
        }
    }
}

proof fn lemma_basis_coefficients(xs: Seq<u128>, i: int, n: nat, x: int)
    requires
        0 <= i,
    ensures
        poly_eval(basis_coefficients(xs, i, n), x) == basis_upto(xs, i, x, n),
        basis_coefficients(xs, i, n).len() == if i < n {
            n
        } else {
            n + 1
        },
    decreases n,
{
    if n == 0 {
        let b = seq![1u128];
        assert(b.drop_first() =~= Seq::<u128>::empty());
        assert(poly_sum(b.drop_first(), x) == 0);
        assert(x * 0 == 0);
        assert(poly_sum(b, x) == 1);
        lemma_small_mod(1, m() as nat);
    } else {
        lemma_basis_coefficients(xs, i, (n - 1) as nat, x);
        let j = n - 1;
        if j != i {
            let prev = basis_coefficients(xs, i, (n - 1) as nat);
            lemma_times_linear(prev, xs[j] as int, f_inv(f_sub(xs[i] as int, xs[j] as int)), x);
        }
    }
}

/// Coefficients of the sum over the first `n` points of `ys[i]` times the basis polynomial of
/// point `i`, as many as there are points.
pub open spec fn interpolant_coefficients(xs: Seq<u128>, ys: Seq<u128>, n: nat) -> Seq<u128>
    decreases n,
{
    if n == 0 {
        zeros(xs.len())
    } else {
        combination(
            interpolant_coefficients(xs, ys, (n - 1) as nat),
            basis_coefficients(xs, n - 1, xs.len()),
            1,
            ys[n - 1] as int,
        )
    }
}

proof fn lemma_interpolant_coefficients(xs: Seq<u128>, ys: Seq<u128>, n: nat, x: int)
    requires
        n <= xs.len(),
    ensures
        interpolant_coefficients(xs, ys, n).len() == xs.len(),
        poly_eval(interpolant_coefficients(xs, ys, n), x) == interpolant_upto(xs, ys, x, n),
    decreases n,
{
    if n == 0 {
        lemma_zeros(xs.len(), x);
    } else {
        lemma_interpolant_coefficients(xs, ys, (n - 1) as nat, x);
        lemma_basis_coefficients(xs, n - 1, xs.len(), x);
        let prev = interpolant_coefficients(xs, ys, (n - 1) as nat);
        lemma_combination(prev, basis_coefficients(xs, n - 1, xs.len()), 1, ys[n - 1] as int, x);
        let v = interpolant_upto(xs, ys, x, (n - 1) as nat);
        assert(0 <= v < m());
        lemma_f_mul_one(v);
    }
}

/// Exactness of interpolation: the interpolant through points whose differences have inverses
/// (as the differences of distinct points of a prime field do), of the values there of a
/// polynomial with at most as many coefficients as there are points, is that polynomial, at
/// every point.
pub proof fn lemma_interpolant_is_the_polynomial(xs: Seq<u128>, ys: Seq<u128>, p: Seq<u128>, x: int)
    requires
        xs.len() == ys.len(),
        p.len() <= xs.len(),
        invertible_differences(xs),
        forall|k: int| 0 <= k < xs.len() ==> #[trigger] ys[k] as int == poly_eval(p, xs[k] as int),
    ensures
        interpolant(xs, ys, x) == poly_eval(p, x),
{
    let n = xs.len();
    let pp = p + zeros((n - p.len()) as nat);
    assert forall|y: int| #[trigger] poly_eval(pp, y) == poly_eval(p, y) by {
        lemma_pad(p, (n - p.len()) as nat, y);
    }
    let ic = interpolant_coefficients(xs, ys, n);
    lemma_interpolant_coefficients(xs, ys, n, x);
    let e = combination(ic, pp, 1, m() - 1);
    assert forall|k: int| 0 <= k < xs.len() implies poly_eval(e, #[trigger] xs[k] as int) == 0 by {
        let y = xs[k] as int;
        lemma_interpolant_coefficients(xs, ys, n, y);
        assert(all_elements_of(ys)) by {
            assert forall|j: int| 0 <= j < ys.len() implies (#[trigger] ys[j]) < m() by {
                assert(ys[j] as int == poly_eval(p, xs[j] as int));
            }
        }
        crate::verification::lemma_interpolant_at_points(xs, ys, k);
        lemma_combination(ic, pp, 1, m() - 1, y);
        let v = ys[k] as int;
        assert(0 <= v < m());
        lemma_f_mul_one(v);
        lemma_minus(v, v);
    }
    lemma_vanishing(e, xs, x);
    lemma_combination(ic, pp, 1, m() - 1, x);
    let iv = interpolant(xs, ys, x);
    let pv = poly_eval(p, x);
    assert(0 <= iv < m());
    lemma_f_mul_one(iv);
    lemma_minus_zero(iv, pv);
}

spec fn all_elements_of(s: Seq<u128>) -> bool {
    forall|j: int| 0 <= j < s.len() ==> (#[trigger] s[j]) < m()
}

/// `a + (m - 1) * b` in the field is zero for `a == b`.
proof fn lemma_minus(a: int, b: int)
    requires
        a == b,
        0 <= a < m(),
    ensures
        f_add(a, f_mul(m() - 1, b)) == 0,
{
    lemma_cong_mod((m() - 1) * b);
    assert((m() - 1) * b == m() * b - b) by (nonlinear_arith);
    vstd::arithmetic::div_mod::lemma_mod_multiples_vanish(b, 0 - b, m());
    assert(cong((m() - 1) * b, 0 - b)) by {
        assert(m() * b + (0 - b) == (m() - 1) * b);
    }
    lemma_cong_add(a, a, f_mul(m() - 1, b), 0 - b);
    assert(a + (0 - b) == 0);
}

/// When `a + (m - 1) * b` is zero in the field for elements `a` and `b`, they are equal.
proof fn lemma_minus_zero(a: int, b: int)
    requires
        0 <= a < m(),
        0 <= b < m(),
        f_add(a, f_mul(m() - 1, b)) == 0,
    ensures
        a == b,
{
    lemma_cong_mod((m() - 1) * b);
    assert((m() - 1) * b == m() * b - b) by (nonlinear_arith);
    vstd::arithmetic::div_mod::lemma_mod_multiples_vanish(b, 0 - b, m());
    assert(cong((m() - 1) * b, 0 - b)) by {
        assert(m() * b + (0 - b) == (m() - 1) * b);
    }
    lemma_cong_add(a, a, f_mul(m() - 1, b), 0 - b);
    assert(cong(a - b, 0));
    vstd::arithmetic::div_mod::lemma_mod_equivalence(a, b, m());
    lemma_small_mod(a as nat, m() as nat);
    lemma_small_mod(b as nat, m() as nat);
}

/// Zero coefficients on top change no value.
proof fn lemma_pad(p: Seq<u128>, k: nat, y: int)
    ensures
        poly_eval(p + zeros(k), y) == poly_eval(p, y),
    decreases k,
{
    if k == 0 {
        assert(p + zeros(0) =~= p);
    } else {
        lemma_pad(p, (k - 1) as nat, y);
        assert(p + zeros(k) =~= (p + zeros((k - 1) as nat)).push(0));
        lemma_push_zero(p + zeros((k - 1) as nat), y);
    }
}

} // verus!
