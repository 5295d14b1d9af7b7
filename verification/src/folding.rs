//! The algebra of one FRI folding step. A polynomial `P` with coefficients `p` (a multiple of four
//! of them) splits as `P(x) = P0(x^4) + x P1(x^4) + x^2 P2(x^4) + x^3 P3(x^4)`, where `Pr` takes
//! every fourth coefficient starting at `r`. On the four points of a row, which share their
//! fourth power `y`, `P` therefore agrees with the cubic whose coefficients are `Pr(y)`; folding
//! the row with `alpha` evaluates that cubic at `alpha`, which is the value at `y` of the
//! polynomial whose coefficient `j` is `p[4j] + p[4j+1] alpha + p[4j+2] alpha^2 + p[4j+3] alpha^3`.

use crate::field::{f_add, f_exp, f_mul, m, poly_eval, poly_sum};
use crate::interpolation::{invertible_differences, lemma_interpolant_is_the_polynomial};
use crate::sums::{cong, lemma_cong_add, lemma_cong_mod, lemma_cong_mul};
use crate::verification::interpolant;
use vstd::arithmetic::div_mod::lemma_mul_mod_noop_right;
use vstd::arithmetic::power::pow;
use vstd::prelude::*;

verus! {

// SPECIFICATION
// ================================================================================================

/// Every fourth coefficient of `p`, starting at `r`.
pub open spec fn part(p: Seq<u128>, r: int) -> Seq<u128> {
    Seq::new(p.len() / 4, |j: int| p[4 * j + r])
}

/// The cubic with which `p` agrees on the points whose fourth power is `y`: its coefficient `r`
/// is the value at `y` of every fourth coefficient of `p` starting at `r`.
pub open spec fn row_cubic(p: Seq<u128>, y: int) -> Seq<u128> {
    Seq::new(4, |r: int| poly_eval(part(p, r), y) as u128)
}

/// The polynomial into which folding with `alpha` turns `p`: coefficient `j` is
/// `p[4j] + p[4j+1] alpha + p[4j+2] alpha^2 + p[4j+3] alpha^3`.
pub open spec fn reduced(p: Seq<u128>, alpha: int) -> Seq<u128> {
    Seq::new(
        p.len() / 4,
        |j: int|
            f_add(
                f_add(p[4 * j] as int, f_mul(p[4 * j + 1] as int, alpha)),
                f_add(
                    f_mul(p[4 * j + 2] as int, f_exp(alpha, 2)),
                    f_mul(p[4 * j + 3] as int, f_exp(alpha, 3)),
                ),
            ) as u128,
    )
}

/// A polynomial's values at congruent points are congruent.
pub proof fn lemma_poly_sum_cong(p: Seq<u128>, x: int, z: int)
    requires
        cong(x, z),
    ensures
        cong(poly_sum(p, x), poly_sum(p, z)),
    decreases p.len(),
{
    if p.len() > 0 {
        let t = p.drop_first();
        lemma_poly_sum_cong(t, x, z);
        let sx = poly_sum(t, x);
        let sz = poly_sum(t, z);
        // x * sx == z * sz modulo the modulus
        lemma_cong_mul(sx, sz, x);
        lemma_mul_mod_noop_right(sz, x, m());
        lemma_mul_mod_noop_right(sz, z, m());
        assert(sz * x == x * sz && sz * z == z * sz) by (nonlinear_arith);
        assert(cong(x * sz, z * sz));
        assert(cong(x * sx, z * sz));
        lemma_cong_add(p[0] as int, p[0] as int, x * sx, z * sz);
    }
}

// SPLITTING A POLYNOMIAL
// ================================================================================================

proof fn lemma_part_tail(p: Seq<u128>, r: int)
    requires
        p.len() >= 4,
        p.len() % 4 == 0,
        0 <= r < 4,
    ensures
        part(p, r).len() > 0,
        part(p, r)[0] == p[r],
        part(p, r).drop_first() == part(p.skip(4), r),
{
    assert(part(p, r).drop_first() =~= part(p.skip(4), r));
}

/// Over the integers, `P(x) = P0(x^4) + x P1(x^4) + x^2 P2(x^4) + x^3 P3(x^4)`.
proof fn lemma_split_sum(p: Seq<u128>, x: int)
    requires
        p.len() % 4 == 0,
    ensures
        poly_sum(p, x) == poly_sum(part(p, 0), x * x * x * x) + x * poly_sum(part(p, 1), x * x * x * x)
            + x * x * poly_sum(part(p, 2), x * x * x * x) + x * x * x * poly_sum(
            part(p, 3),
            x * x * x * x,
        ),
    decreases p.len(),
{
    let x4 = x * x * x * x;
    if p.len() == 0 {
        assert(part(p, 0).len() == 0);
        assert(part(p, 1).len() == 0);
        assert(part(p, 2).len() == 0);
        assert(part(p, 3).len() == 0);
    } else {
        let rest = p.skip(4);
        lemma_split_sum(rest, x);
        lemma_part_tail(p, 0);
        lemma_part_tail(p, 1);
        lemma_part_tail(p, 2);
        lemma_part_tail(p, 3);
        let p1 = p.drop_first();
        let p2 = p1.drop_first();
        let p3 = p2.drop_first();
        assert(p3.drop_first() =~= rest);
        let s = poly_sum(rest, x);
        assert(poly_sum(p3, x) == p[3] + x * s);
        assert(poly_sum(p2, x) == p[2] + x * poly_sum(p3, x));
        assert(poly_sum(p1, x) == p[1] + x * poly_sum(p2, x));
        assert(poly_sum(p, x) == p[0] + x * poly_sum(p1, x));
        let b0 = poly_sum(part(rest, 0), x4);
        let b1 = poly_sum(part(rest, 1), x4);
        let b2 = poly_sum(part(rest, 2), x4);
        let b3 = poly_sum(part(rest, 3), x4);
        let c0 = p[0] as int;
        let c1 = p[1] as int;
        let c2 = p[2] as int;
        let c3 = p[3] as int;
        assert(poly_sum(p, x) == c0 + x * c1 + x * x * c2 + x * x * x * c3 + x4 * s) by (nonlinear_arith)
            requires
                poly_sum(p, x) == c0 + x * (c1 + x * (c2 + x * (c3 + x * s))),
                x4 == x * x * x * x,
        ;
        assert(c0 + x * c1 + x * x * c2 + x * x * x * c3 + x4 * (b0 + x * b1 + x * x * b2 + x * x * x
            * b3) == (c0 + x4 * b0) + x * (c1 + x4 * b1) + x * x * (c2 + x4 * b2) + x * x * x * (c3
            + x4 * b3)) by (nonlinear_arith);
    }
}

/// On a point `x`, a polynomial agrees with the cubic of its parts at the fourth power of `x`:
/// `P(x) = P0(y) + x P1(y) + x^2 P2(y) + x^3 P3(y)` with `y = x^4`.
pub proof fn lemma_split_at_fourth_power(p: Seq<u128>, x: int)
    requires
        p.len() % 4 == 0,
    ensures
        poly_eval(p, x) == poly_eval(row_cubic(p, f_exp(x, 4)), x),
{
    let x4 = x * x * x * x;
    let y = f_exp(x, 4);
    assert(pow(x, 4) == x4) by {
        reveal_with_fuel(pow, 5);
        assert(pow(x, 4) == x * (x * (x * (x * 1))));
        assert(x * (x * (x * (x * 1))) == x4) by (nonlinear_arith)
            requires
                x4 == x * x * x * x,
        ;
    }
    lemma_cong_mod(x4);
    lemma_split_sum(p, x);
    let c = row_cubic(p, y);
    // each coefficient of the cubic is congruent to the part's value at x^4
    let b = Seq::new(4, |r: int| poly_sum(part(p, r), x4));
    assert forall|r: int| 0 <= r < 4 implies cong(#[trigger] c[r] as int, b[r]) by {
        lemma_poly_sum_cong(part(p, r), y, x4);
        let v = poly_sum(part(p, r), y);
        lemma_cong_mod(v);
        assert(c[r] as int == v % m());
    }
    // the cubic's value at x
    let c0 = c[0] as int;
    let c1 = c[1] as int;
    let c2 = c[2] as int;
    let c3 = c[3] as int;
    let d3 = c.drop_first().drop_first().drop_first();
    assert(d3[0] == c[3]);
    assert(d3.drop_first() =~= Seq::<u128>::empty());
    assert(poly_sum(d3.drop_first(), x) == 0);
    assert(poly_sum(d3, x) == c3 + x * 0);
    assert(poly_sum(c.drop_first().drop_first(), x) == c2 + x * poly_sum(c.drop_first().drop_first().drop_first(), x));
    assert(poly_sum(c.drop_first(), x) == c1 + x * poly_sum(c.drop_first().drop_first(), x));
    assert(poly_sum(c, x) == c0 + x * poly_sum(c.drop_first(), x));
    assert(poly_sum(c, x) == c0 + x * c1 + x * x * c2 + x * x * x * c3) by (nonlinear_arith)
        requires
            poly_sum(c, x) == c0 + x * (c1 + x * (c2 + x * (c3 + x * 0))),
    ;
    lemma_cong_mul(c1, b[1], x);
    lemma_cong_mul(c2, b[2], x * x);
    lemma_cong_mul(c3, b[3], x * x * x);
    lemma_cong_add(c0, b[0], x * c1, x * b[1]);
    lemma_cong_add(c0 + x * c1, b[0] + x * b[1], x * x * c2, x * x * b[2]);
    lemma_cong_add(
        c0 + x * c1 + x * x * c2,
        b[0] + x * b[1] + x * x * b[2],
        x * x * x * c3,
        x * x * x * b[3],
    );
}

// FOLDING THE CUBIC
// ================================================================================================

/// `a^2` and `a^3` in the field are the reduced squares and cubes.
proof fn lemma_small_powers(a: int)
    ensures
        f_exp(a, 2) == (a * a) % m(),
        f_exp(a, 3) == (a * a * a) % m(),
{
    reveal_with_fuel(pow, 4);
    assert(pow(a, 2) == a * (a * 1));
    assert(pow(a, 3) == a * (a * (a * 1)));
    assert(a * (a * 1) == a * a && a * (a * (a * 1)) == a * a * a) by (nonlinear_arith);
}

/// The first coefficient of the reduced polynomial is congruent to
/// `p0 + p1 alpha + p2 alpha^2 + p3 alpha^3`.
proof fn lemma_reduced_head(p0: int, p1: int, p2: int, p3: int, a: int)
    ensures
        cong(
            f_add(f_add(p0, f_mul(p1, a)), f_add(f_mul(p2, f_exp(a, 2)), f_mul(p3, f_exp(a, 3)))),
            p0 + a * p1 + a * a * p2 + a * a * a * p3,
        ),
{
    lemma_small_powers(a);
    let e2 = f_exp(a, 2);
    let e3 = f_exp(a, 3);
    // each product is congruent to its unreduced form
    lemma_cong_mod(p1 * a);
    lemma_mul_mod_noop_right(p2, a * a, m());
    lemma_cong_mod(p2 * (a * a));
    lemma_mul_mod_noop_right(p3, a * a * a, m());
    lemma_cong_mod(p3 * (a * a * a));
    assert(cong(f_mul(p1, a), a * p1)) by {
        assert(p1 * a == a * p1) by (nonlinear_arith);
    }
    assert(cong(f_mul(p2, e2), a * a * p2)) by {
        assert(p2 * (a * a) == a * a * p2) by (nonlinear_arith);
    }
    assert(cong(f_mul(p3, e3), a * a * a * p3)) by {
        assert(p3 * (a * a * a) == a * a * a * p3) by (nonlinear_arith);
    }
    let u = f_add(p0, f_mul(p1, a));
    let v = f_add(f_mul(p2, e2), f_mul(p3, e3));
    lemma_cong_add(p0, p0, f_mul(p1, a), a * p1);
    lemma_cong_mod(p0 + f_mul(p1, a));
    lemma_cong_add(f_mul(p2, e2), a * a * p2, f_mul(p3, e3), a * a * a * p3);
    lemma_cong_mod(f_mul(p2, e2) + f_mul(p3, e3));
    lemma_cong_add(u, p0 + a * p1, v, a * a * p2 + a * a * a * p3);
    lemma_cong_mod(u + v);
}

/// The reduced polynomial at `y` is congruent to `P0(y) + alpha P1(y) + alpha^2 P2(y) +
/// alpha^3 P3(y)`.
proof fn lemma_reduced_sum(p: Seq<u128>, a: int, y: int)
    requires
        p.len() % 4 == 0,
    ensures
        cong(
            poly_sum(reduced(p, a), y),
            poly_sum(part(p, 0), y) + a * poly_sum(part(p, 1), y) + a * a * poly_sum(part(p, 2), y) + a
                * a * a * poly_sum(part(p, 3), y),
        ),
    decreases p.len(),
{
    if p.len() == 0 {
        assert(reduced(p, a).len() == 0);
        assert(part(p, 0).len() == 0);
        assert(part(p, 1).len() == 0);
        assert(part(p, 2).len() == 0);
        assert(part(p, 3).len() == 0);
        assert(a * 0 == 0 && a * a * 0 == 0 && a * a * a * 0 == 0) by (nonlinear_arith);
    } else {
        let rest = p.skip(4);
        lemma_reduced_sum(rest, a, y);
        lemma_part_tail(p, 0);
        lemma_part_tail(p, 1);
        lemma_part_tail(p, 2);
        lemma_part_tail(p, 3);
        let red = reduced(p, a);
        assert(red.drop_first() =~= reduced(rest, a));
        assert(4 * 0int == 0int);
        let r0 = red[0] as int;
        let c0 = p[0] as int;
        let c1 = p[1] as int;
        let c2 = p[2] as int;
        let c3 = p[3] as int;
        lemma_reduced_head(c0, c1, c2, c3, a);
        let h = f_add(f_add(c0, f_mul(c1, a)), f_add(f_mul(c2, f_exp(a, 2)), f_mul(c3, f_exp(a, 3))));
        assert(0 <= h < m());
        assert(r0 == h);
        let rr = poly_sum(reduced(rest, a), y);
        let b0 = poly_sum(part(rest, 0), y);
        let b1 = poly_sum(part(rest, 1), y);
        let b2 = poly_sum(part(rest, 2), y);
        let b3 = poly_sum(part(rest, 3), y);
        let lin = b0 + a * b1 + a * a * b2 + a * a * a * b3;
        lemma_cong_mul(rr, lin, y);
        lemma_cong_add(r0, c0 + a * c1 + a * a * c2 + a * a * a * c3, y * rr, y * lin);
        assert(poly_sum(red, y) == r0 + y * rr);
        assert((c0 + a * c1 + a * a * c2 + a * a * a * c3) + y * lin == (c0 + y * b0) + a * (c1 + y
            * b1) + a * a * (c2 + y * b2) + a * a * a * (c3 + y * b3)) by (nonlinear_arith)
            requires
                lin == b0 + a * b1 + a * a * b2 + a * a * a * b3,
        ;
    }
}

/// Folding with `alpha` evaluates the cubic of a row at `alpha`: the cubic of the parts of `p`
/// at `y`, evaluated at `alpha`, is the value at `y` of the reduced polynomial, whose coefficient
/// `j` is `p[4j] + p[4j+1] alpha + p[4j+2] alpha^2 + p[4j+3] alpha^3`. With
/// [lemma_split_at_fourth_power], this says that the four values of `P` on the points of a row
/// (the points whose fourth power is `y`) are those of one cubic, whose value at `alpha` is the
/// reduced polynomial's value at `y`: a polynomial with a quarter of the coefficients.
pub proof fn lemma_cubic_at_alpha(p: Seq<u128>, alpha: int, y: int)
    requires
        p.len() % 4 == 0,
    ensures
        poly_eval(row_cubic(p, y), alpha) == poly_eval(reduced(p, alpha), y),
        reduced(p, alpha).len() == p.len() / 4,
{
    let a = alpha;
    let c = row_cubic(p, y);
    lemma_reduced_sum(p, a, y);
    let c0 = c[0] as int;
    let c1 = c[1] as int;
    let c2 = c[2] as int;
    let c3 = c[3] as int;
    let d3 = c.drop_first().drop_first().drop_first();
    assert(d3[0] == c[3]);
    assert(d3.drop_first() =~= Seq::<u128>::empty());
    assert(poly_sum(d3.drop_first(), a) == 0);
    assert(poly_sum(d3, a) == c3 + a * 0);
    assert(poly_sum(c.drop_first().drop_first(), a) == c2 + a * poly_sum(d3, a));
    assert(poly_sum(c.drop_first(), a) == c1 + a * poly_sum(c.drop_first().drop_first(), a));
    assert(poly_sum(c, a) == c0 + a * poly_sum(c.drop_first(), a));
    assert(poly_sum(c, a) == c0 + a * c1 + a * a * c2 + a * a * a * c3) by (nonlinear_arith)
        requires
            poly_sum(c, a) == c0 + a * (c1 + a * (c2 + a * (c3 + a * 0))),
    ;
    let b = Seq::new(4, |r: int| poly_sum(part(p, r), y));
    assert forall|r: int| 0 <= r < 4 implies cong(#[trigger] c[r] as int, b[r]) by {
        lemma_cong_mod(b[r]);
    }
    lemma_cong_mul(c1, b[1], a);
    lemma_cong_mul(c2, b[2], a * a);
    lemma_cong_mul(c3, b[3], a * a * a);
    lemma_cong_add(c0, b[0], a * c1, a * b[1]);
    lemma_cong_add(c0 + a * c1, b[0] + a * b[1], a * a * c2, a * a * b[2]);
    lemma_cong_add(c0 + a * c1 + a * a * c2, b[0] + a * b[1] + a * a * b[2], a * a * a * c3, a * a * a * b[3]);
}

// FOLDING A ROW
// ================================================================================================

/// The FRI folding law: folding with `alpha` the values of a polynomial `P` on the four points of
/// a row (points whose fourth power is `y` and whose differences have inverses, as those of
/// distinct points of a prime field do) gives the value at `y` of the polynomial whose
/// coefficient `j` is `p[4j] + p[4j+1] alpha + p[4j+2] alpha^2 + p[4j+3] alpha^3`: a polynomial
/// with a quarter of the coefficients of `P`.
pub proof fn lemma_fold_row(p: Seq<u128>, xs: Seq<u128>, values: Seq<u128>, alpha: int, y: int)
    requires
        p.len() % 4 == 0,
        xs.len() == 4,
        values.len() == 4,
        invertible_differences(xs),
        forall|k: int| 0 <= k < 4 ==> f_exp(#[trigger] xs[k] as int, 4) == y,
        forall|k: int| 0 <= k < 4 ==> #[trigger] values[k] as int == poly_eval(p, xs[k] as int),
    ensures
        interpolant(xs, values, alpha) == poly_eval(reduced(p, alpha), y),
        reduced(p, alpha).len() == p.len() / 4,
{
    let cubic = row_cubic(p, y);
    assert forall|k: int| 0 <= k < xs.len() implies #[trigger] values[k] as int == poly_eval(
        cubic,
        xs[k] as int,
    ) by {
        lemma_split_at_fourth_power(p, xs[k] as int);
    }
    lemma_interpolant_is_the_polynomial(xs, values, cubic, alpha);
    lemma_cubic_at_alpha(p, alpha, y);
}

} // verus!
