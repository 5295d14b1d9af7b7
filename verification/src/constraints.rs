//! Evaluation of constraints at a step of the constraint evaluation domain: assertion
//! (boundary) constraints grouped by divisor, and the merging of transition constraint
//! evaluations into a single value.

use crate::field::{
    eval, field_add, field_exp, field_mul, field_sub, f_add, f_exp, f_mul, f_sub, is_element, m,
    poly_eval, ZERO,
};
use crate::field::{lemma_f_exp_add, lemma_f_mul_assoc, lemma_f_mul_one, poly_sum};
use crate::poly::all_elements;
use vstd::arithmetic::div_mod::{lemma_add_mod_noop, lemma_mod_twice, lemma_small_mod};
use vstd::prelude::*;

verus! {

/// Assertion polynomials of this degree or smaller (at most `SMALL_POLY_DEGREE + 1`
/// coefficients) are evaluated on the fly, while for larger polynomials all evaluations over the
/// constraint evaluation domain are computed in advance.
pub const SMALL_POLY_DEGREE: usize = 63;

/// Field addition is associative.
pub proof fn lemma_f_add_assoc(a: int, b: int, c: int)
    ensures
        f_add(f_add(a, b), c) == f_add(a, f_add(b, c)),
{
    lemma_add_mod_noop(a + b, c, m());
    lemma_add_mod_noop(a, b + c, m());
    lemma_mod_twice(a + b, m());
    lemma_mod_twice(b + c, m());
    lemma_add_mod_noop(a, b, m());
    lemma_add_mod_noop(b, c, m());
    assert(f_add(f_add(a, b), c) == (a + b + c) % m()) by {
        lemma_add_mod_noop(a + b, c, m());
        lemma_small_mod((c % m()) as nat, m() as nat);
        lemma_mod_twice(c, m());
    }
    assert(f_add(a, f_add(b, c)) == (a + b + c) % m()) by {
        lemma_add_mod_noop(a, b + c, m());
        lemma_mod_twice(a, m());
    }
}

/// The factor `c0 + c1 * xp` by which the numerator of an assertion constraint is multiplied.
pub open spec fn coefficient_factor(coefficients: (u128, u128), xp: int) -> int {
    f_add(coefficients.0 as int, f_mul(coefficients.1 as int, xp))
}

// CONSTRAINT SPECIALIZATIONS
// ================================================================================================

/// A constraint whose numerator is p(x) - v, where v is the asserted value and p(x) is the
/// trace polynomial of the register the constraint applies to.
#[derive(Debug)]
pub struct SingleValueConstraint {
    pub register: usize,
    pub value: u128,
    pub coefficients: (u128, u128),
}

impl SingleValueConstraint {
    pub open spec fn wf(&self) -> bool {
        is_element(self.value) && is_element(self.coefficients.0) && is_element(self.coefficients.1)
    }

    pub open spec fn spec_evaluate(&self, state: Seq<u128>, xp: int) -> int {
        f_mul(f_sub(state[self.register as int] as int, self.value as int), coefficient_factor(self.coefficients, xp))
    }

    pub fn evaluate(&self, state: &[u128], xp: u128) -> (r: u128)
        requires
            self.wf(),
            self.register < state@.len(),
            all_elements(state@),
            is_element(xp),
        ensures
            is_element(r),
            r == self.spec_evaluate(state@, xp as int),
    {
        let evaluation = field_sub(state[self.register], self.value);
        let t = field_mul(self.coefficients.1, xp);
        let f = field_add(self.coefficients.0, t);
        field_mul(evaluation, f)
    }
}

/// A constraint whose numerator is p(x) - c(x), where c(x) is a small polynomial describing a
/// set of asserted values; c(x) is evaluated on the fly at x * x_offset.
#[derive(Debug)]
pub struct SmallPolyConstraint {
    pub register: usize,
    pub poly: Vec<u128>,
    pub x_offset: u128,
    pub coefficients: (u128, u128),
}

impl SmallPolyConstraint {
    pub open spec fn wf(&self) -> bool {
        &&& all_elements(self.poly@)
        &&& is_element(self.x_offset)
        &&& is_element(self.coefficients.0)
        &&& is_element(self.coefficients.1)
    }

    pub open spec fn spec_evaluate(&self, state: Seq<u128>, x: int, xp: int) -> int {
        let assertion_value = poly_eval(self.poly@, f_mul(x, self.x_offset as int));
        f_mul(f_sub(state[self.register as int] as int, assertion_value), coefficient_factor(self.coefficients, xp))
    }

    pub fn evaluate(&self, state: &[u128], x: u128, xp: u128) -> (r: u128)
        requires
            self.wf(),
            self.register < state@.len(),
            all_elements(state@),
            is_element(x),
            is_element(xp),
        ensures
            is_element(r),
            r == self.spec_evaluate(state@, x as int, xp as int),
    {
        let x = field_mul(x, self.x_offset);
        let assertion_value = eval(self.poly.as_slice(), x);
        let evaluation = field_sub(state[self.register], assertion_value);
        let t = field_mul(self.coefficients.1, xp);
        let f = field_add(self.coefficients.0, t);
        field_mul(evaluation, f)
    }
}

/// A constraint whose numerator is p(x) - c(x), where c(x) is a large polynomial whose
/// evaluations over the whole constraint evaluation domain are computed in advance.
#[derive(Debug)]
pub struct LargePolyConstraint {
    pub register: usize,
    pub values: Vec<u128>,
    pub step_offset: usize,
    pub coefficients: (u128, u128),
}

impl LargePolyConstraint {
    pub open spec fn wf(&self) -> bool {
        &&& all_elements(self.values@)
        &&& is_element(self.coefficients.0)
        &&& is_element(self.coefficients.1)
    }

    /// Index of the precomputed value for step `ce_step`: `(ce_step - step_offset) mod n` when
    /// the offset is positive (for steps before the offset, only when `ce_step` is below the
    /// number `n` of values).
    pub open spec fn value_index(&self, ce_step: int) -> int {
        if self.step_offset > 0 {
            if self.step_offset > ce_step {
                self.values@.len() + ce_step - self.step_offset
            } else {
                ce_step - self.step_offset
            }
        } else {
            ce_step
        }
    }

    pub open spec fn spec_evaluate(&self, state: Seq<u128>, ce_step: int, xp: int) -> int {
        let value = self.values@[self.value_index(ce_step)];
        f_mul(f_sub(state[self.register as int] as int, value as int), coefficient_factor(self.coefficients, xp))
    }

    pub fn evaluate(&self, state: &[u128], ce_step: usize, xp: u128) -> (r: u128)
        requires
            self.wf(),
            self.register < state@.len(),
            all_elements(state@),
            is_element(xp),
            0 <= self.value_index(ce_step as int) < self.values@.len(),
        ensures
            is_element(r),
            r == self.spec_evaluate(state@, ce_step as int, xp as int),
    {
        let value_index = if self.step_offset > 0 {
            if self.step_offset > ce_step {
                self.values.len() - (self.step_offset - ce_step)
            } else {
                ce_step - self.step_offset
            }
        } else {
            ce_step
        };
        let evaluation = field_sub(state[self.register], self.values[value_index]);
        let t = field_mul(self.coefficients.1, xp);
        let f = field_add(self.coefficients.0, t);
        field_mul(evaluation, f)
    }
}

// ASSERTION CONSTRAINT GROUP
// ================================================================================================

/// Description of an assertion constraint: the register it applies to, the polynomial of the
/// asserted values, the offset of the first asserted step (as a step and as a domain value),
/// and the pair of random coefficients of its linear combination.
#[derive(Debug)]
pub struct AssertionConstraint {
    pub register: usize,
    pub poly: Vec<u128>,
    pub x_offset: u128,
    pub step_offset: usize,
    pub cc: (u128, u128),
}

/// Constraints that all have the same divisor, separated into single value constraints, small
/// polynomial constraints and large polynomial constraints.
pub struct AssertionConstraintGroup {
    degree_adjustment: u32,
    single_value_constraints: Vec<SingleValueConstraint>,
    small_poly_constraints: Vec<SmallPolyConstraint>,
    large_poly_constraints: Vec<LargePolyConstraint>,
}

/// Abstract single value constraint: register, asserted value, coefficients.
pub open spec fn single_view(c: SingleValueConstraint) -> (usize, u128, (u128, u128)) {
    (c.register, c.value, c.coefficients)
}

/// Abstract small polynomial constraint: register, polynomial, x offset, coefficients.
pub open spec fn small_view(c: SmallPolyConstraint) -> (usize, Seq<u128>, u128, (u128, u128)) {
    (c.register, c.poly@, c.x_offset, c.coefficients)
}

/// Abstract large polynomial constraint: register, values, step offset, coefficients.
pub open spec fn large_view(c: LargePolyConstraint) -> (usize, Seq<u128>, usize, (u128, u128)) {
    (c.register, c.values@, c.step_offset, c.coefficients)
}

/// The single value constraints a list of assertion constraints gives: those asserting one
/// value, in order.
pub open spec fn singles_of(cs: Seq<AssertionConstraint>) -> Seq<(usize, u128, (u128, u128))>
    decreases cs.len(),
{
    if cs.len() == 0 {
        Seq::empty()
    } else if cs.last().poly@.len() == 1 {
        singles_of(cs.drop_last()).push((cs.last().register, cs.last().poly@[0], cs.last().cc))
    } else {
        singles_of(cs.drop_last())
    }
}

/// The small polynomial constraints a list of assertion constraints gives: those with a
/// polynomial of 2 to `SMALL_POLY_DEGREE + 1` coefficients (degree 1 to `SMALL_POLY_DEGREE`), in
/// order.
pub open spec fn smalls_of(cs: Seq<AssertionConstraint>) -> Seq<(usize, Seq<u128>, u128, (u128, u128))>
    decreases cs.len(),
{
    if cs.len() == 0 {
        Seq::empty()
    } else if 1 < cs.last().poly@.len() <= SMALL_POLY_DEGREE + 1 {
        smalls_of(cs.drop_last()).push((cs.last().register, cs.last().poly@, cs.last().x_offset, cs.last().cc))
    } else {
        smalls_of(cs.drop_last())
    }
}

/// Evaluations of `poly` at all points of `domain`.
pub open spec fn evaluations(poly: Seq<u128>, domain: Seq<u128>) -> Seq<u128> {
    Seq::new(domain.len(), |k: int| poly_eval(poly, domain[k] as int) as u128)
}

/// The large polynomial constraints a list of assertion constraints gives: those with a
/// polynomial of more than `SMALL_POLY_DEGREE + 1` coefficients, evaluated over `domain`, with step
/// offsets scaled by `ce_blowup`, in order.
pub open spec fn larges_of(cs: Seq<AssertionConstraint>, domain: Seq<u128>, ce_blowup: int) -> Seq<
    (usize, Seq<u128>, usize, (u128, u128)),
>
    decreases cs.len(),
{
    if cs.len() == 0 {
        Seq::empty()
    } else if cs.last().poly@.len() > SMALL_POLY_DEGREE + 1 {
        larges_of(cs.drop_last(), domain, ce_blowup).push(
            (
                cs.last().register,
                evaluations(cs.last().poly@, domain),
                (cs.last().step_offset * ce_blowup) as usize,
                cs.last().cc,
            ),
        )
    } else {
        larges_of(cs.drop_last(), domain, ce_blowup)
    }
}

pub open spec fn sum_single(cs: Seq<SingleValueConstraint>, state: Seq<u128>, xp: int) -> int
    decreases cs.len(),
{
    if cs.len() == 0 {
        0
    } else {
        f_add(sum_single(cs.drop_last(), state, xp), cs.last().spec_evaluate(state, xp))
    }
}

pub open spec fn sum_small(cs: Seq<SmallPolyConstraint>, state: Seq<u128>, x: int, xp: int) -> int
    decreases cs.len(),
{
    if cs.len() == 0 {
        0
    } else {
        f_add(sum_small(cs.drop_last(), state, x, xp), cs.last().spec_evaluate(state, x, xp))
    }
}

pub open spec fn sum_large(cs: Seq<LargePolyConstraint>, state: Seq<u128>, ce_step: int, xp: int) -> int
    decreases cs.len(),
{
    if cs.len() == 0 {
        0
    } else {
        f_add(sum_large(cs.drop_last(), state, ce_step, xp), cs.last().spec_evaluate(state, ce_step, xp))
    }
}

/// Well-formed assertion constraint descriptions.
pub open spec fn constraints_ok(cs: Seq<AssertionConstraint>, ce_blowup: int) -> bool {
    forall|i: int| 0 <= i < cs.len() ==> {
        let c = #[trigger] cs[i];
        &&& c.poly@.len() > 0
        &&& all_elements(c.poly@)
        &&& is_element(c.x_offset)
        &&& is_element(c.cc.0)
        &&& is_element(c.cc.1)
        &&& c.step_offset * ce_blowup <= usize::MAX
    }
}

fn copy_values(v: &Vec<u128>) -> (r: Vec<u128>)
    ensures
        r@ == v@,
{
    let mut r: Vec<u128> = Vec::new();
    let mut i: usize = 0;
    while i < v.len()
        invariant
            i <= v@.len(),
            r@ == v@.subrange(0, i as int),
        decreases v.len() - i,
    {
        r.push(v[i]);
        i = i + 1;
        assert(r@ =~= v@.subrange(0, i as int));
    }
    assert(v@.subrange(0, i as int) =~= v@);
    r
}

impl AssertionConstraintGroup {
    pub closed spec fn spec_degree_adjustment(&self) -> u32 {
        self.degree_adjustment
    }

    /// Degree by which evaluations of this group are adjusted (the power of x they are
    /// multiplied by).
    pub fn degree_adjustment(&self) -> (r: u32)
        ensures
            r == self.spec_degree_adjustment(),
    {
        self.degree_adjustment
    }

    pub closed spec fn singles(&self) -> Seq<SingleValueConstraint> {
        self.single_value_constraints@
    }

    pub closed spec fn smalls(&self) -> Seq<SmallPolyConstraint> {
        self.small_poly_constraints@
    }

    pub closed spec fn larges(&self) -> Seq<LargePolyConstraint> {
        self.large_poly_constraints@
    }

    /// All constraints are well formed and apply to registers below `width`.
    pub open spec fn wf(&self, width: nat) -> bool {
        &&& forall|i: int| 0 <= i < self.singles().len() ==> (#[trigger] self.singles()[i]).wf()
            && self.singles()[i].register < width
        &&& forall|i: int| 0 <= i < self.smalls().len() ==> (#[trigger] self.smalls()[i]).wf()
            && self.smalls()[i].register < width
        &&& forall|i: int| 0 <= i < self.larges().len() ==> (#[trigger] self.larges()[i]).wf()
            && self.larges()[i].register < width
    }

    /// The large polynomial constraints can be evaluated at `ce_step`.
    pub open spec fn step_ok(&self, ce_step: int) -> bool {
        forall|i: int| 0 <= i < self.larges().len() ==> 0 <= (#[trigger] self.larges()[i]).value_index(ce_step)
            < self.larges()[i].values@.len()
    }

    /// Sum of all constraint evaluations of the group at a step.
    pub open spec fn spec_evaluate(&self, state: Seq<u128>, ce_step: int, x: int, xp: int) -> int {
        f_add(
            f_add(sum_single(self.singles(), state, xp), sum_small(self.smalls(), state, x, xp)),
            sum_large(self.larges(), state, ce_step, xp),
        )
    }

    /// Builds a group from assertion constraints: constraints with a single asserted value
    /// become single value constraints, polynomials of degree at most `SMALL_POLY_DEGREE` small
    /// polynomial constraints, and larger polynomials are evaluated over the
    /// points of the constraint evaluation domain `ce_domain`; their step offsets are scaled by
    /// `ce_blowup_factor`.
    pub fn new(
        degree_adjustment: u32,
        constraints: Vec<AssertionConstraint>,
        ce_domain: &[u128],
        ce_blowup_factor: usize,
    ) -> (r: AssertionConstraintGroup)
        requires
            all_elements(ce_domain@),
            constraints_ok(constraints@, ce_blowup_factor as int),
        ensures
            r.spec_degree_adjustment() == degree_adjustment,
            r.singles().map_values(|c: SingleValueConstraint| single_view(c)) == singles_of(constraints@),
            r.smalls().map_values(|c: SmallPolyConstraint| small_view(c)) == smalls_of(constraints@),
            r.larges().map_values(|c: LargePolyConstraint| large_view(c)) == larges_of(
                constraints@,
                ce_domain@,
                ce_blowup_factor as int,
            ),
            forall|i: int| 0 <= i < r.singles().len() ==> (#[trigger] r.singles()[i]).wf(),
            forall|i: int| 0 <= i < r.smalls().len() ==> (#[trigger] r.smalls()[i]).wf(),
            forall|i: int| 0 <= i < r.larges().len() ==> (#[trigger] r.larges()[i]).wf(),
    {
        let mut result = AssertionConstraintGroup {
            degree_adjustment,
            single_value_constraints: Vec::new(),
            small_poly_constraints: Vec::new(),
            large_poly_constraints: Vec::new(),
        };
        let mut i: usize = 0;
        proof {
            assert(constraints@.take(0) =~= Seq::<AssertionConstraint>::empty());
            assert(result.singles().map_values(|c: SingleValueConstraint| single_view(c)) =~= Seq::<
                (usize, u128, (u128, u128)),
            >::empty());
            assert(result.smalls().map_values(|c: SmallPolyConstraint| small_view(c)) =~= Seq::<
                (usize, Seq<u128>, u128, (u128, u128)),
            >::empty());
            assert(result.larges().map_values(|c: LargePolyConstraint| large_view(c)) =~= Seq::<
                (usize, Seq<u128>, usize, (u128, u128)),
            >::empty());
        }
        while i < constraints.len()
            invariant
                i <= constraints@.len(),
                result.degree_adjustment == degree_adjustment,
                all_elements(ce_domain@),
                constraints_ok(constraints@, ce_blowup_factor as int),
                result.singles().map_values(|c: SingleValueConstraint| single_view(c)) == singles_of(
                    constraints@.take(i as int),
                ),
                result.smalls().map_values(|c: SmallPolyConstraint| small_view(c)) == smalls_of(
                    constraints@.take(i as int),
                ),
                result.larges().map_values(|c: LargePolyConstraint| large_view(c)) == larges_of(
                    constraints@.take(i as int),
                    ce_domain@,
                    ce_blowup_factor as int,
                ),
                forall|k: int| 0 <= k < result.singles().len() ==> (#[trigger] result.singles()[k]).wf(),
                forall|k: int| 0 <= k < result.smalls().len() ==> (#[trigger] result.smalls()[k]).wf(),
                forall|k: int| 0 <= k < result.larges().len() ==> (#[trigger] result.larges()[k]).wf(),
            decreases constraints.len() - i,
        {
            let constraint = &constraints[i];
            let ghost s0 = result.singles();
            let ghost m0 = result.smalls();
            let ghost l0 = result.larges();
            let ghost prefix = constraints@.take(i + 1);
            proof {
                assert(prefix.drop_last() =~= constraints@.take(i as int));
                assert(prefix.last() == constraints@[i as int]);
                assert(constraints_ok(constraints@, ce_blowup_factor as int));
                let c = constraints@[i as int];
                assert(c.poly@.len() > 0);
            }
            if constraint.poly.len() == 1 {
                let c = SingleValueConstraint {
                    register: constraint.register,
                    value: constraint.poly[0],
                    coefficients: constraint.cc,
                };
                result.single_value_constraints.push(c);
                proof {
                    assert(result.singles() == s0.push(c));
                    assert(result.singles().map_values(|c: SingleValueConstraint| single_view(c)) =~= s0.map_values(
                        |c: SingleValueConstraint| single_view(c),
                    ).push(single_view(c)));
                }
            } else if constraint.poly.len() <= SMALL_POLY_DEGREE + 1 {
                let c = SmallPolyConstraint {
                    register: constraint.register,
                    poly: copy_values(&constraint.poly),
                    x_offset: constraint.x_offset,
                    coefficients: constraint.cc,
                };
                result.small_poly_constraints.push(c);
                proof {
                    assert(result.smalls() == m0.push(c));
                    assert(result.smalls().map_values(|c: SmallPolyConstraint| small_view(c)) =~= m0.map_values(
                        |c: SmallPolyConstraint| small_view(c),
                    ).push(small_view(c)));
                }
            } else {
                let mut values: Vec<u128> = Vec::new();
                let mut k: usize = 0;
                while k < ce_domain.len()
                    invariant
                        k <= ce_domain@.len(),
                        all_elements(ce_domain@),
                        all_elements(constraint.poly@),
                        values@.len() == k,
                        all_elements(values@),
                        forall|k2: int| 0 <= k2 < k ==> values@[k2] == #[trigger] evaluations(constraint.poly@, ce_domain@)[k2],
                    decreases ce_domain.len() - k,
                {
                    let v = eval(constraint.poly.as_slice(), ce_domain[k]);
                    values.push(v);
                    k = k + 1;
                }
                assert(values@ =~= evaluations(constraint.poly@, ce_domain@));
                let c = LargePolyConstraint {
                    register: constraint.register,
                    values,
                    step_offset: constraint.step_offset * ce_blowup_factor,
                    coefficients: constraint.cc,
                };
                result.large_poly_constraints.push(c);
                proof {
                    assert(result.larges() == l0.push(c));
                    assert(result.larges().map_values(|c: LargePolyConstraint| large_view(c)) =~= l0.map_values(
                        |c: LargePolyConstraint| large_view(c),
                    ).push(large_view(c)));
                }
            }
            i = i + 1;
        }
        assert(constraints@.take(i as int) =~= constraints@);
        result
    }

    /// Evaluates the constraints of this group at step `ce_step` of the constraint evaluation
    /// domain, where the domain value is `x` and `xp` is `x` raised to the degree adjustment.
    pub fn evaluate(&self, state: &[u128], ce_step: usize, x: u128, xp: u128) -> (r: u128)
        requires
            self.wf(state@.len()),
            self.step_ok(ce_step as int),
            all_elements(state@),
            is_element(x),
            is_element(xp),
        ensures
            is_element(r),
            r == self.spec_evaluate(state@, ce_step as int, x as int, xp as int),
    {
        let mut singles: u128 = ZERO;
        let mut i: usize = 0;
        assert(self.singles().take(0) =~= Seq::<SingleValueConstraint>::empty());
        while i < self.single_value_constraints.len()
            invariant
                i <= self.singles().len(),
                self.wf(state@.len()),
                all_elements(state@),
                is_element(xp),
                is_element(singles),
                singles == sum_single(self.singles().take(i as int), state@, xp as int),
            decreases self.singles().len() - i,
        {
            let e = self.single_value_constraints[i].evaluate(state, xp);
            proof {
                assert(self.singles().take(i + 1).drop_last() =~= self.singles().take(i as int));
            }
            singles = field_add(singles, e);
            i = i + 1;
        }
        assert(self.singles().take(i as int) =~= self.singles());
        let mut smalls: u128 = ZERO;
        let mut i: usize = 0;
        assert(self.smalls().take(0) =~= Seq::<SmallPolyConstraint>::empty());
        while i < self.small_poly_constraints.len()
            invariant
                i <= self.smalls().len(),
                self.wf(state@.len()),
                all_elements(state@),
                is_element(x),
                is_element(xp),
                is_element(smalls),
                smalls == sum_small(self.smalls().take(i as int), state@, x as int, xp as int),
            decreases self.smalls().len() - i,
        {
            let e = self.small_poly_constraints[i].evaluate(state, x, xp);
            proof {
                assert(self.smalls().take(i + 1).drop_last() =~= self.smalls().take(i as int));
            }
            smalls = field_add(smalls, e);
            i = i + 1;
        }
        assert(self.smalls().take(i as int) =~= self.smalls());
        let mut larges: u128 = ZERO;
        let mut i: usize = 0;
        assert(self.larges().take(0) =~= Seq::<LargePolyConstraint>::empty());
        while i < self.large_poly_constraints.len()
            invariant
                i <= self.larges().len(),
                self.wf(state@.len()),
                self.step_ok(ce_step as int),
                all_elements(state@),
                is_element(xp),
                is_element(larges),
                larges == sum_large(self.larges().take(i as int), state@, ce_step as int, xp as int),
            decreases self.larges().len() - i,
        {
            let e = self.large_poly_constraints[i].evaluate(state, ce_step, xp);
            proof {
                assert(self.larges().take(i + 1).drop_last() =~= self.larges().take(i as int));
            }
            larges = field_add(larges, e);
            i = i + 1;
        }
        assert(self.larges().take(i as int) =~= self.larges());
        let t = field_add(singles, smalls);
        field_add(t, larges)
    }
}

/// Evaluates all assertion constraint groups at step `step` of the constraint evaluation domain,
/// where the domain value is `x`; each group's evaluation is adjusted by `x` raised to the
/// group's degree adjustment (recomputed only when the adjustment changes between groups).
pub fn evaluate_assertions(groups: &[AssertionConstraintGroup], state: &[u128], x: u128, step: usize) -> (r:
    Vec<u128>)
    requires
        groups@.len() > 0,
        forall|i: int| 0 <= i < groups@.len() ==> (#[trigger] groups@[i]).wf(state@.len()) && groups@[i].step_ok(step as int),
        all_elements(state@),
        is_element(x),
    ensures
        r@.len() == groups@.len(),
        all_elements(r@),
        forall|i: int| 0 <= i < groups@.len() ==> #[trigger] r@[i] == groups@[i].spec_evaluate(
            state@,
            step as int,
            x as int,
            f_exp(x as int, groups@[i].spec_degree_adjustment() as nat),
        ),
{
    let mut degree_adjustment = groups[0].degree_adjustment();
    let mut xp = field_exp(x, degree_adjustment as u128);
    let mut result: Vec<u128> = Vec::new();
    let mut i: usize = 0;
    while i < groups.len()
        invariant
            i <= groups@.len(),
            forall|j: int| 0 <= j < groups@.len() ==> (#[trigger] groups@[j]).wf(state@.len()) && groups@[j].step_ok(step as int),
            all_elements(state@),
            is_element(x),
            is_element(xp),
            xp == f_exp(x as int, degree_adjustment as nat),
            result@.len() == i,
            all_elements(result@),
            forall|j: int| 0 <= j < i ==> #[trigger] result@[j] == groups@[j].spec_evaluate(
                state@,
                step as int,
                x as int,
                f_exp(x as int, groups@[j].spec_degree_adjustment() as nat),
            ),
        decreases groups.len() - i,
    {
        let group = &groups[i];
        if group.degree_adjustment() != degree_adjustment {
            degree_adjustment = group.degree_adjustment();
            xp = field_exp(x, degree_adjustment as u128);
        }
        let e = group.evaluate(state, step, x, xp);
        result.push(e);
        i = i + 1;
    }
    result
}

// STORAGE OF CONSTRAINTS
// ================================================================================================

/// A single value constraint contributes what the same assertion gives as a polynomial with one
/// coefficient evaluated on the fly, at every domain point.
pub proof fn lemma_single_matches_on_the_fly(
    single: SingleValueConstraint,
    small: SmallPolyConstraint,
    state: Seq<u128>,
    x: int,
    xp: int,
)
    requires
        single.wf(),
        small.register == single.register,
        small.coefficients == single.coefficients,
        small.poly@ == seq![single.value],
    ensures
        single.spec_evaluate(state, xp) == small.spec_evaluate(state, x, xp),
{
    let p = small.poly@;
    let y = f_mul(x, small.x_offset as int);
    assert(p.drop_first() =~= Seq::<u128>::empty());
    assert(poly_sum(p.drop_first(), y) == 0);
    assert(y * 0 == 0);
    assert(poly_sum(p, y) == single.value as int);
    lemma_small_mod(single.value as nat, m() as nat);
}

/// A constraint whose polynomial is evaluated in advance over the constraint evaluation domain
/// `offset * g^k` (for `k` below the domain size `n`, with `g^n == 1`) contributes at every step
/// what the same constraint gives when its polynomial is evaluated on the fly at `x * x_offset`,
/// `x` being the domain point of the step, whenever the x offset undoes the step offset
/// (`x_offset * g^step_offset == 1`).
pub proof fn lemma_precomputed_matches_on_the_fly(
    large: LargePolyConstraint,
    small: SmallPolyConstraint,
    domain: Seq<u128>,
    offset: int,
    g: int,
    state: Seq<u128>,
    ce_step: int,
    xp: int,
)
    requires
        large.register == small.register,
        large.coefficients == small.coefficients,
        large.values@ == evaluations(small.poly@, domain),
        forall|k: int| 0 <= k < domain.len() ==> #[trigger] domain[k] == f_mul(offset, f_exp(g, k as nat)),
        f_exp(g, domain.len()) == 1,
        f_mul(small.x_offset as int, f_exp(g, large.step_offset as nat)) == 1,
        large.step_offset <= domain.len(),
        0 <= ce_step < domain.len(),
    ensures
        0 <= large.value_index(ce_step) < large.values@.len(),
        large.spec_evaluate(state, ce_step, xp) == small.spec_evaluate(state, domain[ce_step] as int, xp),
{
    let j = large.value_index(ce_step);
    lemma_shifted_point(domain, offset, g, large.step_offset as int, small.x_offset as int, ce_step);
    assert(j == shifted_index(domain.len() as int, large.step_offset as int, ce_step));
    let v = poly_eval(small.poly@, domain[j] as int);
    assert(0 <= v < m());
    assert(large.values@[j] == v as u128);
}

/// Index of the value precomputed for step `ce_step` in a list of `len` values shifted by
/// `step_offset`: `(ce_step - step_offset) mod len`.
pub open spec fn shifted_index(len: int, step_offset: int, ce_step: int) -> int {
    if step_offset > 0 {
        if step_offset > ce_step {
            len + ce_step - step_offset
        } else {
            ce_step - step_offset
        }
    } else {
        ce_step
    }
}

/// On the domain `offset * g^k` with `g^len == 1`, the point of step `ce_step` times an x
/// offset that undoes `step_offset` is the point at the shifted index.
proof fn lemma_shifted_point(domain: Seq<u128>, offset: int, g: int, so: int, xo: int, ce_step: int)
    requires
        forall|k: int| 0 <= k < domain.len() ==> #[trigger] domain[k] == f_mul(offset, f_exp(g, k as nat)),
        f_exp(g, domain.len()) == 1,
        f_mul(xo, f_exp(g, so as nat)) == 1,
        0 <= so <= domain.len(),
        0 <= ce_step < domain.len(),
    ensures
        0 <= shifted_index(domain.len() as int, so, ce_step) < domain.len(),
        f_mul(domain[ce_step] as int, xo) == domain[shifted_index(domain.len() as int, so, ce_step)] as int,
{
    let n = domain.len() as int;
    let j = shifted_index(n, so, ce_step);
    let gc = f_exp(g, ce_step as nat);
    let gj = f_exp(g, j as nat);
    let gs = f_exp(g, so as nat);
    assert(0 <= j < n);
    // g^ce_step == g^j * g^so
    if so <= ce_step {
        lemma_f_exp_add(g, j as nat, so as nat);
        assert((j + so) as nat == ce_step as nat);
    } else {
        lemma_f_exp_add(g, j as nat, so as nat);
        assert((j + so) as nat == (n + ce_step) as nat);
        lemma_f_exp_add(g, n as nat, ce_step as nat);
        assert(0 <= gc < m());
        lemma_f_mul_one(gc);
    }
    assert(gc == f_mul(gj, gs));
    // domain[ce_step] * x_offset == offset * g^j == domain[j]
    lemma_f_mul_assoc(offset, gc, xo);
    lemma_f_mul_assoc(gj, gs, xo);
    lemma_f_mul_assoc(gs, xo, 0);
    lemma_f_mul_assoc(xo, gs, 0);
    assert(0 <= gj < m());
    lemma_f_mul_one(gj);
}

// GROUP EVALUATION
// ================================================================================================

/// What an assertion constraint contributes at domain point `x` when its polynomial is evaluated
/// on the fly: `(state[register] - c(x * x_offset)) * (cc.0 + cc.1 * xp)`.
pub open spec fn on_the_fly(c: AssertionConstraint, state: Seq<u128>, x: int, xp: int) -> int {
    f_mul(
        f_sub(state[c.register as int] as int, poly_eval(c.poly@, f_mul(x, c.x_offset as int))),
        coefficient_factor(c.cc, xp),
    )
}

/// Sum of the contributions of all constraints evaluated on the fly.
pub open spec fn sum_on_the_fly(cs: Seq<AssertionConstraint>, state: Seq<u128>, x: int, xp: int) -> int
    decreases cs.len(),
{
    if cs.len() == 0 {
        0
    } else {
        f_add(sum_on_the_fly(cs.drop_last(), state, x, xp), on_the_fly(cs.last(), state, x, xp))
    }
}

/// Sum of the contributions of single value constraints, given by their views.
pub open spec fn sum_single_views(vs: Seq<(usize, u128, (u128, u128))>, state: Seq<u128>, xp: int) -> int
    decreases vs.len(),
{
    if vs.len() == 0 {
        0
    } else {
        let v = vs.last();
        f_add(
            sum_single_views(vs.drop_last(), state, xp),
            f_mul(f_sub(state[v.0 as int] as int, v.1 as int), coefficient_factor(v.2, xp)),
        )
    }
}

/// Sum of the contributions of small polynomial constraints, given by their views.
pub open spec fn sum_small_views(
    vs: Seq<(usize, Seq<u128>, u128, (u128, u128))>,
    state: Seq<u128>,
    x: int,
    xp: int,
) -> int
    decreases vs.len(),
{
    if vs.len() == 0 {
        0
    } else {
        let v = vs.last();
        f_add(
            sum_small_views(vs.drop_last(), state, x, xp),
            f_mul(
                f_sub(state[v.0 as int] as int, poly_eval(v.1, f_mul(x, v.2 as int))),
                coefficient_factor(v.3, xp),
            ),
        )
    }
}

/// Sum of the contributions of large polynomial constraints, given by their views.
pub open spec fn sum_large_views(
    vs: Seq<(usize, Seq<u128>, usize, (u128, u128))>,
    state: Seq<u128>,
    ce_step: int,
    xp: int,
) -> int
    decreases vs.len(),
{
    if vs.len() == 0 {
        0
    } else {
        let v = vs.last();
        let value = v.1[shifted_index(v.1.len() as int, v.2 as int, ce_step)];
        f_add(
            sum_large_views(vs.drop_last(), state, ce_step, xp),
            f_mul(f_sub(state[v.0 as int] as int, value as int), coefficient_factor(v.3, xp)),
        )
    }
}

proof fn lemma_sum_single_views(cs: Seq<SingleValueConstraint>, state: Seq<u128>, xp: int)
    ensures
        sum_single(cs, state, xp) == sum_single_views(
            cs.map_values(|c: SingleValueConstraint| single_view(c)),
            state,
            xp,
        ),
    decreases cs.len(),
{
    if cs.len() > 0 {
        lemma_sum_single_views(cs.drop_last(), state, xp);
        assert(cs.map_values(|c: SingleValueConstraint| single_view(c)).drop_last() =~= cs.drop_last().map_values(
            |c: SingleValueConstraint| single_view(c),
        ));
    }
}

proof fn lemma_sum_small_views(cs: Seq<SmallPolyConstraint>, state: Seq<u128>, x: int, xp: int)
    ensures
        sum_small(cs, state, x, xp) == sum_small_views(
            cs.map_values(|c: SmallPolyConstraint| small_view(c)),
            state,
            x,
            xp,
        ),
    decreases cs.len(),
{
    if cs.len() > 0 {
        lemma_sum_small_views(cs.drop_last(), state, x, xp);
        assert(cs.map_values(|c: SmallPolyConstraint| small_view(c)).drop_last() =~= cs.drop_last().map_values(
            |c: SmallPolyConstraint| small_view(c),
        ));
    }
}

proof fn lemma_sum_large_views(cs: Seq<LargePolyConstraint>, state: Seq<u128>, ce_step: int, xp: int)
    ensures
        sum_large(cs, state, ce_step, xp) == sum_large_views(
            cs.map_values(|c: LargePolyConstraint| large_view(c)),
            state,
            ce_step,
            xp,
        ),
    decreases cs.len(),
{
    if cs.len() > 0 {
        lemma_sum_large_views(cs.drop_last(), state, ce_step, xp);
        assert(cs.map_values(|c: LargePolyConstraint| large_view(c)).drop_last() =~= cs.drop_last().map_values(
            |c: LargePolyConstraint| large_view(c),
        ));
        let c = cs.last();
        assert(c.value_index(ce_step) == shifted_index(c.values@.len() as int, c.step_offset as int, ce_step));
    }
}

/// Adding four values in the field in any grouping gives their sum reduced.
proof fn lemma_f_add4(a: int, b: int, c: int, d: int)
    ensures
        f_add(f_add(f_add(a, b), c), d) == (a + b + c + d) % m(),
        f_add(f_add(a, b), c) == (a + b + c) % m(),
{
    lemma_add_mod_noop(a + b, c, m());
    lemma_mod_twice(a + b, m());
    lemma_mod_twice(c, m());
    lemma_add_mod_noop(a + b + c, d, m());
    lemma_mod_twice(a + b + c, m());
    lemma_mod_twice(d, m());
    lemma_add_mod_noop((a + b) % m(), c, m());
    lemma_add_mod_noop((a + b + c) % m(), d, m());
}

proof fn lemma_single_step(
    cs: Seq<AssertionConstraint>,
    domain: Seq<u128>,
    ce_blowup: int,
    state: Seq<u128>,
    x: int,
    xp: int,
)
    requires
        cs.len() > 0,
        cs.last().poly@.len() == 1,
        is_element(cs.last().poly@[0]),
    ensures
        sum_single_views(singles_of(cs), state, xp) == f_add(
            sum_single_views(singles_of(cs.drop_last()), state, xp),
            on_the_fly(cs.last(), state, x, xp),
        ),
        smalls_of(cs) == smalls_of(cs.drop_last()),
        larges_of(cs, domain, ce_blowup) == larges_of(cs.drop_last(), domain, ce_blowup),
{
    let c = cs.last();
    let y = f_mul(x, c.x_offset as int);
    assert(c.poly@.drop_first() =~= Seq::<u128>::empty());
    assert(poly_sum(c.poly@.drop_first(), y) == 0);
    assert(y * 0 == 0);
    lemma_small_mod(c.poly@[0] as nat, m() as nat);
    let sv = singles_of(cs.drop_last()).push((c.register, c.poly@[0], c.cc));
    assert(singles_of(cs) == sv);
    assert(sv.drop_last() =~= singles_of(cs.drop_last()));
}

proof fn lemma_small_step(
    cs: Seq<AssertionConstraint>,
    domain: Seq<u128>,
    ce_blowup: int,
    state: Seq<u128>,
    x: int,
    xp: int,
)
    requires
        cs.len() > 0,
        1 < cs.last().poly@.len() <= SMALL_POLY_DEGREE + 1,
    ensures
        sum_small_views(smalls_of(cs), state, x, xp) == f_add(
            sum_small_views(smalls_of(cs.drop_last()), state, x, xp),
            on_the_fly(cs.last(), state, x, xp),
        ),
        singles_of(cs) == singles_of(cs.drop_last()),
        larges_of(cs, domain, ce_blowup) == larges_of(cs.drop_last(), domain, ce_blowup),
{
    let c = cs.last();
    let mv = smalls_of(cs.drop_last()).push((c.register, c.poly@, c.x_offset, c.cc));
    assert(smalls_of(cs) == mv);
    assert(mv.drop_last() =~= smalls_of(cs.drop_last()));
}

proof fn lemma_large_step(
    cs: Seq<AssertionConstraint>,
    domain: Seq<u128>,
    offset: int,
    g: int,
    ce_blowup: int,
    state: Seq<u128>,
    ce_step: int,
    xp: int,
)
    requires
        cs.len() > 0,
        cs.last().poly@.len() > SMALL_POLY_DEGREE + 1,
        0 <= cs.last().step_offset * ce_blowup <= domain.len(),
        cs.last().step_offset * ce_blowup <= usize::MAX,
        f_mul(cs.last().x_offset as int, f_exp(g, (cs.last().step_offset * ce_blowup) as nat)) == 1,
        forall|k: int| 0 <= k < domain.len() ==> #[trigger] domain[k] == f_mul(offset, f_exp(g, k as nat)),
        f_exp(g, domain.len()) == 1,
        0 <= ce_step < domain.len(),
    ensures
        sum_large_views(larges_of(cs, domain, ce_blowup), state, ce_step, xp) == f_add(
            sum_large_views(larges_of(cs.drop_last(), domain, ce_blowup), state, ce_step, xp),
            on_the_fly(cs.last(), state, domain[ce_step] as int, xp),
        ),
        singles_of(cs) == singles_of(cs.drop_last()),
        smalls_of(cs) == smalls_of(cs.drop_last()),
{
    let c = cs.last();
    let so = (c.step_offset * ce_blowup) as usize;
    assert(so as nat == (c.step_offset * ce_blowup) as nat);
    lemma_shifted_point(domain, offset, g, so as int, c.x_offset as int, ce_step);
    let vals = evaluations(c.poly@, domain);
    let j = shifted_index(domain.len() as int, so as int, ce_step);
    let v = poly_eval(c.poly@, domain[j] as int);
    assert(0 <= v < m());
    assert(vals[j] == v as u128);
    let lv = larges_of(cs.drop_last(), domain, ce_blowup).push((c.register, vals, so, c.cc));
    assert(larges_of(cs, domain, ce_blowup) == lv);
    assert(lv.drop_last() =~= larges_of(cs.drop_last(), domain, ce_blowup));
    assert(vals.len() == domain.len());
}

/// What the constraints require of each of them holds of those before the last, and of the
/// last one.
proof fn lemma_front_ok(cs: Seq<AssertionConstraint>, domain: Seq<u128>, g: int, ce_blowup: int)
    requires
        cs.len() > 0,
        ce_blowup >= 0,
        constraints_ok(cs, ce_blowup),
        forall|i: int|
            0 <= i < cs.len() && (#[trigger] cs[i]).poly@.len() > SMALL_POLY_DEGREE + 1 ==> f_mul(
                cs[i].x_offset as int,
                f_exp(g, (cs[i].step_offset * ce_blowup) as nat),
            ) == 1 && cs[i].step_offset * ce_blowup <= domain.len(),
    ensures
        constraints_ok(cs.drop_last(), ce_blowup),
        forall|i: int|
            0 <= i < cs.drop_last().len() && (#[trigger] cs.drop_last()[i]).poly@.len() > SMALL_POLY_DEGREE
                + 1 ==> f_mul(
                cs.drop_last()[i].x_offset as int,
                f_exp(g, (cs.drop_last()[i].step_offset * ce_blowup) as nat),
            ) == 1 && cs.drop_last()[i].step_offset * ce_blowup <= domain.len(),
        cs.last().poly@.len() > 0,
        cs.last().poly@.len() == 1 ==> is_element(cs.last().poly@[0]),
        cs.last().step_offset * ce_blowup >= 0,
        cs.last().step_offset * ce_blowup <= usize::MAX,
        cs.last().poly@.len() > SMALL_POLY_DEGREE + 1 ==> f_mul(
            cs.last().x_offset as int,
            f_exp(g, (cs.last().step_offset * ce_blowup) as nat),
        ) == 1 && cs.last().step_offset * ce_blowup <= domain.len(),
{
    let front = cs.drop_last();
    let i = cs.len() - 1;
    assert(cs[i] == cs.last());
    assert forall|k: int| 0 <= k < front.len() implies #[trigger] front[k] == cs[k] by {}
    assert(cs.last().step_offset * ce_blowup >= 0) by (nonlinear_arith)
        requires
            ce_blowup >= 0,
    ;
}

/// The three sums of a group built from `cs`, added up, are the sum of all contributions
/// evaluated on the fly.
proof fn lemma_split_sums(
    cs: Seq<AssertionConstraint>,
    domain: Seq<u128>,
    offset: int,
    g: int,
    ce_blowup: int,
    state: Seq<u128>,
    ce_step: int,
    xp: int,
)
    requires
        ce_blowup >= 0,
        constraints_ok(cs, ce_blowup),
        forall|k: int| 0 <= k < domain.len() ==> #[trigger] domain[k] == f_mul(offset, f_exp(g, k as nat)),
        f_exp(g, domain.len()) == 1,
        forall|i: int|
            0 <= i < cs.len() && (#[trigger] cs[i]).poly@.len() > SMALL_POLY_DEGREE + 1 ==> f_mul(
                cs[i].x_offset as int,
                f_exp(g, (cs[i].step_offset * ce_blowup) as nat),
            ) == 1 && cs[i].step_offset * ce_blowup <= domain.len(),
        0 <= ce_step < domain.len(),
    ensures
        f_add(
            f_add(
                sum_single_views(singles_of(cs), state, xp),
                sum_small_views(smalls_of(cs), state, domain[ce_step] as int, xp),
            ),
            sum_large_views(larges_of(cs, domain, ce_blowup), state, ce_step, xp),
        ) == sum_on_the_fly(cs, state, domain[ce_step] as int, xp),
    decreases cs.len(),
{
    let x = domain[ce_step] as int;
    if cs.len() == 0 {
        assert(f_add(0, 0) == 0);
    } else {
        let front = cs.drop_last();
        let c = cs.last();
        lemma_front_ok(cs, domain, g, ce_blowup);
        lemma_split_sums(front, domain, offset, g, ce_blowup, state, ce_step, xp);
        let s0 = sum_single_views(singles_of(front), state, xp);
        let m0 = sum_small_views(smalls_of(front), state, x, xp);
        let l0 = sum_large_views(larges_of(front, domain, ce_blowup), state, ce_step, xp);
        let t = on_the_fly(c, state, x, xp);
        let front_sum = sum_on_the_fly(front, state, x, xp);
        let total = sum_on_the_fly(cs, state, x, xp);
        assert(total == f_add(front_sum, t));
        let ss = sum_single_views(singles_of(cs), state, xp);
        let ms = sum_small_views(smalls_of(cs), state, x, xp);
        let ls = sum_large_views(larges_of(cs, domain, ce_blowup), state, ce_step, xp);
        if c.poly@.len() == 1 {
            lemma_single_step(cs, domain, ce_blowup, state, x, xp);
        } else if c.poly@.len() <= SMALL_POLY_DEGREE + 1 {
            lemma_small_step(cs, domain, ce_blowup, state, x, xp);
        } else {
            lemma_large_step(cs, domain, offset, g, ce_blowup, state, ce_step, xp);
        }
        lemma_combine(ss, ms, ls, s0, m0, l0, t, front_sum, total);
    }
}

/// Adding `t` to one of three summands adds it to their field sum.
proof fn lemma_combine(
    ss: int,
    ms: int,
    ls: int,
    s0: int,
    m0: int,
    l0: int,
    t: int,
    front_sum: int,
    total: int,
)
    requires
        (ss == f_add(s0, t) && ms == m0 && ls == l0) || (ss == s0 && ms == f_add(m0, t) && ls == l0) || (
        ss == s0 && ms == m0 && ls == f_add(l0, t)),
        f_add(f_add(s0, m0), l0) == front_sum,
        total == f_add(front_sum, t),
    ensures
        f_add(f_add(ss, ms), ls) == total,
{
    lemma_add_rotate(s0, m0, l0, t);
    lemma_f_add_assoc(f_add(s0, m0), l0, t);
}

/// Adding `t` into any of three summands gives the same field sum.
proof fn lemma_add_rotate(s: int, mm: int, l: int, t: int)
    ensures
        f_add(f_add(f_add(s, t), mm), l) == f_add(f_add(f_add(s, mm), l), t),
        f_add(f_add(s, f_add(mm, t)), l) == f_add(f_add(f_add(s, mm), l), t),
{
    lemma_f_add4(s, t, mm, l);
    lemma_f_add4(s, mm, l, t);
    lemma_f_add4(s, mm, t, l);
    lemma_f_add_assoc(s, mm, t);
}

/// The value of an assertion constraint group built by [AssertionConstraintGroup::new] from the
/// constraints `cs`, at step `ce_step` of the constraint evaluation domain `offset * g^k` (with
/// `g^n == 1` for the domain's size `n`), is the sum over all constraints of what each gives when
/// its polynomial is evaluated on the fly at the step's point: single value, small polynomial
/// and precomputed constraints alike (a precomputed constraint's x offset undoes its step
/// offset).
pub proof fn lemma_group_evaluation(
    group: AssertionConstraintGroup,
    cs: Seq<AssertionConstraint>,
    domain: Seq<u128>,
    offset: int,
    g: int,
    ce_blowup: int,
    state: Seq<u128>,
    ce_step: int,
    xp: int,
)
    requires
        ce_blowup >= 0,
        constraints_ok(cs, ce_blowup),
        group.singles().map_values(|c: SingleValueConstraint| single_view(c)) == singles_of(cs),
        group.smalls().map_values(|c: SmallPolyConstraint| small_view(c)) == smalls_of(cs),
        group.larges().map_values(|c: LargePolyConstraint| large_view(c)) == larges_of(cs, domain, ce_blowup),
        forall|k: int| 0 <= k < domain.len() ==> #[trigger] domain[k] == f_mul(offset, f_exp(g, k as nat)),
        f_exp(g, domain.len()) == 1,
        forall|i: int|
            0 <= i < cs.len() && (#[trigger] cs[i]).poly@.len() > SMALL_POLY_DEGREE + 1 ==> f_mul(
                cs[i].x_offset as int,
                f_exp(g, (cs[i].step_offset * ce_blowup) as nat),
            ) == 1 && cs[i].step_offset * ce_blowup <= domain.len(),
        0 <= ce_step < domain.len(),
    ensures
        group.spec_evaluate(state, ce_step, domain[ce_step] as int, xp) == sum_on_the_fly(
            cs,
            state,
            domain[ce_step] as int,
            xp,
        ),
{
    lemma_sum_single_views(group.singles(), state, xp);
    lemma_sum_small_views(group.smalls(), state, domain[ce_step] as int, xp);
    lemma_sum_large_views(group.larges(), state, ce_step, xp);
    lemma_split_sums(cs, domain, offset, g, ce_blowup, state, ce_step, xp);
}

} // verus!
