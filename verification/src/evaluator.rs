//! Constraint evaluator bookkeeping: trace dimensions, constraint domains (divisors), and the
//! degree of the composition polynomial.

use crate::constraints::lemma_f_add_assoc;
use crate::field::{field_add, field_exp, field_mul, f_add, f_exp, f_mul, is_element, m, ZERO};
use crate::poly::all_elements;
use crate::sums::{field_sum, lemma_f_add_grouping, lemma_f_distributes, lemma_field_sum_concat};
use vstd::arithmetic::div_mod::lemma_small_mod;
use vstd::prelude::*;

verus! {

// TRACE INFO
// ================================================================================================

/// Width, length and blowup factor of an execution trace.
pub struct TraceInfo(usize, usize, usize);

impl TraceInfo {
    pub closed spec fn spec_width(&self) -> usize {
        self.0
    }

    pub closed spec fn spec_length(&self) -> usize {
        self.1
    }

    pub closed spec fn spec_blowup(&self) -> usize {
        self.2
    }

    pub fn new(width: usize, length: usize, blowup: usize) -> (r: Self)
        ensures
            r.spec_width() == width,
            r.spec_length() == length,
            r.spec_blowup() == blowup,
    {
        TraceInfo(width, length, blowup)
    }

    pub fn width(&self) -> (r: usize)
        ensures
            r == self.spec_width(),
    {
        self.0
    }

    pub fn length(&self) -> (r: usize)
        ensures
            r == self.spec_length(),
    {
        self.1
    }

    pub fn blowup(&self) -> (r: usize)
        ensures
            r == self.spec_blowup(),
    {
        self.2
    }

    /// Size of the low-degree extension domain: trace length times blowup factor.
    pub fn lde_domain_size(&self) -> (r: usize)
        requires
            self.spec_length() * self.spec_blowup() <= usize::MAX,
        ensures
            r == self.spec_length() * self.spec_blowup(),
    {
        self.length() * self.blowup()
    }
}

// CONSTRAINT DOMAIN
// ================================================================================================

/// Describes a constraint domain as a combination of a sparse polynomial and exclusion points.
/// For example (x^a - 1) / (x - b) is represented by the divisor `[(a, 1)]` and the exclusion
/// points `[b]`.
pub struct ConstraintDomain {
    divisor: Vec<(usize, u128)>,
    exclude: Vec<u128>,
}

impl ConstraintDomain {
    pub closed spec fn spec_divisor(&self) -> Seq<(usize, u128)> {
        self.divisor@
    }

    pub closed spec fn spec_exclude(&self) -> Seq<u128> {
        self.exclude@
    }

    /// Builds the domain of transition constraints: (x^trace_length - 1) / (x - x_at_last_step).
    pub fn from_transition(trace_length: usize, x_at_last_step: u128) -> (r: Self)
        ensures
            r.spec_divisor() == seq![(trace_length, 1u128)],
            r.spec_exclude() == seq![x_at_last_step],
    {
        let mut divisor: Vec<(usize, u128)> = Vec::new();
        divisor.push((trace_length, 1u128));
        let mut exclude: Vec<u128> = Vec::new();
        exclude.push(x_at_last_step);
        assert(divisor@ =~= seq![(trace_length, 1u128)]);
        assert(exclude@ =~= seq![x_at_last_step]);
        ConstraintDomain { divisor, exclude }
    }

    /// Builds the domain of an assertion constraint: (x - value).
    pub fn from_assertion(value: u128) -> (r: Self)
        ensures
            r.spec_divisor() == seq![(1usize, value)],
            r.spec_exclude() == Seq::<u128>::empty(),
    {
        let mut divisor: Vec<(usize, u128)> = Vec::new();
        divisor.push((1usize, value));
        assert(divisor@ =~= seq![(1usize, value)]);
        ConstraintDomain { divisor, exclude: Vec::new() }
    }

    pub fn divisor(&self) -> (r: &[(usize, u128)])
        ensures
            r@ == self.spec_divisor(),
    {
        self.divisor.as_slice()
    }

    pub fn exclude(&self) -> (r: &[u128])
        ensures
            r@ == self.spec_exclude(),
    {
        self.exclude.as_slice()
    }
}

// HELPER FUNCTIONS
// ================================================================================================

/// Degree of the composition polynomial: `max(max_constraint_degree - 1, 1) * trace_length`.
pub open spec fn composition_degree(trace_length: int, max_constraint_degree: int) -> int {
    (if max_constraint_degree - 1 > 1 {
        max_constraint_degree - 1
    } else {
        1
    }) * trace_length
}

/// Returns the degree of the composition polynomial for a trace of `trace_length` steps and
/// constraints of degree at most `max_constraint_degree`.
pub fn get_composition_degree(trace_length: usize, max_constraint_degree: usize) -> (r: usize)
    requires
        max_constraint_degree >= 1,
        composition_degree(trace_length as int, max_constraint_degree as int) <= usize::MAX,
    ensures
        r == composition_degree(trace_length as int, max_constraint_degree as int),
{
    let d = max_constraint_degree - 1;
    let m = if d > 1 {
        d
    } else {
        1
    };
    m * trace_length
}

/// Degree of the DEEP composition polynomial: one less than the composition degree.
pub fn deep_composition_degree(trace_length: usize, max_constraint_degree: usize) -> (r: usize)
    requires
        max_constraint_degree >= 1,
        1 <= composition_degree(trace_length as int, max_constraint_degree as int) <= usize::MAX,
    ensures
        r == composition_degree(trace_length as int, max_constraint_degree as int) - 1,
{
    get_composition_degree(trace_length, max_constraint_degree) - 1
}

// TRANSITION CONSTRAINT MERGING
// ================================================================================================

/// Abstract view of a transition degree map: for each group of constraints with the same
/// degree, the incremental degree needed to reach the composition degree and the indexes of the
/// constraints in the group.
pub open spec fn degree_map_view(map: Seq<(u128, Vec<usize>)>) -> Seq<(u128, Seq<usize>)> {
    map.map_values(|g: (u128, Vec<usize>)| (g.0, g.1@))
}

/// Number of constraints in all groups.
pub open spec fn count_constraints(groups: Seq<(u128, Seq<usize>)>) -> nat
    decreases groups.len(),
{
    if groups.len() == 0 {
        0
    } else {
        count_constraints(groups.drop_last()) + groups.last().1.len()
    }
}

/// Random linear combination of the evaluations of the constraints `cs`, whose coefficient
/// pairs start at pair `i0` of `cc`; `parity` selects the first (0) or second (1) coefficient of
/// each pair.
pub open spec fn lin_comb(cs: Seq<usize>, ev: Seq<u128>, cc: Seq<u128>, i0: int, parity: int) -> int
    decreases cs.len(),
{
    if cs.len() == 0 {
        0
    } else {
        f_add(
            lin_comb(cs.drop_last(), ev, cc, i0, parity),
            f_mul(ev[cs.last() as int] as int, cc[2 * (i0 + cs.len() - 1) + parity] as int),
        )
    }
}

/// Merge of transition constraint evaluations: for each group, the combination with the first
/// coefficients plus the combination with the second coefficients multiplied by x raised to the
/// group's incremental degree.
pub open spec fn merged_evaluation(groups: Seq<(u128, Seq<usize>)>, ev: Seq<u128>, cc: Seq<u128>, x: int) -> int
    decreases groups.len(),
{
    if groups.len() == 0 {
        0
    } else {
        let front = groups.drop_last();
        let g = groups.last();
        let i0 = count_constraints(front) as int;
        f_add(
            f_add(merged_evaluation(front, ev, cc, x), lin_comb(g.1, ev, cc, i0, 0)),
            f_mul(lin_comb(g.1, ev, cc, i0, 1), f_exp(x, g.0 as nat)),
        )
    }
}

/// Every constraint index of every group points into `ev`.
pub open spec fn indexes_ok(groups: Seq<(u128, Seq<usize>)>, ev_len: nat) -> bool {
    forall|g: int, k: int| 0 <= g < groups.len() && 0 <= k < groups[g].1.len() ==> #[trigger] groups[g].1[k] < ev_len
}

proof fn lemma_lin_comb_element(cs: Seq<usize>, ev: Seq<u128>, cc: Seq<u128>, i0: int, parity: int)
    ensures
        0 <= lin_comb(cs, ev, cc, i0, parity) < m(),
    decreases cs.len(),
{
    if cs.len() > 0 {
        lemma_lin_comb_element(cs.drop_last(), ev, cc, i0, parity);
    }
}

proof fn lemma_count_prefix(groups: Seq<(u128, Seq<usize>)>, k: int)
    requires
        0 <= k < groups.len(),
    ensures
        count_constraints(groups.take(k)) + groups[k].1.len() == count_constraints(groups.take(k + 1)),
        count_constraints(groups.take(k + 1)) <= count_constraints(groups),
    decreases groups.len(),
{
    assert(groups.take(k + 1).drop_last() =~= groups.take(k));
    if k + 1 < groups.len() {
        lemma_count_prefix(groups.drop_last(), k);
        assert(groups.drop_last().take(k + 1) =~= groups.take(k + 1));
    } else {
        assert(groups.take(k + 1) =~= groups);
    }
}

/// The constraints of all groups, in order, each with its group's incremental degree.
pub open spec fn flattened(groups: Seq<(u128, Seq<usize>)>) -> Seq<(usize, u128)>
    decreases groups.len(),
{
    if groups.len() == 0 {
        Seq::empty()
    } else {
        let g = groups.last();
        flattened(groups.drop_last()) + g.1.map_values(|c: usize| (c, g.0))
    }
}

proof fn lemma_flattened_len(groups: Seq<(u128, Seq<usize>)>)
    ensures
        flattened(groups).len() == count_constraints(groups),
    decreases groups.len(),
{
    if groups.len() > 0 {
        lemma_flattened_len(groups.drop_last());
    }
}

/// The terms of one group of constraints `cs` of incremental degree `d`, whose coefficient
/// pairs start at pair `i0`, add up to its two combinations.
proof fn lemma_group_terms(cs: Seq<usize>, ev: Seq<u128>, cc: Seq<u128>, x: int, d: u128, i0: int)
    ensures
        field_sum(
            Seq::new(
                cs.len(),
                |j: int|
                    f_add(
                        f_mul(ev[cs[j] as int] as int, cc[2 * (i0 + j)] as int),
                        f_mul(f_mul(ev[cs[j] as int] as int, cc[2 * (i0 + j) + 1] as int), f_exp(x, d as nat)),
                    ),
            ),
        ) == f_add(lin_comb(cs, ev, cc, i0, 0), f_mul(lin_comb(cs, ev, cc, i0, 1), f_exp(x, d as nat))),
    decreases cs.len(),
{
    let xp = f_exp(x, d as nat);
    if cs.len() == 0 {
        assert(f_mul(0, xp) == 0);
        assert(f_add(0, 0) == 0);
    } else {
        let front = cs.drop_last();
        lemma_group_terms(front, ev, cc, x, d, i0);
        let n = cs.len() as int;
        let terms = Seq::new(
            cs.len(),
            |j: int|
                f_add(
                    f_mul(ev[cs[j] as int] as int, cc[2 * (i0 + j)] as int),
                    f_mul(f_mul(ev[cs[j] as int] as int, cc[2 * (i0 + j) + 1] as int), xp),
                ),
        );
        assert(terms.drop_last() =~= Seq::new(
            front.len(),
            |j: int|
                f_add(
                    f_mul(ev[front[j] as int] as int, cc[2 * (i0 + j)] as int),
                    f_mul(f_mul(ev[front[j] as int] as int, cc[2 * (i0 + j) + 1] as int), xp),
                ),
        ));
        let c = cs.last();
        let l0 = lin_comb(front, ev, cc, i0, 0);
        let l1 = lin_comb(front, ev, cc, i0, 1);
        let u0 = f_mul(ev[c as int] as int, cc[2 * (i0 + n - 1)] as int);
        let u1 = f_mul(ev[c as int] as int, cc[2 * (i0 + n - 1) + 1] as int);
        assert(lin_comb(cs, ev, cc, i0, 0) == f_add(l0, u0));
        assert(lin_comb(cs, ev, cc, i0, 1) == f_add(l1, u1));
        lemma_f_distributes(l1, u1, xp);
        lemma_f_add_grouping(l0, f_mul(l1, xp), u0, f_mul(u1, xp));
        lemma_f_add_grouping(l0, u0, f_mul(l1, xp), f_mul(u1, xp));
    }
}

/// Merging weighs the `k`-th constraint of the degree map, counted across all groups, by the
/// coefficients `cc[2k]` and `cc[2k + 1]`: the merged value is the field sum over the
/// constraints of `D_k * cc[2k] + D_k * cc[2k + 1] * x^p`, where `D_k` is the constraint's
/// evaluation and `p` the incremental degree of its group.
pub proof fn lemma_merged_weighs_each_constraint(
    groups: Seq<(u128, Seq<usize>)>,
    ev: Seq<u128>,
    cc: Seq<u128>,
    x: int,
)
    ensures
        merged_evaluation(groups, ev, cc, x) == field_sum(
            Seq::new(
                flattened(groups).len(),
                |k: int|
                    f_add(
                        f_mul(ev[flattened(groups)[k].0 as int] as int, cc[2 * k] as int),
                        f_mul(
                            f_mul(ev[flattened(groups)[k].0 as int] as int, cc[2 * k + 1] as int),
                            f_exp(x, flattened(groups)[k].1 as nat),
                        ),
                    ),
            ),
        ),
    decreases groups.len(),
{
    if groups.len() > 0 {
        let front = groups.drop_last();
        let g = groups.last();
        lemma_merged_weighs_each_constraint(front, ev, cc, x);
        lemma_flattened_len(front);
        let i0 = count_constraints(front) as int;
        let fl = flattened(groups);
        let ff = flattened(front);
        let all = Seq::new(
            fl.len(),
            |k: int|
                f_add(
                    f_mul(ev[fl[k].0 as int] as int, cc[2 * k] as int),
                    f_mul(f_mul(ev[fl[k].0 as int] as int, cc[2 * k + 1] as int), f_exp(x, fl[k].1 as nat)),
                ),
        );
        let before = Seq::new(
            ff.len(),
            |k: int|
                f_add(
                    f_mul(ev[ff[k].0 as int] as int, cc[2 * k] as int),
                    f_mul(f_mul(ev[ff[k].0 as int] as int, cc[2 * k + 1] as int), f_exp(x, ff[k].1 as nat)),
                ),
        );
        let xp = f_exp(x, g.0 as nat);
        let mine = Seq::new(
            g.1.len(),
            |j: int|
                f_add(
                    f_mul(ev[g.1[j] as int] as int, cc[2 * (i0 + j)] as int),
                    f_mul(f_mul(ev[g.1[j] as int] as int, cc[2 * (i0 + j) + 1] as int), xp),
                ),
        );
        assert(fl == ff + g.1.map_values(|c: usize| (c, g.0)));
        assert(all =~= before + mine) by {
            assert forall|k: int| 0 <= k < all.len() implies all[k] == (before + mine)[k] by {
                if k >= ff.len() {
                    let j = k - ff.len();
                    assert(fl[k] == (g.1[j], g.0));
                    assert(k == i0 + j);
                }
            }
        }
        lemma_field_sum_concat(before, mine);
        lemma_group_terms(g.1, ev, cc, x, g.0, i0);
        let l0 = lin_comb(g.1, ev, cc, i0, 0);
        let l1 = lin_comb(g.1, ev, cc, i0, 1);
        lemma_f_add_grouping(merged_evaluation(front, ev, cc, x), l0, f_mul(l1, xp), 0);
    }
}

/// Merges evaluations of transition constraints into a single value: within each group of
/// constraints of the same degree, the evaluations are combined with the pairs of coefficients
/// `cc` (taken in order, one pair per constraint), and the second combination is multiplied by
/// `x` raised to the group's incremental degree.
pub fn merge_transition_evaluations(
    transition_degree_map: &[(u128, Vec<usize>)],
    evaluations: &[u128],
    cc: &[u128],
    x: u128,
) -> (r: u128)
    requires
        is_element(x),
        all_elements(evaluations@),
        all_elements(cc@),
        indexes_ok(degree_map_view(transition_degree_map@), evaluations@.len()),
        2 * count_constraints(degree_map_view(transition_degree_map@)) <= cc@.len(),
    ensures
        is_element(r),
        r == merged_evaluation(degree_map_view(transition_degree_map@), evaluations@, cc@, x as int),
{
    let ghost groups = degree_map_view(transition_degree_map@);
    let mut result: u128 = ZERO;
    let mut i: usize = 0;
    let mut g: usize = 0;
    assert(groups.take(0) =~= Seq::<(u128, Seq<usize>)>::empty());
    while g < transition_degree_map.len()
        invariant
            groups == degree_map_view(transition_degree_map@),
            g <= groups.len(),
            is_element(x),
            all_elements(evaluations@),
            all_elements(cc@),
            indexes_ok(groups, evaluations@.len()),
            2 * count_constraints(groups) <= cc@.len(),
            i == count_constraints(groups.take(g as int)),
            is_element(result),
            result == merged_evaluation(groups.take(g as int), evaluations@, cc@, x as int),
        decreases transition_degree_map.len() - g,
    {
        let (incremental_degree, constraints) = (
            transition_degree_map[g].0,
            &transition_degree_map[g].1,
        );
        let ghost prev = result as int;
        let ghost i0 = i as int;
        let ghost cs = constraints@;
        proof {
            assert(groups[g as int] == (incremental_degree, cs));
            lemma_count_prefix(groups, g as int);
            lemma_small_mod(prev as nat, m() as nat);
            assert(cs.take(0) =~= Seq::<usize>::empty());
        }
        let mut result_adj: u128 = ZERO;
        let mut k: usize = 0;
        while k < constraints.len()
            invariant
                groups == degree_map_view(transition_degree_map@),
                g < groups.len(),
                groups[g as int] == (incremental_degree, cs),
                cs == constraints@,
                k <= cs.len(),
                is_element(x),
                all_elements(evaluations@),
                all_elements(cc@),
                indexes_ok(groups, evaluations@.len()),
                i0 + cs.len() <= count_constraints(groups),
                2 * count_constraints(groups) <= cc.len(),
                i == i0 + k,
                0 <= prev < m(),
                is_element(result),
                is_element(result_adj),
                result == f_add(prev, lin_comb(cs.take(k as int), evaluations@, cc@, i0, 0)),
                result_adj == lin_comb(cs.take(k as int), evaluations@, cc@, i0, 1),
            decreases cs.len() - k,
        {
            let constraint_idx = constraints[k];
            proof {
                assert(groups[g as int].1[k as int] == constraint_idx);
                assert(constraint_idx < evaluations@.len());
                assert(cs.take(k + 1).drop_last() =~= cs.take(k as int));
                assert(cs.take(k + 1).last() == constraint_idx);
                lemma_f_add_assoc(
                    prev,
                    lin_comb(cs.take(k as int), evaluations@, cc@, i0, 0),
                    f_mul(evaluations@[constraint_idx as int] as int, cc@[2 * i] as int),
                );
            }
            let evaluation = evaluations[constraint_idx];
            let t0 = field_mul(evaluation, cc[i * 2]);
            result = field_add(result, t0);
            let t1 = field_mul(evaluation, cc[i * 2 + 1]);
            result_adj = field_add(result_adj, t1);
            i = i + 1;
            k = k + 1;
        }
        proof {
            assert(cs.take(k as int) =~= cs);
            lemma_lin_comb_element(cs, evaluations@, cc@, i0, 0);
            let front = groups.take(g + 1);
            assert(front.drop_last() =~= groups.take(g as int));
            assert(front.last() == groups[g as int]);
        }
        let xp = field_exp(x, incremental_degree);
        let adj = field_mul(result_adj, xp);
        result = field_add(result, adj);
        g = g + 1;
    }
    assert(groups.take(g as int) =~= groups);
    result
}

} // verus!
