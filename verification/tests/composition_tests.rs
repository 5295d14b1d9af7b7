use winterfell::constraints::{
    evaluate_assertions, AssertionConstraint, AssertionConstraintGroup, LargePolyConstraint,
    SingleValueConstraint, SmallPolyConstraint,
};
use winterfell::evaluator::{
    deep_composition_degree, get_composition_degree, merge_transition_evaluations,
    ConstraintDomain, TraceInfo,
};
use winterfell::field::{field_add, field_div, field_exp, field_mul, field_sub, MODULUS};
use winterfell::poly::{acc_poly, add_in_place, mul_acc, PolyTable, TracePolyTable};
use winterfell::verification::{
    compose_constraints, compose_registers, get_column_values, interpolate_at,
    read_constraint_evaluations, read_u128_le, verify_queries, verify_remainder,
    CompositionCoefficients, RemainderError,
};
use winterfell::fri::FriError;
use winterfell::composition::{add_trace_polys, syn_div_in_place};

#[test]
fn trace_info_accessors() {
    let info = TraceInfo::new(3, 64, 8);
    assert_eq!(info.width(), 3);
    assert_eq!(info.length(), 64);
    assert_eq!(info.blowup(), 8);
    assert_eq!(info.lde_domain_size(), 512);
}

#[test]
fn constraint_domains() {
    let t = ConstraintDomain::from_transition(64, 99);
    assert_eq!(t.divisor(), &[(64, 1)]);
    assert_eq!(t.exclude(), &[99]);
    let a = ConstraintDomain::from_assertion(5);
    assert_eq!(a.divisor(), &[(1, 5)]);
    assert!(a.exclude().is_empty());
}

#[test]
fn composition_degrees() {
    assert_eq!(get_composition_degree(64, 3), 128);
    assert_eq!(get_composition_degree(64, 2), 64);
    assert_eq!(get_composition_degree(64, 1), 64);
    assert_eq!(deep_composition_degree(64, 3), 127);
}

#[test]
fn element_wise_operations() {
    let mut a = vec![1u128, 2, 3];
    add_in_place(&mut a, &[10, 20, MODULUS - 3]);
    assert_eq!(a, vec![11, 22, 0]);
    let mut b = vec![1u128, 1];
    mul_acc(&mut b, &[2, 3], 5);
    assert_eq!(b, vec![11, 16]);
    // (P(x) - value) * k accumulated into the first coefficient
    let mut acc = vec![0u128, 0];
    acc_poly(&mut acc, &[4, 1], 3, 2);
    assert_eq!(acc, vec![2, 2]);
}

#[test]
fn merged_transition_evaluations() {
    // one group of degree 2 with constraints 0 and 1
    let map = vec![(2u128, vec![0usize, 1])];
    let r = merge_transition_evaluations(&map, &[3, 4], &[1, 2, 5, 6], 10);
    // (3*1 + 4*5) + (3*2 + 4*6) * 10^2
    assert_eq!(r, 23 + 30 * 100);
}

#[test]
fn assertion_constraint_evaluations() {
    let single = SingleValueConstraint { register: 0, value: 5, coefficients: (2, 3) };
    // (7 - 5) * (2 + 3 * 4)
    assert_eq!(single.evaluate(&[7, 0], 4), 28);
    let small = SmallPolyConstraint {
        register: 1,
        poly: vec![1, 1],
        x_offset: 2,
        coefficients: (1, 0),
    };
    // state 10 minus (1 + 2 * 3)
    assert_eq!(small.evaluate(&[0, 10], 3, 9), 3);
    let large = LargePolyConstraint {
        register: 0,
        values: vec![5, 6, 7, 8],
        step_offset: 1,
        coefficients: (1, 0),
    };
    // step 0 with offset 1 reads the last value
    assert_eq!(large.evaluate(&[10], 0, 1), 2);
    assert_eq!(large.evaluate(&[10], 2, 1), 4);
}

#[test]
fn assertion_group_sorts_constraints() {
    let constraints = vec![
        AssertionConstraint { register: 0, poly: vec![5], x_offset: 1, step_offset: 0, cc: (1, 0) },
        AssertionConstraint {
            register: 1,
            poly: vec![1, 1],
            x_offset: 1,
            step_offset: 0,
            cc: (1, 0),
        },
    ];
    let group = AssertionConstraintGroup::new(0, constraints, &[1, 2, 3, 4], 2);
    assert_eq!(group.degree_adjustment(), 0);
    // (7 - 5) + (10 - (1 + 3))
    assert_eq!(group.evaluate(&[7, 10], 0, 3, 1), 8);
    let all = evaluate_assertions(&[group], &[7, 10], 3, 0);
    assert_eq!(all, vec![8]);
}

#[test]
fn deep_composition_of_registers() {
    let cc = CompositionCoefficients { trace: vec![(1, 1)], trace_degree: (1, 0), constraints: 3 };
    let states = vec![vec![10u128]];
    let r = compose_registers(8, 6, 2, &states, &[5], &[4], &[6], 3, &cc);
    // (10 - 4) / (5 - 3) + (10 - 6) / (5 - 6)
    let expected = field_add(field_div(6, 2), field_div(4, field_sub(5, 6)));
    assert_eq!(r, vec![expected]);
    // with the degree raised by x^(6 - 6) and coefficients (0, 1)
    let cc2 = CompositionCoefficients { trace: vec![(1, 1)], trace_degree: (0, 1), constraints: 3 };
    let r2 = compose_registers(8, 8, 2, &states, &[5], &[4], &[6], 3, &cc2);
    assert_eq!(r2, vec![field_mul(expected, field_exp(5, 2))]);
}

#[test]
fn deep_composition_of_constraints() {
    let cc = CompositionCoefficients { trace: vec![], trace_degree: (1, 0), constraints: 3 };
    let r = compose_constraints(&[11, 20], &[4, 7], 2, 1, &cc);
    assert_eq!(r, vec![field_mul(field_div(10, 2), 3), field_mul(field_div(19, 5), 3)]);
}

#[test]
fn column_values_of_a_layer() {
    // column length 16: rows of length 4
    let values = vec![[1u128, 2, 3, 4], [5, 6, 7, 8]];
    let r = get_column_values(&values, &[6, 1, 13], &[1, 2], 16);
    // 6 -> row of 2, column 1; 1 -> row of 1, column 0; 13 -> row of 1, column 3
    assert_eq!(r, vec![6, 1, 4]);
}

#[test]
fn constraint_evaluations_from_leaves() {
    let mut leaf = [0u8; 32];
    leaf[0] = 1;
    leaf[16] = 2;
    leaf[17] = 1;
    assert_eq!(read_u128_le(&leaf, 16), 0x0102);
    let leaves = vec![[0u8; 32], leaf];
    let r = read_constraint_evaluations(&[6, 7, 1], &[0, 3], &leaves);
    assert_eq!(r, vec![1, 0x0102, 0]);
}

#[test]
fn remainder_on_a_line_is_accepted() {
    let root = 3u128;
    // values of 5 + 7x at x = root^i
    let mut remainder: Vec<u128> = (0..8u128)
        .map(|i| field_add(5, field_mul(7, field_exp(root, i))))
        .collect();
    assert_eq!(verify_remainder(&remainder, 2, root, 2), Ok(true));
    assert_eq!(
        verify_remainder(&remainder, 9, root, 2),
        Err(RemainderError::DegreeGreaterThanValues)
    );
    // positions on multiples of the blowup factor are not checked
    remainder[4] = 0;
    assert_eq!(verify_remainder(&remainder, 2, root, 2), Ok(true));
    remainder[7] = field_add(remainder[7], 1);
    assert_eq!(verify_remainder(&remainder, 2, root, 2), Err(RemainderError::NotLowDegree(2)));
    // the line through (1, 12) and (2, 19) is 5 + 7x
    assert_eq!(interpolate_at(&[1, 2], &[12, 19], 10), 75);
}

#[test]
fn polynomial_table_evaluation() {
    let table = PolyTable::new(vec![vec![1, 2, 0, 0], vec![0, 0, 0, 1]]);
    assert_eq!(table.poly_size(), 4);
    assert_eq!(table.num_polys(), 2);
    assert_eq!(table.get_poly(1), &[0, 0, 0, 1]);
    // 1 + 2x and x^3 at x = 3
    assert_eq!(table.evaluate_at(3), vec![7, 27]);
    let trace_polys: TracePolyTable = PolyTable::new(vec![vec![5, 0]]);
    assert_eq!(trace_polys.evaluate_at(100), vec![5]);
    assert_eq!(table.into_vec()[0], vec![1, 2, 0, 0]);
}

#[test]
fn polynomials_up_to_degree_63_are_evaluated_on_the_fly() {
    // p(x) = x; the domain [1, 2, 3, 4] is not the one x = 10 comes from, so an evaluation on the
    // fly (p(10)) and a precomputed one (p(domain[0]) = 1) can be told apart
    let mut degree_63 = vec![0u128; 64];
    degree_63[1] = 1;
    let mut degree_64 = vec![0u128; 65];
    degree_64[1] = 1;
    let on_the_fly = AssertionConstraintGroup::new(
        0,
        vec![AssertionConstraint { register: 0, poly: degree_63, x_offset: 1, step_offset: 0, cc: (1, 0) }],
        &[1, 2, 3, 4],
        1,
    );
    assert_eq!(on_the_fly.evaluate(&[15], 0, 10, 1), 5);
    let precomputed = AssertionConstraintGroup::new(
        0,
        vec![AssertionConstraint { register: 0, poly: degree_64, x_offset: 1, step_offset: 0, cc: (1, 0) }],
        &[1, 2, 3, 4],
        1,
    );
    assert_eq!(precomputed.evaluate(&[15], 0, 10, 1), 14);
}

#[test]
fn precomputed_constraint_matches_evaluation_on_the_fly() {
    // domain offset 3, generator -1 of order 2: domain [3, -3]; step offset 1 and x offset -1
    let minus_one = MODULUS - 1;
    let domain = [3u128, MODULUS - 3];
    let mut poly = vec![0u128; 65];
    poly[1] = 1;
    let group = AssertionConstraintGroup::new(
        0,
        vec![AssertionConstraint {
            register: 0,
            poly: poly.clone(),
            x_offset: minus_one,
            step_offset: 1,
            cc: (1, 0),
        }],
        &domain,
        1,
    );
    let small = SmallPolyConstraint { register: 0, poly, x_offset: minus_one, coefficients: (1, 0) };
    for step in 0..2 {
        let x = domain[step];
        assert_eq!(group.evaluate(&[10], step, x, 1), small.evaluate(&[10], x, 1));
    }
    assert_eq!(small.evaluate(&[10], 3, 1), 13);
    // a single value constraint is a polynomial with one coefficient
    let single = SingleValueConstraint { register: 0, value: 4, coefficients: (2, 3) };
    let as_poly = SmallPolyConstraint { register: 0, poly: vec![4], x_offset: 9, coefficients: (2, 3) };
    assert_eq!(single.evaluate(&[7], 5), as_poly.evaluate(&[7], 123, 5));
}

#[test]
fn queries_are_composed_and_checked_with_fri() {
    let cc = CompositionCoefficients { trace: vec![(2, 3)], trace_degree: (1, 4), constraints: 5 };
    let positions = vec![1usize, 2];
    let states = vec![vec![10u128], vec![20u128]];
    let constraint_evaluations = vec![30u128, 40];
    let (root, offset, z, generator) = (7u128, 3u128, 11u128, 9u128);
    let xs: Vec<u128> =
        positions.iter().map(|&p| field_mul(field_exp(root, p as u128), offset)).collect();
    let t = compose_registers(8, 8, generator, &states, &xs, &[4], &[6], z, &cc);
    let c = compose_constraints(&constraint_evaluations, &xs, z, 13, &cc);
    let mut remainder = vec![0u128; 4];
    remainder[1] = field_add(t[0], c[0]);
    remainder[2] = field_add(t[1], c[1]);
    let no_layers: Vec<Vec<[u128; 4]>> = vec![];
    let r = verify_queries(
        &positions, 4, root, offset, 8, 8, generator, &states, &constraint_evaluations, &[4], &[6],
        z, 13, &cc, &no_layers, &[], &remainder, 3, 1,
    );
    assert_eq!(r, Ok(true));
    // a trace state that does not agree with the committed evaluations is refused
    let other_states = vec![vec![10u128], vec![21u128]];
    let r = verify_queries(
        &positions, 4, root, offset, 8, 8, generator, &other_states, &constraint_evaluations,
        &[4], &[6], z, 13, &cc, &no_layers, &[], &remainder, 3, 1,
    );
    assert_eq!(r, Err(FriError::RemainderMismatch));
}

#[test]
fn synthetic_division_by_a_linear_factor() {
    // (x^2 - 1) / (x - 1) = x + 1
    let mut p = vec![MODULUS - 1, 0, 1];
    syn_div_in_place(&mut p, 1);
    assert_eq!(p, vec![1, 1, 0]);
    // (x^2 + 3x + 5) / (x - 2) = x + 5, remainder 15 dropped
    let mut p = vec![5u128, 3, 1];
    syn_div_in_place(&mut p, 2);
    assert_eq!(p, vec![5, 1, 0]);
}

#[test]
fn trace_polys_are_added_into_the_composition() {
    // P(x) = 1 + 2x: (P(x) - P(z)) / (x - z) = 2 at both points z = 4 and z * g
    let table = PolyTable::new(vec![vec![1u128, 2]]);
    let cc = CompositionCoefficients { trace: vec![(3, 5)], trace_degree: (7, 11), constraints: 1 };
    let mut coefficients = vec![0u128; 4];
    let (at_z, at_next_z) = add_trace_polys(&mut coefficients, &table, 4, &cc, 2);
    assert_eq!(at_z, vec![9]);
    // the trace domain of 2 points is generated by -1, so the next point is -4: P(-4) = -7
    assert_eq!(at_next_z, vec![MODULUS - 7]);
    // T = 2 * 3 + 2 * 5 = 16; T * 7 + T * x^2 * 11
    assert_eq!(coefficients, vec![112, 0, 176, 0]);
}

#[test]
fn group_evaluation_is_the_sum_on_the_fly() {
    // domain offset 3, generator -1 of order 2: domain [3, -3]
    let minus_one = MODULUS - 1;
    let domain = [3u128, MODULUS - 3];
    let mut large_poly = vec![0u128; 65];
    large_poly[1] = 1;
    large_poly[64] = 5;
    let constraints = vec![
        AssertionConstraint { register: 0, poly: vec![4], x_offset: 1, step_offset: 0, cc: (2, 3) },
        AssertionConstraint { register: 1, poly: vec![1, 2], x_offset: 1, step_offset: 0, cc: (1, 1) },
        AssertionConstraint {
            register: 0,
            poly: large_poly.clone(),
            x_offset: minus_one,
            step_offset: 1,
            cc: (5, 7),
        },
    ];
    let as_small = [
        SmallPolyConstraint { register: 0, poly: vec![4], x_offset: 1, coefficients: (2, 3) },
        SmallPolyConstraint { register: 1, poly: vec![1, 2], x_offset: 1, coefficients: (1, 1) },
        SmallPolyConstraint { register: 0, poly: large_poly, x_offset: minus_one, coefficients: (5, 7) },
    ];
    let group = AssertionConstraintGroup::new(0, constraints, &domain, 1);
    let state = [10u128, 20];
    for step in 0..2 {
        let x = domain[step];
        let xp = 9;
        let expected = as_small
            .iter()
            .fold(0u128, |acc, c| field_add(acc, c.evaluate(&state, x, xp)));
        assert_eq!(group.evaluate(&state, step, x, xp), expected);
    }
}
