use winterfell::field::{
    eval, field_add, field_div, field_exp, field_inv, field_mul, field_neg, field_sub,
    get_root_of_unity, MODULUS, ONE, TWO_ADIC_ROOT_OF_UNITY, ZERO,
};

#[test]
fn modulus_value() {
    // 2^128 - 45 * 2^40 + 1
    let expected = u128::MAX - 45 * (1u128 << 40) + 2;
    assert_eq!(MODULUS, expected);
}

#[test]
fn addition_wraps_at_modulus() {
    assert_eq!(field_add(MODULUS - 1, 1), ZERO);
    assert_eq!(field_add(MODULUS - 1, MODULUS - 1), MODULUS - 2);
    assert_eq!(field_add(5, 7), 12);
}

#[test]
fn subtraction_wraps_below_zero() {
    assert_eq!(field_sub(0, 1), MODULUS - 1);
    assert_eq!(field_sub(10, 3), 7);
    assert_eq!(field_neg(1), MODULUS - 1);
    assert_eq!(field_neg(0), 0);
}

#[test]
fn multiplication_reduces() {
    assert_eq!(field_mul(2, 3), 6);
    // (-1) * (-1) = 1
    assert_eq!(field_mul(MODULUS - 1, MODULUS - 1), ONE);
    // (-1) * 2 = -2
    assert_eq!(field_mul(MODULUS - 1, 2), MODULUS - 2);
}

#[test]
fn exponentiation_and_inverse() {
    assert_eq!(field_exp(2, 10), 1024);
    assert_eq!(field_exp(7, 0), 1);
    // Fermat: a^(p-1) = 1
    assert_eq!(field_exp(3, MODULUS - 1), 1);
    let inv2 = field_inv(2);
    assert_eq!(field_mul(inv2, 2), 1);
    assert_eq!(field_inv(0), 0);
    assert_eq!(field_div(6, 3), 2);
    assert_eq!(field_mul(field_div(1, 7), 7), 1);
}

#[test]
fn polynomial_evaluation() {
    // 1 + 2x + 3x^2 at x = 2
    assert_eq!(eval(&[1, 2, 3], 2), 17);
    assert_eq!(eval(&[], 5), 0);
    // x - 1 at x = 0 is -1
    assert_eq!(eval(&[MODULUS - 1, 1], 0), MODULUS - 1);
}

#[test]
fn roots_of_unity_have_their_order() {
    let g = get_root_of_unity(40);
    assert_eq!(g, TWO_ADIC_ROOT_OF_UNITY);
    assert_eq!(field_exp(g, 1u128 << 40), 1);
    assert_eq!(field_exp(g, 1u128 << 39), MODULUS - 1);
    assert_eq!(get_root_of_unity(1), MODULUS - 1);
    let g8 = get_root_of_unity(3);
    assert_eq!(field_exp(g8, 8), 1);
    assert_ne!(field_exp(g8, 4), 1);
}
