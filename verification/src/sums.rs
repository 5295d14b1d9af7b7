//! Sums of field elements, and the rules by which field addition and multiplication regroup.

use crate::field::{f_add, f_mul, m};
use vstd::arithmetic::div_mod::{
    lemma_add_mod_noop, lemma_mod_twice, lemma_mul_mod_noop_left, lemma_mul_mod_noop_right,
    lemma_small_mod,
};
use vstd::arithmetic::mul::lemma_mul_is_distributive_add_other_way;
use vstd::prelude::*;

verus! {

// SUMS
// ================================================================================================

/// The field sum of the values of `s`, added in order.
pub open spec fn field_sum(s: Seq<int>) -> int
    decreases s.len(),
{
    if s.len() == 0 {
        0
    } else {
        f_add(field_sum(s.drop_last()), s.last())
    }
}

/// Every field sum of two values is the reduced integer sum, however it is grouped.
pub proof fn lemma_f_add_grouping(a: int, b: int, c: int, d: int)
    ensures
        f_add(f_add(a, b), c) == (a + b + c) % m(),
        f_add(a, f_add(b, c)) == (a + b + c) % m(),
        f_add(f_add(f_add(a, b), c), d) == (a + b + c + d) % m(),
        f_add(f_add(a, b), f_add(c, d)) == (a + b + c + d) % m(),
{
    lemma_add_mod_noop(a + b, c, m());
    lemma_mod_twice(a + b, m());
    lemma_mod_twice(c, m());
    lemma_add_mod_noop(a, b + c, m());
    lemma_mod_twice(a, m());
    lemma_mod_twice(b + c, m());
    lemma_add_mod_noop((a + b) % m(), c, m());
    lemma_add_mod_noop(a, (b + c) % m(), m());
    lemma_add_mod_noop(a + b + c, d, m());
    lemma_mod_twice(a + b + c, m());
    lemma_mod_twice(d, m());
    lemma_add_mod_noop((a + b + c) % m(), d, m());
    lemma_add_mod_noop(a + b, c + d, m());
    lemma_mod_twice(c + d, m());
    lemma_add_mod_noop((a + b) % m(), (c + d) % m(), m());
}

/// Field multiplication distributes over field addition.
pub proof fn lemma_f_distributes(a: int, b: int, c: int)
    ensures
        f_mul(f_add(a, b), c) == f_add(f_mul(a, c), f_mul(b, c)),
{
    lemma_mul_mod_noop_left(a + b, c, m());
    lemma_mul_is_distributive_add_other_way(c, a, b);
    lemma_add_mod_noop(a * c, b * c, m());
}

/// The field sum of two sequences one after the other is the field sum of their sums.
pub proof fn lemma_field_sum_concat(a: Seq<int>, b: Seq<int>)
    ensures
        field_sum(a + b) == f_add(field_sum(a), field_sum(b)),
        0 <= field_sum(a) < m(),
    decreases a.len() + b.len(),
{
    if b.len() == 0 {
        assert(a + b =~= a);
        if a.len() > 0 {
            lemma_field_sum_concat(a.drop_last(), b);
        }
        lemma_small_mod(field_sum(a) as nat, m() as nat);
    } else {
        lemma_field_sum_concat(a, b.drop_last());
        assert((a + b).drop_last() =~= a + b.drop_last());
        assert((a + b).last() == b.last());
        lemma_f_add_grouping(field_sum(a), field_sum(b.drop_last()), b.last(), 0);
    }
}

// CONGRUENCES
// ================================================================================================

/// `a` and `b` are equal modulo the field modulus.
pub open spec fn cong(a: int, b: int) -> bool {
    a % m() == b % m()
}

pub proof fn lemma_cong_add(a: int, b: int, c: int, d: int)
    requires
        cong(a, b),
        cong(c, d),
    ensures
        cong(a + c, b + d),
{
    lemma_add_mod_noop(a, c, m());
    lemma_add_mod_noop(b, d, m());
}

pub proof fn lemma_cong_mul(a: int, b: int, k: int)
    requires
        cong(a, b),
    ensures
        cong(k * a, k * b),
{
    lemma_mul_mod_noop_right(k, a, m());
    lemma_mul_mod_noop_right(k, b, m());
}

pub proof fn lemma_cong_mod(a: int)
    ensures
        cong(a % m(), a),
{
    lemma_mod_twice(a, m());
}

} // verus!
