//! Congruence modulo the group order.

use crate::scalar::{lemma_order_bounds, order};
use vstd::arithmetic::div_mod::{
    lemma_add_mod_noop, lemma_mod_twice, lemma_mul_mod_noop_general, lemma_small_mod,
    lemma_sub_mod_noop,
};
use vstd::prelude::*;

verus! {

/// `a` and `b` are the same element of the scalar field.
pub open spec fn eqm(a: int, b: int) -> bool {
    a % order() == b % order()
}

/// A number is congruent to its residue.
pub proof fn lemma_eqm_mod(a: int)
    ensures
        eqm(a % order(), a),
{
    lemma_order_bounds();
    lemma_mod_twice(a, order());
}

/// Sums of congruent numbers are congruent.
pub proof fn lemma_eqm_add(a: int, b: int, c: int, d: int)
    requires
        eqm(a, b),
        eqm(c, d),
    ensures
        eqm(a + c, b + d),
{
    lemma_order_bounds();
    lemma_add_mod_noop(a, c, order());
    lemma_add_mod_noop(b, d, order());
}

/// Differences of congruent numbers are congruent.
pub proof fn lemma_eqm_sub(a: int, b: int, c: int, d: int)
    requires
        eqm(a, b),
        eqm(c, d),
    ensures
        eqm(a - c, b - d),
{
    lemma_order_bounds();
    lemma_sub_mod_noop(a, c, order());
    lemma_sub_mod_noop(b, d, order());
}

/// Products of congruent numbers are congruent.
pub proof fn lemma_eqm_mul(a: int, b: int, c: int, d: int)
    requires
        eqm(a, b),
        eqm(c, d),
    ensures
        eqm(a * c, b * d),
{
    lemma_order_bounds();
    lemma_mul_mod_noop_general(a, c, order());
    lemma_mul_mod_noop_general(b, d, order());
}

/// A number other than zero that is small against the order is no multiple of it.
pub proof fn lemma_small_not_multiple(d: int)
    requires
        d != 0,
        -0x1_0000_0000 < d < 0x1_0000_0000,
    ensures
        d % order() != 0,
{
    lemma_order_bounds();
    if d > 0 {
        lemma_small_mod(d as nat, order() as nat);
    } else {
        lemma_small_mod((-d) as nat, order() as nat);
        lemma_small_mod(0, order() as nat);
        if d % order() == 0 {
            lemma_eqm_sub(0, 0, d, 0);
            assert(false);
        }
    }
}

} // verus!
