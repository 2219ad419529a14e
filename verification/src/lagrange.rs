//! Lagrange coefficients for interpolation at zero, over the scalar field.

use crate::bytes::scalar_from_u32;
use crate::errors::TibeError;
use crate::scalar::{
    be_value, fe_inverse, fe_mul, fe_sub, is_canonical_scalar, lemma_order_bounds,
    lemma_scalar_value_range, order,
};
use vstd::arithmetic::div_mod::{
    lemma_mul_mod_noop_general, lemma_mul_mod_noop_left, lemma_mul_mod_noop_right, lemma_small_mod,
};
use vstd::prelude::*;

verus! {

/// `x` is the inverse of `a` in the scalar field.
pub open spec fn is_inverse(a: int, x: int) -> bool {
    0 <= x < order() && (a * x) % order() == 1
}

/// The inverse of `a` in the scalar field, and zero where `a` is a multiple of the order.
pub open spec fn field_inverse(a: int) -> int {
    if a % order() == 0 {
        0
    } else {
        choose|x: int| is_inverse(a, x)
    }
}

/// `a` has an inverse in the scalar field. The order is prime, so this holds of every
/// number that is no multiple of it.
pub open spec fn invertible(a: int) -> bool {
    is_inverse(a, field_inverse(a))
}

/// The node at `j` minus the node at `i`.
pub open spec fn gap(xs: Seq<int>, i: int, j: int) -> int {
    xs[j] - xs[i]
}

/// Any two nodes at different positions differ by an invertible number.
pub open spec fn nodes_apart(xs: Seq<int>) -> bool {
    forall|i: int, j: int|
        0 <= i < xs.len() && 0 <= j < xs.len() && i != j ==> invertible(#[trigger] gap(xs, i, j))
}

/// The indices as integers.
pub open spec fn as_ints(indices: Seq<u32>) -> Seq<int> {
    Seq::new(indices.len(), |m: int| indices[m] as int)
}

/// The product, over the positions `m` below `upto` other than `i`, of
/// `xs[m] / (xs[m] - xs[i])`, each quotient taken in the scalar field.
pub open spec fn lagrange_prefix(xs: Seq<int>, i: int, upto: int) -> int
    decreases upto,
{
    if upto <= 0 {
        1
    } else if upto - 1 == i {
        lagrange_prefix(xs, i, upto - 1)
    } else {
        lagrange_prefix(xs, i, upto - 1) * (xs[upto - 1] * field_inverse(xs[upto - 1] - xs[i]))
    }
}

/// The Lagrange coefficient of position `i` for interpolation at zero: a polynomial of
/// degree below `xs.len()` takes at zero the sum of its values at the `xs[i]`, each times
/// its coefficient.
pub open spec fn lagrange_at_zero(xs: Seq<int>, i: int) -> int {
    lagrange_prefix(xs, i, xs.len() as int)
}

/// A residue has at most one inverse.
pub proof fn lemma_inverse_unique(a: int, x: int, y: int)
    requires
        is_inverse(a, x),
        is_inverse(a, y),
    ensures
        x == y,
{
    let q = order();
    lemma_order_bounds();
    lemma_mul_mod_noop_right(x, a * y, q);
    lemma_mul_mod_noop_left(a * x, y, q);
    assert(x * (a * y) == (a * x) * y) by (nonlinear_arith);
    assert(x * 1 == x);
    assert(1 * y == y);
    lemma_small_mod(x as nat, q as nat);
    lemma_small_mod(y as nat, q as nat);
}

/// The Lagrange coefficient of position `i` among the given indices, as a canonical
/// scalar.
///
/// Fails with `InvalidParameters` where `i` is no position of `indices`.
pub fn lagrange_coefficient(indices: &[u32], i: usize) -> (res: Result<Vec<u8>, TibeError>)
    ensures
        res is Err <==> i >= indices@.len(),
        res matches Err(e) ==> e == TibeError::InvalidParameters,
        res matches Ok(r) ==> is_canonical_scalar(r@) && be_value(r@) == lagrange_at_zero(
            as_ints(indices@),
            i as int,
        ) % order(),
        res is Ok ==> forall|m: int|
            0 <= m < indices@.len() && (as_ints(indices@)[m] - as_ints(indices@)[i as int])
                % order() != 0 ==> invertible(#[trigger] gap(as_ints(indices@), i as int, m)),
{
    if i >= indices.len() {
        return Err(TibeError::InvalidParameters);
    }
    let ghost xs = as_ints(indices@);
    let own = scalar_from_u32(indices[i]);
    let mut acc = scalar_from_u32(1);
    let mut m: usize = 0;
    proof {
        lemma_order_bounds();
        lemma_small_mod(1, order() as nat);
    }
    while m < indices.len()
        invariant
            m <= indices@.len(),
            i < indices@.len(),
            xs == as_ints(indices@),
            is_canonical_scalar(own@),
            be_value(own@) == xs[i as int],
            is_canonical_scalar(acc@),
            be_value(acc@) == lagrange_prefix(xs, i as int, m as int) % order(),
            forall|p: int|
                0 <= p < m && (xs[p] - xs[i as int]) % order() != 0 ==> invertible(
                    #[trigger] gap(xs, i as int, p),
                ),
        decreases indices@.len() - m,
    {
        if m != i {
            let other = scalar_from_u32(indices[m]);
            let apart = fe_sub(other.as_slice(), own.as_slice());
            let inverse = fe_inverse(apart.as_slice());
            let factor = fe_mul(other.as_slice(), inverse.as_slice());
            let next = fe_mul(acc.as_slice(), factor.as_slice());
            proof {
                let q = order();
                let a = xs[m as int] - xs[i as int];
                let before = lagrange_prefix(xs, i as int, m as int);
                lemma_order_bounds();
                lemma_scalar_value_range(other@);
                lemma_scalar_value_range(own@);
                lemma_scalar_value_range(apart@);
                lemma_scalar_value_range(inverse@);
                lemma_scalar_value_range(factor@);
                lemma_scalar_value_range(acc@);
                assert(be_value(apart@) == a % q);
                if a % q != 0 {
                    lemma_mul_mod_noop_left(a, be_value(inverse@), q);
                    assert(is_inverse(a, be_value(inverse@)));
                    lemma_inverse_unique(a, be_value(inverse@), field_inverse(a));
                }
                assert(be_value(inverse@) == field_inverse(a));
                lemma_mul_mod_noop_general(before, xs[m as int] * field_inverse(a), q);
                assert(a % q != 0 ==> invertible(gap(xs, i as int, m as int)));
            }
            acc = next;
        } else {
            proof {
                lemma_order_bounds();
                lemma_small_mod(0, order() as nat);
                assert(xs[m as int] - xs[i as int] == 0);
            }
        }
        m += 1;
    }
    Ok(acc)
}

} // verus!
