//! Polynomials over the scalar field, held as a string of coefficients of 48 bytes each,
//! the constant term first.

use crate::bytes::scalar_from_u32;
use crate::errors::TibeError;
use crate::scalar::{
    be_value, fe_add, fe_mul, is_canonical_scalar, lemma_order_bounds, lemma_scalar_value_range,
    order, scalar_value, SCALAR_SIZE,
};
use crate::secret::wipe;
use vstd::arithmetic::div_mod::{lemma_add_mod_noop, lemma_mul_mod_noop_left, lemma_small_mod};
use vstd::prelude::*;
use vstd::slice::slice_subrange;

verus! {

/// The `i`-th coefficient that a string of coefficients holds.
pub open spec fn coefficient(coeffs: Seq<u8>, i: int) -> int {
    scalar_value(coeffs.subrange(SCALAR_SIZE * i, SCALAR_SIZE * i + SCALAR_SIZE))
}

/// The coefficients that a string holds, the constant term first.
pub open spec fn coefficients(coeffs: Seq<u8>) -> Seq<int> {
    Seq::new((coeffs.len() / SCALAR_SIZE as nat) as nat, |i: int| coefficient(coeffs, i))
}

/// The value of a polynomial at `x`, over the integers.
pub open spec fn poly_eval(c: Seq<int>, x: int) -> int
    decreases c.len(),
{
    if c.len() == 0 {
        0
    } else {
        c[0] + x * poly_eval(c.skip(1), x)
    }
}

/// The value of a polynomial at a point of the scalar field, by Horner's rule.
///
/// Fails with `InvalidParameters` where the coefficients are no whole number of scalars
/// or the point is no scalar.
pub fn evaluate(coeffs: &[u8], x: &[u8]) -> (res: Result<Vec<u8>, TibeError>)
    ensures
        res is Err <==> coeffs@.len() % SCALAR_SIZE as nat != 0 || x@.len() != SCALAR_SIZE,
        res matches Err(e) ==> e == TibeError::InvalidParameters,
        res matches Ok(r) ==> is_canonical_scalar(r@) && be_value(r@) == poly_eval(
            coefficients(coeffs@),
            scalar_value(x@),
        ) % order(),
{
    if coeffs.len() % SCALAR_SIZE != 0 || x.len() != SCALAR_SIZE {
        return Err(TibeError::InvalidParameters);
    }
    let total: usize = coeffs.len();
    let k: usize = total / SCALAR_SIZE;
    let ghost c = coefficients(coeffs@);
    let ghost at = scalar_value(x@);
    let mut acc: Vec<u8> = scalar_from_u32(0);
    let mut i: usize = k;
    proof {
        lemma_order_bounds();
        assert(c.skip(k as int) =~= Seq::<int>::empty());
        lemma_small_mod(0, order() as nat);
    }
    while i > 0
        invariant
            i <= k,
            k == coeffs@.len() / SCALAR_SIZE as nat,
            coeffs@.len() == k * SCALAR_SIZE,
            coeffs@.len() == total,
            x@.len() == SCALAR_SIZE,
            c == coefficients(coeffs@),
            at == scalar_value(x@),
            is_canonical_scalar(acc@),
            be_value(acc@) == poly_eval(c.skip(i as int), at) % order(),
        decreases i,
    {
        i -= 1;
        assert(i * SCALAR_SIZE + SCALAR_SIZE <= k * SCALAR_SIZE) by (nonlinear_arith)
            requires
                i < k,
        ;
        let term = slice_subrange(coeffs, i * SCALAR_SIZE, i * SCALAR_SIZE + SCALAR_SIZE);
        let mut product = fe_mul(acc.as_slice(), x);
        let next = fe_add(product.as_slice(), term);
        proof {
            let rest = poly_eval(c.skip(i + 1), at);
            lemma_order_bounds();
            lemma_scalar_value_range(acc@);
            lemma_scalar_value_range(product@);
            lemma_scalar_value_range(term@);
            assert(c.skip(i as int).skip(1) =~= c.skip(i + 1));
            assert(c.skip(i as int)[0] == c[i as int]);
            assert(c[i as int] == scalar_value(term@));
            lemma_mul_mod_noop_left(rest, at, order());
            lemma_small_mod(scalar_value(term@) as nat, order() as nat);
            lemma_add_mod_noop(rest * at, scalar_value(term@), order());
            assert(rest * at == at * rest) by (nonlinear_arith);
        }
        wipe(&mut product);
        wipe(&mut acc);
        acc = next;
    }
    assert(c.skip(0) =~= c);
    Ok(acc)
}

} // verus!
