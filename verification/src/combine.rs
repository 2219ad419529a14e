//! The combiner: makes the private key of an identity from partial keys.

use crate::element::{
    g1_holds, g1_join, g1_opt_exponent, g1_opt_valid, g1_scale, g1_valid, g2_holds, g2_join,
    g2_opt_exponent, g2_opt_valid, g2_scale, g2_valid,
};
use crate::errors::TibeError;
use crate::group::{
    g1_exponent, g2_exponent, is_g1, is_g2, lemma_g1_exponent, lemma_g2_exponent, G1_SIZE,
};
use crate::lagrange::{
    as_ints, gap, invertible, lagrange_at_zero, lagrange_coefficient, nodes_apart,
};
use crate::modular::lemma_small_not_multiple;
use crate::scalar::{lemma_order_bounds, lemma_scalar_value_range, order};
use crate::secret::wipe;
use crate::types::{
    CombinedPrivateKey, PartialDecryptionKey, PrivateKeyView, PublicKey, PublicKeyView,
    VerificationKey, ID,
};
use vstd::arithmetic::div_mod::{lemma_add_mod_noop, lemma_mul_mod_noop_general, lemma_small_mod};
use vstd::prelude::*;

verus! {

/// The indices of the partial keys, in their order.
pub open spec fn key_indices(keys: Seq<PartialDecryptionKey>) -> Seq<int> {
    Seq::new(keys.len(), |i: int| keys[i]@.j)
}

/// The exponents of the first components of the partial keys.
pub open spec fn first_exponents(keys: Seq<PartialDecryptionKey>) -> Seq<int> {
    Seq::new(keys.len(), |i: int| g2_exponent(keys[i]@.w0))
}

/// The exponents of the second components of the partial keys.
pub open spec fn second_exponents(keys: Seq<PartialDecryptionKey>) -> Seq<int> {
    Seq::new(keys.len(), |i: int| g1_exponent(keys[i]@.w1))
}

/// The sum, over the first `upto` positions, of the exponent at a position times the
/// Lagrange coefficient of that position.
pub open spec fn interpolated(xs: Seq<int>, es: Seq<int>, upto: int) -> int
    decreases upto,
{
    if upto <= 0 {
        0
    } else {
        interpolated(xs, es, upto - 1) + lagrange_at_zero(xs, upto - 1) * es[upto - 1]
    }
}

/// The index that the partial key at position `a` carries.
pub open spec fn index_at(keys: Seq<PartialDecryptionKey>, a: int) -> int {
    keys[a]@.j
}

/// The partial key at position `a` holds an element of G2 and one of G1.
pub open spec fn well_formed_at(keys: Seq<PartialDecryptionKey>, a: int) -> bool {
    is_g2(keys[a]@.w0) && is_g1(keys[a]@.w1)
}

/// Two of the partial keys carry the same index.
pub open spec fn has_duplicate(keys: Seq<PartialDecryptionKey>) -> bool {
    exists|a: int, b: int|
        0 <= a < b < keys.len() && #[trigger] index_at(keys, a) == #[trigger] index_at(keys, b)
}

/// Some partial key carries an index outside `1..=n`.
pub open spec fn has_foreign_index(keys: Seq<PartialDecryptionKey>, n: int) -> bool {
    exists|a: int| 0 <= a < keys.len() && !(1 <= #[trigger] index_at(keys, a) <= n)
}

/// Some partial key holds what is no element of its group.
pub open spec fn has_malformed(keys: Seq<PartialDecryptionKey>) -> bool {
    exists|a: int| 0 <= a < keys.len() && !#[trigger] well_formed_at(keys, a)
}

/// A component of the combined key would be the identity.
pub open spec fn combination_vanishes(keys: Seq<PartialDecryptionKey>) -> bool {
    ||| interpolated(key_indices(keys), first_exponents(keys), keys.len() as int) % order() == 0
    ||| interpolated(key_indices(keys), second_exponents(keys), keys.len() as int) % order() == 0
}

/// The error that combining owes, if any.
pub open spec fn combine_error(
    pk: PublicKeyView,
    vk: Seq<u8>,
    keys: Seq<PartialDecryptionKey>,
) -> Option<TibeError> {
    if keys.len() < pk.k {
        Some(TibeError::InsufficientShares)
    } else if has_duplicate(keys) {
        Some(TibeError::DuplicateShareIndex)
    } else if has_foreign_index(keys, pk.n) {
        Some(TibeError::InvalidShareIndex)
    } else if vk.len() != G1_SIZE * pk.n || has_malformed(keys) {
        Some(TibeError::SerializationError)
    } else if combination_vanishes(keys) {
        Some(TibeError::VerificationFailure)
    } else {
        None
    }
}

/// The private key is the Lagrange combination of the partial keys: in each component,
/// the sum of the partial keys' elements, each times the coefficient of its index. The
/// indices differ pairwise by numbers that have an inverse in the scalar field.
pub open spec fn is_combined(keys: Seq<PartialDecryptionKey>, out: PrivateKeyView) -> bool {
    &&& nodes_apart(key_indices(keys))
    &&& g2_holds(
        out.w0,
        interpolated(key_indices(keys), first_exponents(keys), keys.len() as int),
    )
    &&& g1_holds(
        out.w1,
        interpolated(key_indices(keys), second_exponents(keys), keys.len() as int),
    )
}

/// Whether two of the partial keys carry the same index.
fn find_duplicate(keys: &Vec<PartialDecryptionKey>) -> (found: bool)
    ensures
        found == has_duplicate(keys@),
{
    let mut b: usize = 0;
    while b < keys.len()
        invariant
            b <= keys@.len(),
            forall|p: int, r: int|
                0 <= p < r < b ==> #[trigger] index_at(keys@, p) != #[trigger] index_at(keys@, r),
        decreases keys@.len() - b,
    {
        let mut a: usize = 0;
        while a < b
            invariant
                a <= b < keys@.len(),
                forall|p: int, r: int|
                    0 <= p < r < b ==> #[trigger] index_at(keys@, p) != #[trigger] index_at(
                        keys@,
                        r,
                    ),
                forall|p: int|
                    0 <= p < a ==> #[trigger] index_at(keys@, p) != index_at(keys@, b as int),
            decreases b - a,
        {
            if keys[a].j == keys[b].j {
                assert(index_at(keys@, a as int) == index_at(keys@, b as int));
                return true;
            }
            a += 1;
        }
        b += 1;
    }
    false
}

/// The indices of the partial keys, where all lie in `1..=n` and every key holds
/// elements of the two groups.
fn checked_indices(keys: &Vec<PartialDecryptionKey>, n: i32) -> (res: Result<Vec<u32>, TibeError>)
    ensures
        res == Err::<Vec<u32>, TibeError>(TibeError::InvalidShareIndex) <==> has_foreign_index(
            keys@,
            n as int,
        ),
        res == Err::<Vec<u32>, TibeError>(TibeError::SerializationError) <==> !has_foreign_index(
            keys@,
            n as int,
        ) && has_malformed(keys@),
        res matches Err(e) ==> e == TibeError::InvalidShareIndex || e
            == TibeError::SerializationError,
        res matches Ok(xs) ==> as_ints(xs@) == key_indices(keys@),
{
    let mut xs: Vec<u32> = Vec::new();
    let mut a: usize = 0;
    while a < keys.len()
        invariant
            a <= keys@.len(),
            xs@.len() == a,
            forall|p: int|
                0 <= p < a ==> 1 <= #[trigger] index_at(keys@, p) <= n && xs@[p] == index_at(
                    keys@,
                    p,
                ),
        decreases keys@.len() - a,
    {
        if keys[a].j < 1 || keys[a].j > n {
            assert(!(1 <= index_at(keys@, a as int) <= n));
            return Err(TibeError::InvalidShareIndex);
        }
        xs.push(keys[a].j as u32);
        a += 1;
    }
    let mut b: usize = 0;
    while b < keys.len()
        invariant
            b <= keys@.len(),
            xs@.len() == keys@.len(),
            forall|p: int|
                0 <= p < keys@.len() ==> 1 <= #[trigger] index_at(keys@, p) <= n && xs@[p]
                    == index_at(keys@, p),
            forall|p: int| 0 <= p < b ==> #[trigger] well_formed_at(keys@, p),
        decreases keys@.len() - b,
    {
        let key = &keys[b];
        if !g2_valid(key.w0.as_slice()) || !g1_valid(key.w1.as_slice()) {
            assert(!well_formed_at(keys@, b as int));
            return Err(TibeError::SerializationError);
        }
        assert(well_formed_at(keys@, b as int));
        b += 1;
    }
    assert forall|p: int| 0 <= p < keys@.len() implies as_ints(xs@)[p] == key_indices(keys@)[p] by {
        assert(xs@[p] == index_at(keys@, p));
    }
    assert(as_ints(xs@) =~= key_indices(keys@));
    Ok(xs)
}

/// The private key of an identity from at least `k` partial keys with distinct indices.
/// The partial keys are expected to have passed `shareVerify`; they are not verified
/// again.
///
/// Fails with `InsufficientShares` where fewer than `k` partial keys are given, with
/// `DuplicateShareIndex` where two carry the same index, with `InvalidShareIndex` where
/// an index is no party's, with `SerializationError` where the verification key has the
/// wrong length or a partial key holds what is no group element, and with
/// `VerificationFailure` where a component of the result would be the identity.
pub fn combine(
    pk: &PublicKey,
    vk: &VerificationKey,
    id: &ID,
    shares: &Vec<PartialDecryptionKey>,
) -> (res: Result<CombinedPrivateKey, TibeError>)
    ensures
        match res {
            Ok(key) => combine_error(pk@, vk@, shares@) is None && is_combined(shares@, key@),
            Err(e) => combine_error(pk@, vk@, shares@) == Some(e),
        },
{
    let n = pk.n();
    let k = pk.k();
    if shares.len() < k as usize {
        return Err(TibeError::InsufficientShares);
    }
    if find_duplicate(shares) {
        return Err(TibeError::DuplicateShareIndex);
    }
    let indices = match checked_indices(shares, n) {
        Ok(xs) => xs,
        Err(TibeError::InvalidShareIndex) => {
            return Err(TibeError::InvalidShareIndex);
        },
        Err(_) => {
            return Err(TibeError::SerializationError);
        },
    };
    if vk.0.len() as u64 != (G1_SIZE as u64) * (n as u64) {
        return Err(TibeError::SerializationError);
    }
    let ghost xs = key_indices(shares@);
    let ghost e0 = first_exponents(shares@);
    let ghost e1 = second_exponents(shares@);
    let mut w0: Option<Vec<u8>> = None;
    let mut w1: Option<Vec<u8>> = None;
    let mut i: usize = 0;
    proof {
        lemma_order_bounds();
        lemma_small_mod(0, order() as nat);
    }
    while i < shares.len()
        invariant
            i <= shares@.len(),
            indices@.len() == shares@.len(),
            as_ints(indices@) == xs,
            xs == key_indices(shares@),
            e0 == first_exponents(shares@),
            e1 == second_exponents(shares@),
            !has_malformed(shares@),
            !has_duplicate(shares@),
            !has_foreign_index(shares@, n as int),
            forall|a: int, b: int|
                0 <= a < i && 0 <= b < shares@.len() && a != b ==> invertible(
                    #[trigger] gap(xs, a, b),
                ),
            g2_opt_valid(w0),
            g1_opt_valid(w1),
            g2_opt_exponent(w0) == interpolated(xs, e0, i as int) % order(),
            g1_opt_exponent(w1) == interpolated(xs, e1, i as int) % order(),
        decreases shares@.len() - i,
    {
        let key = &shares[i];
        assert(well_formed_at(shares@, i as int));
        let mut weight = match lagrange_coefficient(indices.as_slice(), i) {
            Ok(v) => v,
            Err(_) => {
                return Err(TibeError::SerializationError);
            },
        };
        let first = g2_scale(key.w0.as_slice(), weight.as_slice());
        let second = g1_scale(key.w1.as_slice(), weight.as_slice());
        proof {
            let q = order();
            let lam = lagrange_at_zero(xs, i as int);
            lemma_order_bounds();
            lemma_scalar_value_range(weight@);
            lemma_mul_mod_noop_general(e0[i as int], lam, q);
            lemma_mul_mod_noop_general(e1[i as int], lam, q);
            lemma_add_mod_noop(interpolated(xs, e0, i as int), lam * e0[i as int], q);
            lemma_add_mod_noop(interpolated(xs, e1, i as int), lam * e1[i as int], q);
            assert(e0[i as int] * lam == lam * e0[i as int]) by (nonlinear_arith);
            assert(e1[i as int] * lam == lam * e1[i as int]) by (nonlinear_arith);
            lemma_small_mod(g2_opt_exponent(first) as nat, q as nat);
            lemma_small_mod(g1_opt_exponent(second) as nat, q as nat);
            lemma_small_mod(g2_opt_exponent(w0) as nat, q as nat);
            lemma_small_mod(g1_opt_exponent(w1) as nat, q as nat);
            assert forall|b: int| 0 <= b < shares@.len() && b != i implies invertible(
                #[trigger] gap(xs, i as int, b),
            ) by {
                let low = if b < i { b } else { i as int };
                let high = if b < i { i as int } else { b };
                assert(index_at(shares@, low) != index_at(shares@, high));
                assert(1 <= index_at(shares@, b) <= n);
                assert(1 <= index_at(shares@, i as int) <= n);
                lemma_small_not_multiple(xs[b] - xs[i as int]);
            }
        }
        wipe(&mut weight);
        w0 = g2_join(w0, first);
        w1 = g1_join(w1, second);
        i += 1;
    }
    match (w0, w1) {
        (Some(w0), Some(w1)) => {
            proof {
                lemma_g2_exponent(w0@);
                lemma_g1_exponent(w1@);
            }
            Ok(CombinedPrivateKey { w0, w1 })
        },
        _ => Err(TibeError::VerificationFailure),
    }
}

} // verus!
