//! The dealer: splits a master secret among `n` parties with threshold `k`.

use crate::bytes::{append, is_canonical, scalar_from_u32};
use crate::element::{g1_holds, g1_scale, g2_holds, g2_scale};
use crate::errors::TibeError;
use crate::group::{g1_exponent, g1_generator, g2_exponent, g2_generator, is_g1, is_g2, G1_SIZE};
use crate::poly::{coefficient, coefficients, evaluate, poly_eval};
use crate::sampling::{all_canonical, chunk, sample_scalars};
use crate::scalar::{
    is_canonical_scalar, lemma_order_bounds, lemma_scalar_value_range, order, SCALAR_SIZE,
};
use crate::secret::wipe;
use crate::types::{PublicKey, PublicKeyView, Share, VerificationKey};
use vstd::arithmetic::div_mod::{lemma_mod_twice, lemma_small_mod};
use vstd::prelude::*;
use vstd::slice::slice_subrange;

verus! {

/// The entry of party `j` in a verification key.
pub open spec fn vk_entry(vk: Seq<u8>, j: int) -> Seq<u8> {
    vk.subrange(G1_SIZE * (j - 1), G1_SIZE * j)
}

/// The coefficients of the master polynomial that a seed holds: all of it but the last
/// two scalars.
pub open spec fn seed_coefficients(seed: Seq<u8>, k: int) -> Seq<int> {
    coefficients(seed.subrange(0, SCALAR_SIZE * k))
}

/// Party `j` holds the value of the polynomial at `j`, in G2 as its share and in G1 as
/// its entry of the verification key.
pub open spec fn party_holds(c: Seq<int>, vk: Seq<u8>, shares: Seq<Share>, j: int) -> bool {
    &&& g1_holds(vk_entry(vk, j), poly_eval(c, j))
    &&& shares[j - 1]@.j == j
    &&& g2_holds(shares[j - 1]@.value, poly_eval(c, j))
}

/// Public key, verification key and shares are what the dealer derives from the seed:
/// `k` coefficients of the master polynomial, the constant term first, and then the
/// exponents of `h1` and of `h2`.
pub open spec fn is_setup(
    n: int,
    k: int,
    seed: Seq<u8>,
    pk: PublicKeyView,
    vk: Seq<u8>,
    shares: Seq<Share>,
) -> bool {
    &&& 1 <= k <= n
    &&& seed.len() == SCALAR_SIZE * (k + 2)
    &&& pk.wf()
    &&& pk.n == n
    &&& pk.k == k
    &&& g1_holds(pk.g1, seed_coefficients(seed, k)[0])
    &&& g2_holds(pk.h1, coefficient(seed, k))
    &&& g2_holds(pk.h2, coefficient(seed, k + 1))
    &&& vk.len() == G1_SIZE * n
    &&& shares.len() == n
    &&& forall|j: int|
        1 <= j <= n ==> #[trigger] party_holds(seed_coefficients(seed, k), vk, shares, j)
}

/// The seed is of no use: the master secret, the exponent of `h1` or of `h2`, or a
/// party's value of the polynomial is zero, so that an element would be the identity.
pub open spec fn seed_degenerate(n: int, k: int, seed: Seq<u8>) -> bool {
    ||| seed_coefficients(seed, k)[0] % order() == 0
    ||| coefficient(seed, k) % order() == 0
    ||| coefficient(seed, k + 1) % order() == 0
    ||| exists|j: int|
        1 <= j <= n && #[trigger] poly_eval(seed_coefficients(seed, k), j) % order() == 0
}

/// The error that the dealer's work on a seed owes, if any.
pub open spec fn setup_error(n: int, k: int, seed: Seq<u8>) -> Option<TibeError> {
    if !(1 <= k <= n) || seed.len() != SCALAR_SIZE * (k + 2) {
        Some(TibeError::InvalidParameters)
    } else if !all_canonical(seed, k + 2) {
        Some(TibeError::ModulusMismatch)
    } else if seed_degenerate(n, k, seed) {
        Some(TibeError::InvalidParameters)
    } else {
        None
    }
}

/// The dealer's work on a given seed of `48 * (k + 2)` bytes. The seed is wiped before
/// the call returns, whatever the outcome.
///
/// Fails with `InvalidParameters` where the threshold is not in `1..=n`, the seed has the
/// wrong length, or the seed is degenerate, and with `ModulusMismatch` where a scalar of
/// the seed is not below the group order: no scalar is reduced in silence.
pub fn setup_with(n: i32, k: i32, seed: &mut Vec<u8>) -> (res: Result<
    (PublicKey, VerificationKey, Vec<Share>),
    TibeError,
>)
    ensures
        final(seed)@ == Seq::<u8>::empty(),
        match res {
            Ok(out) => setup_error(n as int, k as int, old(seed)@) is None && is_setup(
                n as int,
                k as int,
                old(seed)@,
                out.0@,
                out.1@,
                out.2@,
            ) && out.1@.len() == G1_SIZE * n && out.2@.len() == n,
            Err(e) => setup_error(n as int, k as int, old(seed)@) == Some(e),
        },
{
    if k < 1 || k > n {
        wipe(seed);
        return Err(TibeError::InvalidParameters);
    }
    let width: u64 = SCALAR_SIZE as u64;
    let wanted: u64 = width * (k as u64 + 2);
    if seed.len() as u64 != wanted {
        wipe(seed);
        return Err(TibeError::InvalidParameters);
    }
    let total: usize = seed.len();
    let mut at: usize = 0;
    while at < k as usize + 2
        invariant
            1 <= k <= n,
            total == seed@.len(),
            at <= k + 2,
            seed@ == old(seed)@,
            seed@.len() == SCALAR_SIZE * (k + 2),
            forall|p: int| 0 <= p < at ==> is_canonical_scalar(#[trigger] chunk(seed@, p)),
        decreases k + 2 - at,
    {
        let scalar = slice_subrange(
            seed.as_slice(),
            SCALAR_SIZE * at,
            SCALAR_SIZE * at + SCALAR_SIZE,
        );
        assert(scalar@ == chunk(seed@, at as int));
        if !is_canonical(scalar) {
            wipe(seed);
            return Err(TibeError::ModulusMismatch);
        }
        at += 1;
    }
    let cut: usize = SCALAR_SIZE * (k as usize);
    let ghost c = seed_coefficients(seed@, k as int);
    let coeffs = slice_subrange(seed.as_slice(), 0, cut);
    let alpha = slice_subrange(seed.as_slice(), 0, SCALAR_SIZE);
    let beta = slice_subrange(seed.as_slice(), cut, cut + SCALAR_SIZE);
    let gamma = slice_subrange(seed.as_slice(), cut + SCALAR_SIZE, cut + 2 * SCALAR_SIZE);
    let g = g1_generator();
    let g2 = g2_generator();
    proof {
        lemma_order_bounds();
        assert(coeffs@.len() / SCALAR_SIZE as nat == k);
        assert(alpha@ =~= coeffs@.subrange(SCALAR_SIZE * 0, SCALAR_SIZE * 0 + SCALAR_SIZE));
        assert(c[0] == coefficient(coeffs@, 0));
        lemma_scalar_value_range(alpha@);
        lemma_scalar_value_range(beta@);
        lemma_scalar_value_range(gamma@);
        lemma_small_mod(c[0] as nat, order() as nat);
        lemma_small_mod(coefficient(seed@, k as int) as nat, order() as nat);
        lemma_small_mod(coefficient(seed@, k + 1) as nat, order() as nat);
        assert(gamma@ =~= seed@.subrange(
            SCALAR_SIZE * (k + 1),
            SCALAR_SIZE * (k + 1) + SCALAR_SIZE,
        ));
        assert(1 * c[0] == c[0]);
        assert(1 * coefficient(seed@, k as int) == coefficient(seed@, k as int));
        assert(1 * coefficient(seed@, k + 1) == coefficient(seed@, k + 1));
    }
    let g1 = match g1_scale(g.as_slice(), alpha) {
        Some(v) => v,
        None => {
            wipe(seed);
            return Err(TibeError::InvalidParameters);
        },
    };
    let h1 = match g2_scale(g2.as_slice(), beta) {
        Some(v) => v,
        None => {
            wipe(seed);
            return Err(TibeError::InvalidParameters);
        },
    };
    let h2 = match g2_scale(g2.as_slice(), gamma) {
        Some(v) => v,
        None => {
            wipe(seed);
            return Err(TibeError::InvalidParameters);
        },
    };
    let mut vk: Vec<u8> = Vec::new();
    let mut shares: Vec<Share> = Vec::new();
    let mut j: i32 = 0;
    while j < n
        invariant
            0 <= j <= n,
            1 <= k <= n,
            seed@ == old(seed)@,
            seed@.len() == SCALAR_SIZE * (k + 2),
            all_canonical(seed@, k + 2),
            cut == SCALAR_SIZE * k,
            coeffs@ == seed@.subrange(0, cut as int),
            c == seed_coefficients(seed@, k as int),
            is_g1(g@) && g1_exponent(g@) == 1,
            is_g2(g2@) && g2_exponent(g2@) == 1,
            vk@.len() == G1_SIZE * j,
            shares@.len() == j,
            forall|i: int| 1 <= i <= j ==> #[trigger] party_holds(c, vk@, shares@, i),
            forall|i: int| 1 <= i <= j ==> #[trigger] poly_eval(c, i) % order() != 0,
        decreases n - j,
    {
        j += 1;
        let x = scalar_from_u32(j as u32);
        let mut y = match evaluate(coeffs, x.as_slice()) {
            Ok(v) => v,
            Err(_) => {
                wipe(seed);
                return Err(TibeError::InvalidParameters);
            },
        };
        let share = g2_scale(g2.as_slice(), y.as_slice());
        let entry = g1_scale(g.as_slice(), y.as_slice());
        proof {
            lemma_order_bounds();
            lemma_scalar_value_range(x@);
            lemma_scalar_value_range(y@);
            lemma_small_mod(j as nat, order() as nat);
            lemma_mod_twice(poly_eval(c, j as int), order());
            assert(1 * (poly_eval(c, j as int) % order()) == poly_eval(c, j as int) % order());
        }
        wipe(&mut y);
        match (share, entry) {
            (Some(value), Some(point)) => {
                let ghost before = vk@;
                let ghost held = shares@;
                append(&mut vk, point.as_slice());
                shares.push(Share { j, value });
                proof {
                    assert(vk_entry(vk@, j as int) =~= point@);
                    assert forall|i: int| 1 <= i <= j implies #[trigger] party_holds(
                        c,
                        vk@,
                        shares@,
                        i,
                    ) by {
                        if i < j {
                            assert(party_holds(c, before, held, i));
                            assert(vk_entry(vk@, i) =~= vk_entry(before, i));
                            assert(shares@[i - 1] == held[i - 1]);
                        }
                    }
                }
            },
            _ => {
                wipe(seed);
                return Err(TibeError::InvalidParameters);
            },
        }
    }
    let pk = PublicKey::assemble(n, k, g, g1, g2, h1, h2);
    wipe(seed);
    Ok((pk, VerificationKey(vk), shares))
}

/// The dealer's work: draws the master polynomial and the exponents of `h1` and of `h2`
/// from the operating system's entropy source and derives public key, verification key and
/// shares. The seed drawn is wiped before the call returns.
///
/// Fails with `InvalidParameters` where the threshold is not in `1..=n`, and with
/// `EntropyFailure` where the entropy source fails or what it gave is of no use.
pub fn setup(n: i32, k: i32) -> (res: Result<(PublicKey, VerificationKey, Vec<Share>), TibeError>)
    ensures
        !(1 <= k <= n) <==> res == Err::<(PublicKey, VerificationKey, Vec<Share>), TibeError>(
            TibeError::InvalidParameters,
        ),
        res matches Err(e) ==> e == TibeError::InvalidParameters || e == TibeError::EntropyFailure,
        res matches Ok(out) ==> out.1@.len() == G1_SIZE * n && out.2@.len() == n,
        res matches Ok(out) ==> exists|seed: Seq<u8>|
            is_setup(n as int, k as int, seed, out.0@, out.1@, out.2@),
{
    if k < 1 || k > n {
        return Err(TibeError::InvalidParameters);
    }
    let mut seed = match sample_scalars(k as usize + 2) {
        Some(v) => v,
        None => {
            return Err(TibeError::EntropyFailure);
        },
    };
    let ghost drawn = seed@;
    match setup_with(n, k, &mut seed) {
        Ok(out) => {
            assert(is_setup(n as int, k as int, drawn, out.0@, out.1@, out.2@));
            Ok(out)
        },
        Err(_) => Err(TibeError::EntropyFailure),
    }
}

} // verus!
