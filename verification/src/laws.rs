//! What holds of the scheme as a whole.

use crate::cipher::{
    is_ciphertext, is_private_key, recovered_element, session_element, tag_input, validate_spec,
};
use crate::combine::{first_exponents, interpolated, is_combined, key_indices, second_exponents};
use crate::element::{lemma_g1_holds_unique, lemma_g2_holds_unique};
use crate::group::{g1_exponent, g2_exponent, lemma_g1_exponent, lemma_g2_exponent};
use crate::identity::{binding_exponent, encoding_exponent, identity_scalar};
use crate::interpolation::{lemma_interpolation, lemma_total_combination, terms, total, values};
use crate::keygen::{is_partial_key, share_verify_spec};
use crate::lagrange::lagrange_at_zero;
use crate::mask::{lemma_mask_twice, masked};
use crate::modular::{eqm, lemma_eqm_add, lemma_eqm_mod, lemma_eqm_mul, lemma_eqm_sub};
use crate::poly::poly_eval;
use crate::reorder::{is_permutation, lemma_terms_permuted, permuted};
use crate::scalar::{hash_to_scalar, lemma_order_bounds, order, scalar_value, SCALAR_SIZE};
use crate::setup::{is_setup, party_holds, seed_coefficients};
use crate::types::{
    CiphertextView, PartialDecryptionKey, PartialKeyView, PrivateKeyView, PublicKeyView, Share,
};
use vstd::arithmetic::div_mod::lemma_small_mod;
use vstd::prelude::*;

verus! {

/// Completeness of verification: whatever the dealer's seed, the party, the identity and
/// the blinding scalar, the partial key that a party derives from its share passes public
/// verification.
pub proof fn law_honest_partial_key_verifies(
    n: int,
    k: int,
    seed: Seq<u8>,
    pk: PublicKeyView,
    vk: Seq<u8>,
    shares: Seq<Share>,
    j: int,
    id: Seq<u8>,
    rho: int,
    key: PartialKeyView,
)
    requires
        is_setup(n, k, seed, pk, vk, shares),
        1 <= j <= n,
        is_partial_key(pk, shares[j - 1]@, id, rho, key),
    ensures
        share_verify_spec(pk, vk, id, key),
{
    let q = order();
    let c = seed_coefficients(seed, k);
    let y = poly_eval(c, j);
    let f = encoding_exponent(pk, identity_scalar(id));
    assert(party_holds(c, vk, shares, j));
    lemma_order_bounds();
    lemma_g2_exponent(key.w0);
    lemma_eqm_mod(y);
    lemma_eqm_mod(rho);
    lemma_eqm_mul(rho % q, rho, f, f);
    lemma_eqm_add(y % q, y, (rho % q) * f, rho * f);
    lemma_eqm_add(y % q, y, rho * f, rho * f);
    lemma_small_mod(g2_exponent(key.w0) as nat, q as nat);
}

/// Soundness of verification: a partial key that passes public verification is one that
/// the holder of the share of its index derives for the identity, with the exponent of
/// the key's second component as the blinding scalar.
pub proof fn law_verified_partial_key_is_honest(
    n: int,
    k: int,
    seed: Seq<u8>,
    pk: PublicKeyView,
    vk: Seq<u8>,
    shares: Seq<Share>,
    id: Seq<u8>,
    key: PartialKeyView,
)
    requires
        is_setup(n, k, seed, pk, vk, shares),
        share_verify_spec(pk, vk, id, key),
    ensures
        1 <= key.j <= n,
        is_partial_key(pk, shares[key.j - 1]@, id, g1_exponent(key.w1), key),
{
    let q = order();
    let c = seed_coefficients(seed, k);
    let j = key.j;
    let y = poly_eval(c, j);
    let f = encoding_exponent(pk, identity_scalar(id));
    let rho = g1_exponent(key.w1);
    assert(party_holds(c, vk, shares, j));
    lemma_order_bounds();
    lemma_g1_exponent(key.w1);
    lemma_g2_exponent(key.w0);
    lemma_small_mod(rho as nat, q as nat);
    lemma_small_mod(g2_exponent(key.w0) as nat, q as nat);
}

/// Identity binding: a partial key derived for one identity does not pass verification
/// for another, as long as the blinding scalar times the difference of the two
/// identities' scalars is no multiple of the group order. The order is prime, so that
/// leaves out a blinding scalar of zero and two identities with the same scalar.
pub proof fn law_partial_key_bound_to_identity(
    n: int,
    k: int,
    seed: Seq<u8>,
    pk: PublicKeyView,
    vk: Seq<u8>,
    shares: Seq<Share>,
    j: int,
    id1: Seq<u8>,
    id2: Seq<u8>,
    rho: int,
    key: PartialKeyView,
)
    requires
        is_setup(n, k, seed, pk, vk, shares),
        1 <= j <= n,
        is_partial_key(pk, shares[j - 1]@, id1, rho, key),
        (rho * (identity_scalar(id1) - identity_scalar(id2))) % order() != 0,
    ensures
        !share_verify_spec(pk, vk, id2, key),
{
    let q = order();
    let c = seed_coefficients(seed, k);
    let y = poly_eval(c, j);
    let t1 = identity_scalar(id1);
    let t2 = identity_scalar(id2);
    let f1 = encoding_exponent(pk, t1);
    let f2 = encoding_exponent(pk, t2);
    assert(party_holds(c, vk, shares, j));
    lemma_order_bounds();
    if share_verify_spec(pk, vk, id2, key) {
        lemma_g2_exponent(key.w0);
        lemma_small_mod(g2_exponent(key.w0) as nat, q as nat);
        let e = g2_exponent(key.w0);
        // e is congruent to y + rho * f1 and to y + rho * f2
        lemma_eqm_mod(y);
        lemma_eqm_mod(rho);
        lemma_eqm_mul(rho % q, rho, f2, f2);
        lemma_eqm_add(y % q, y, (rho % q) * f2, rho * f2);
        lemma_eqm_add(y % q, y, rho * f1, rho * f1);
        assert(eqm(y + rho * f2, y + rho * f1));
        lemma_eqm_sub(y + rho * f2, y + rho * f1, y + rho * f2, y + rho * f2);
        assert((y + rho * f2) - (y + rho * f2) == 0);
        assert((y + rho * f1) - (y + rho * f2) == rho * (f1 - f2)) by (nonlinear_arith);
        assert(eqm(0, rho * (f1 - f2)));
        // f1 - f2 is congruent to t1 - t2
        lemma_eqm_mod(t1 + pk.beta());
        lemma_eqm_mod(t2 + pk.beta());
        lemma_eqm_sub(f1, t1 + pk.beta(), f2, t2 + pk.beta());
        assert((t1 + pk.beta()) - (t2 + pk.beta()) == t1 - t2);
        lemma_eqm_mul(rho, rho, f1 - f2, t1 - t2);
        lemma_small_mod(0, q as nat);
        assert(false);
    }
}

/// Validity of what encryption gives: a ciphertext that encryption to an identity gives
/// is valid for that identity, whatever the message and the scalar of the encryption. No
/// key is needed to see it.
pub proof fn law_ciphertext_is_valid(
    pk: PublicKeyView,
    id: Seq<u8>,
    message: Seq<u8>,
    sigma: int,
    ct: CiphertextView,
)
    requires
        is_ciphertext(pk, id, message, sigma, ct),
    ensures
        validate_spec(pk, id, ct),
{
    let q = order();
    let f = encoding_exponent(pk, identity_scalar(id));
    let f2 = binding_exponent(pk, scalar_value(ct.tag));
    lemma_order_bounds();
    lemma_eqm_mod(sigma);
    lemma_eqm_mod(sigma * f);
    lemma_eqm_mod(sigma * f2);
    lemma_eqm_mul(sigma % q, sigma, f, f);
    lemma_eqm_mul(sigma % q, sigma, f2, f2);
}

/// Identity binding of ciphertexts: a ciphertext that encryption to one identity gives
/// is not valid for another, as long as the scalar of the encryption times the
/// difference of the two identities' scalars is no multiple of the group order. The
/// order is prime and the scalar of an encryption is not zero, so that leaves out two
/// identities with the same scalar only.
pub proof fn law_ciphertext_bound_to_identity(
    pk: PublicKeyView,
    id1: Seq<u8>,
    id2: Seq<u8>,
    message: Seq<u8>,
    sigma: int,
    ct: CiphertextView,
)
    requires
        is_ciphertext(pk, id1, message, sigma, ct),
        (sigma * (identity_scalar(id1) - identity_scalar(id2))) % order() != 0,
    ensures
        !validate_spec(pk, id2, ct),
{
    let q = order();
    let t1 = identity_scalar(id1);
    let t2 = identity_scalar(id2);
    let f1 = encoding_exponent(pk, t1);
    let f2 = encoding_exponent(pk, t2);
    lemma_order_bounds();
    if validate_spec(pk, id2, ct) {
        // the exponent of the third component is congruent to sigma * f1 and to sigma * f2
        lemma_eqm_mod(sigma);
        lemma_eqm_mod(sigma * f1);
        lemma_eqm_mul(sigma % q, sigma, f2, f2);
        lemma_eqm_mod((sigma % q) * f2);
        assert(eqm(sigma * f2, sigma * f1));
        lemma_eqm_sub(sigma * f1, sigma * f2, sigma * f2, sigma * f2);
        assert(sigma * f1 - sigma * f2 == sigma * (f1 - f2)) by (nonlinear_arith);
        assert(sigma * f2 - sigma * f2 == 0);
        lemma_eqm_mod(t1 + pk.beta());
        lemma_eqm_mod(t2 + pk.beta());
        lemma_eqm_sub(f1, t1 + pk.beta(), f2, t2 + pk.beta());
        assert((t1 + pk.beta()) - (t2 + pk.beta()) == t1 - t2);
        lemma_eqm_mul(sigma, sigma, f1 - f2, t1 - t2);
        lemma_small_mod(0, q as nat);
        assert(false);
    }
}

/// Decryption inverts encryption: a ciphertext that encryption to an identity gives is
/// valid for that identity, and every private key of the identity recovers the message
/// from it, whatever the scalar of the encryption and the blinding of the key.
pub proof fn law_decrypt_inverts_encrypt(
    pk: PublicKeyView,
    id: Seq<u8>,
    message: Seq<u8>,
    sigma: int,
    ct: CiphertextView,
    rho: int,
    key: PrivateKeyView,
)
    requires
        pk.wf(),
        is_ciphertext(pk, id, message, sigma, ct),
        is_private_key(pk, id, rho, key),
    ensures
        validate_spec(pk, id, ct),
        masked(recovered_element(key, ct), ct.c2) == message,
{
    let q = order();
    let f = encoding_exponent(pk, identity_scalar(id));
    let a = pk.alpha();
    law_ciphertext_is_valid(pk, id, message, sigma, ct);
    lemma_order_bounds();
    lemma_eqm_mod(sigma);
    lemma_eqm_mod(rho);
    lemma_eqm_mod(sigma * f);
    lemma_eqm_mod(a + rho * f);
    // the recovered exponent is congruent to alpha * sigma
    lemma_eqm_mul(sigma % q, sigma, (a + rho * f) % q, a + rho * f);
    lemma_eqm_mul(rho % q, rho, (sigma * f) % q, sigma * f);
    lemma_eqm_sub(
        (sigma % q) * ((a + rho * f) % q),
        sigma * (a + rho * f),
        (rho % q) * ((sigma * f) % q),
        rho * (sigma * f),
    );
    assert(sigma * (a + rho * f) - rho * (sigma * f) == a * sigma) by (nonlinear_arith);
    assert(recovered_element(key, ct) == session_element(pk, sigma));
    lemma_mask_twice(session_element(pk, sigma), message);
}

/// A valid ciphertext is determined by its first two components: two ciphertexts that
/// are valid for one identity and agree in the first and in the second component are the
/// same. So whoever changes the third or the fourth component or the tag of a valid
/// ciphertext, and nothing else, makes it invalid.
pub proof fn law_valid_ciphertext_determined(
    pk: PublicKeyView,
    id: Seq<u8>,
    a: CiphertextView,
    b: CiphertextView,
)
    requires
        validate_spec(pk, id, a),
        validate_spec(pk, id, b),
        a.c1 == b.c1,
        a.c2 == b.c2,
    ensures
        a == b,
{
    lemma_g2_exponent(a.c3);
    lemma_g2_exponent(b.c3);
    lemma_g2_exponent(a.c4);
    lemma_g2_exponent(b.c4);
}

/// Tamper rejection, the part that needs no premise: whoever changes a valid ciphertext
/// and leaves its first two components alone makes it invalid. That covers every change
/// to the third component, the fourth component or the tag.
pub proof fn law_changed_tail_is_invalid(
    pk: PublicKeyView,
    id: Seq<u8>,
    ct: CiphertextView,
    changed: CiphertextView,
)
    requires
        validate_spec(pk, id, ct),
        changed.c1 == ct.c1,
        changed.c2 == ct.c2,
        changed != ct,
    ensures
        !validate_spec(pk, id, changed),
{
    if validate_spec(pk, id, changed) {
        law_valid_ciphertext_determined(pk, id, ct, changed);
    }
}

/// Tamper rejection, the part that rests on the hash: whoever changes the first or the
/// second component of a valid ciphertext and leaves the tag alone makes it invalid,
/// unless the changed components hash to the tag as the old ones did.
pub proof fn law_changed_head_is_invalid(
    pk: PublicKeyView,
    id: Seq<u8>,
    ct: CiphertextView,
    changed: CiphertextView,
)
    requires
        validate_spec(pk, id, ct),
        changed.tag == ct.tag,
        hash_to_scalar(tag_input(changed.c1, changed.c2, changed.c3)) != hash_to_scalar(
            tag_input(ct.c1, ct.c2, ct.c3),
        ),
    ensures
        !validate_spec(pk, id, changed),
{
}

/// The partial key at position `a` is what the holder of the share of its index derives
/// for the identity with the blinding scalar at that position.
pub open spec fn honest_at(
    pk: PublicKeyView,
    shares: Seq<Share>,
    id: Seq<u8>,
    rhos: Seq<int>,
    keys: Seq<PartialDecryptionKey>,
    a: int,
) -> bool {
    &&& 1 <= keys[a]@.j <= shares.len()
    &&& is_partial_key(pk, shares[keys[a]@.j - 1]@, id, rhos[a], keys[a]@)
}

/// Every partial key is honestly derived for the identity, each with its own blinding
/// scalar.
pub open spec fn are_honest(
    pk: PublicKeyView,
    shares: Seq<Share>,
    id: Seq<u8>,
    rhos: Seq<int>,
    keys: Seq<PartialDecryptionKey>,
) -> bool {
    &&& rhos.len() == keys.len()
    &&& forall|a: int| 0 <= a < keys.len() ==> #[trigger] honest_at(pk, shares, id, rhos, keys, a)
}

/// The combined exponent is the sum of the terms.
pub proof fn lemma_interpolated_total(xs: Seq<int>, es: Seq<int>, upto: int)
    requires
        0 <= upto <= xs.len(),
    ensures
        interpolated(xs, es, upto) == total(terms(xs, es), upto),
    decreases upto,
{
    if upto > 0 {
        lemma_interpolated_total(xs, es, upto - 1);
    }
}

/// Threshold issuing: whatever honest partial keys of an identity are combined, as long
/// as they are at least `k`, the result is a private key of that identity. Its blinding
/// is the Lagrange combination of the partial keys' blinding scalars.
pub proof fn law_combined_key_is_private_key(
    n: int,
    k: int,
    seed: Seq<u8>,
    pk: PublicKeyView,
    vk: Seq<u8>,
    shares: Seq<Share>,
    id: Seq<u8>,
    rhos: Seq<int>,
    keys: Seq<PartialDecryptionKey>,
    out: PrivateKeyView,
)
    requires
        is_setup(n, k, seed, pk, vk, shares),
        are_honest(pk, shares, id, rhos, keys),
        keys.len() >= k,
        is_combined(keys, out),
    ensures
        is_private_key(pk, id, interpolated(key_indices(keys), rhos, keys.len() as int), out),
{
    let q = order();
    let len = keys.len() as int;
    let xs = key_indices(keys);
    let c = seed_coefficients(seed, k);
    let f = encoding_exponent(pk, identity_scalar(id));
    let e0 = first_exponents(keys);
    let e1 = second_exponents(keys);
    let held = terms(xs, values(c, xs));
    let blind = terms(xs, rhos);
    lemma_order_bounds();
    assert(c.len() == k) by {
        assert(seed.subrange(0, SCALAR_SIZE * k).len() == 48 * k);
    }
    lemma_interpolation(xs, c);
    assert(c.skip(1).len() == c.len() - 1);
    assert(poly_eval(c, 0) == c[0]) by {
        assert(0 * poly_eval(c.skip(1), 0) == 0);
    }
    lemma_interpolated_total(xs, e0, len);
    lemma_interpolated_total(xs, e1, len);
    lemma_interpolated_total(xs, rhos, len);
    let t0 = terms(xs, e0);
    let t1 = terms(xs, e1);
    assert forall|a: int| 0 <= a < len implies eqm(
        #[trigger] t0[a],
        1 * held[a] + f * blind[a],
    ) by {
        let lam = lagrange_at_zero(xs, a);
        let j = keys[a]@.j;
        let y = poly_eval(c, j);
        assert(honest_at(pk, shares, id, rhos, keys, a));
        assert(party_holds(c, vk, shares, j));
        lemma_eqm_mod(y);
        lemma_eqm_mod(g2_exponent(shares[j - 1]@.value) + rhos[a] * f);
        lemma_eqm_add(g2_exponent(shares[j - 1]@.value), y, rhos[a] * f, rhos[a] * f);
        lemma_eqm_mul(lam, lam, e0[a], y + rhos[a] * f);
        assert(lam * (y + rhos[a] * f) == 1 * (lam * y) + f * (lam * rhos[a]))
            by (nonlinear_arith);
    }
    assert forall|a: int| 0 <= a < len implies eqm(
        #[trigger] t1[a],
        1 * blind[a] + 0 * blind[a],
    ) by {
        let lam = lagrange_at_zero(xs, a);
        assert(honest_at(pk, shares, id, rhos, keys, a));
        lemma_eqm_mod(rhos[a]);
        lemma_eqm_mul(lam, lam, e1[a], rhos[a]);
        assert(lam * rhos[a] == 1 * (lam * rhos[a]) + 0 * (lam * rhos[a])) by (nonlinear_arith);
    }
    lemma_total_combination(t0, held, blind, 1, f, len);
    lemma_total_combination(t1, blind, blind, 1, 0, len);
    let sum = total(blind, len);
    lemma_eqm_mul(f, f, sum, sum);
    lemma_eqm_add(1 * total(held, len), c[0], f * sum, f * sum);
    lemma_eqm_mod(c[0]);
    lemma_eqm_add(pk.alpha(), c[0], sum * f, sum * f);
    assert(f * sum == sum * f) by (nonlinear_arith);
    assert(1 * sum + 0 * sum == sum);
}

/// Threshold invariance: two sets of honest partial keys of one identity, each of at
/// least `k`, combine to the same private key, byte for byte, where the Lagrange
/// combinations of their blinding scalars agree. That is so where every party blinds with
/// the same scalar; with blinding scalars drawn independently the two keys differ in
/// their bytes and still decrypt alike.
pub proof fn law_combined_key_same_for_subsets(
    n: int,
    k: int,
    seed: Seq<u8>,
    pk: PublicKeyView,
    vk: Seq<u8>,
    shares: Seq<Share>,
    id: Seq<u8>,
    rhos1: Seq<int>,
    keys1: Seq<PartialDecryptionKey>,
    out1: PrivateKeyView,
    rhos2: Seq<int>,
    keys2: Seq<PartialDecryptionKey>,
    out2: PrivateKeyView,
)
    requires
        is_setup(n, k, seed, pk, vk, shares),
        are_honest(pk, shares, id, rhos1, keys1),
        are_honest(pk, shares, id, rhos2, keys2),
        keys1.len() >= k,
        keys2.len() >= k,
        is_combined(keys1, out1),
        is_combined(keys2, out2),
        eqm(
            interpolated(key_indices(keys1), rhos1, keys1.len() as int),
            interpolated(key_indices(keys2), rhos2, keys2.len() as int),
        ),
    ensures
        out1 == out2,
{
    let f = encoding_exponent(pk, identity_scalar(id));
    let r1 = interpolated(key_indices(keys1), rhos1, keys1.len() as int);
    let r2 = interpolated(key_indices(keys2), rhos2, keys2.len() as int);
    law_combined_key_is_private_key(n, k, seed, pk, vk, shares, id, rhos1, keys1, out1);
    law_combined_key_is_private_key(n, k, seed, pk, vk, shares, id, rhos2, keys2, out2);
    lemma_eqm_mul(r1, r2, f, f);
    lemma_eqm_add(pk.alpha(), pk.alpha(), r1 * f, r2 * f);
    lemma_g2_holds_unique(out1.w0, out2.w0, pk.alpha() + r1 * f);
    lemma_g1_holds_unique(out1.w1, out2.w1, r1);
}

/// Round trip: the private key that any set of at least `k` honest partial keys of an
/// identity combines to recovers the message from every ciphertext that encryption to
/// that identity gives, and that ciphertext is valid.
pub proof fn law_threshold_round_trip(
    n: int,
    k: int,
    seed: Seq<u8>,
    pk: PublicKeyView,
    vk: Seq<u8>,
    shares: Seq<Share>,
    id: Seq<u8>,
    rhos: Seq<int>,
    keys: Seq<PartialDecryptionKey>,
    key: PrivateKeyView,
    message: Seq<u8>,
    sigma: int,
    ct: CiphertextView,
)
    requires
        is_setup(n, k, seed, pk, vk, shares),
        are_honest(pk, shares, id, rhos, keys),
        keys.len() >= k,
        is_combined(keys, key),
        is_ciphertext(pk, id, message, sigma, ct),
    ensures
        validate_spec(pk, id, ct),
        masked(recovered_element(key, ct), ct.c2) == message,
{
    law_combined_key_is_private_key(n, k, seed, pk, vk, shares, id, rhos, keys, key);
    law_decrypt_inverts_encrypt(
        pk,
        id,
        message,
        sigma,
        ct,
        interpolated(key_indices(keys), rhos, keys.len() as int),
        key,
    );
}

/// Combining does not depend on the order of the partial keys: the same partial keys in
/// another order combine to the same private key, byte for byte.
pub proof fn law_combined_key_independent_of_order(
    keys1: Seq<PartialDecryptionKey>,
    out1: PrivateKeyView,
    keys2: Seq<PartialDecryptionKey>,
    out2: PrivateKeyView,
    perm: Seq<int>,
    inv: Seq<int>,
)
    requires
        is_permutation(perm, inv),
        keys1.len() == perm.len(),
        keys2.len() == perm.len(),
        forall|i: int| 0 <= i < keys2.len() ==> #[trigger] keys2[i]@ == keys1[perm[i]]@,
        is_combined(keys1, out1),
        is_combined(keys2, out2),
    ensures
        out1 == out2,
{
    let len = keys1.len() as int;
    let xs = key_indices(keys1);
    let e0 = first_exponents(keys1);
    let e1 = second_exponents(keys1);
    assert(key_indices(keys2) =~= permuted(xs, perm)) by {
        assert forall|i: int| 0 <= i < len implies key_indices(keys2)[i] == permuted(
            xs,
            perm,
        )[i] by {
            assert(keys2[i]@ == keys1[perm[i]]@);
        }
    }
    assert(first_exponents(keys2) =~= permuted(e0, perm)) by {
        assert forall|i: int| 0 <= i < len implies first_exponents(keys2)[i] == permuted(
            e0,
            perm,
        )[i] by {
            assert(keys2[i]@ == keys1[perm[i]]@);
        }
    }
    assert(second_exponents(keys2) =~= permuted(e1, perm)) by {
        assert forall|i: int| 0 <= i < len implies second_exponents(keys2)[i] == permuted(
            e1,
            perm,
        )[i] by {
            assert(keys2[i]@ == keys1[perm[i]]@);
        }
    }
    lemma_interpolated_total(xs, e0, len);
    lemma_interpolated_total(xs, e1, len);
    lemma_interpolated_total(permuted(xs, perm), permuted(e0, perm), len);
    lemma_interpolated_total(permuted(xs, perm), permuted(e1, perm), len);
    lemma_terms_permuted(xs, e0, perm, inv);
    lemma_terms_permuted(xs, e1, perm, inv);
    lemma_g2_holds_unique(out1.w0, out2.w0, interpolated(xs, e0, len));
    lemma_g1_holds_unique(out1.w1, out2.w1, interpolated(xs, e1, len));
}

} // verus!
