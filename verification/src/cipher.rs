//! Encryption to an identity, the public validity check of a ciphertext, and decryption.

use crate::bytes::{append, bytes_eq, is_canonical, scalar_from_u32};
use crate::element::{g1_holds, g1_scale, g1_valid, g2_holds, g2_valid};
use crate::errors::TibeError;
use crate::group::{
    g1_encoding, g1_exponent, g1_mul, g2_encoding, g2_exponent, g2_mul, gt_encoding, is_g1, is_g2,
    lemma_g1_exponent, lemma_g2_exponent, lemma_gt_exponent, pairing, pairing2,
};
use crate::identity::{
    bind_scalar, binding_exponent, encodable, encode_scalar, encoding_exponent, hash_identity,
    identity_scalar,
};
use crate::mask::{mask, masked};
use crate::sampling::{chunk, sample_scalars};
use crate::scalar::{
    be_value, fe_hash, fe_sub, hash_to_scalar, is_canonical_scalar, lemma_order_bounds,
    lemma_scalar_value_range, order, scalar_value, SCALAR_SIZE,
};
use crate::secret::wipe;
use crate::types::{
    Ciphertext, CiphertextView, CombinedPrivateKey, PrivateKeyView, PublicKey, PublicKeyView, ID,
};
use vstd::arithmetic::div_mod::{
    lemma_add_mod_noop, lemma_mod_multiples_vanish, lemma_mod_twice, lemma_mul_mod_noop_left,
    lemma_small_mod,
};
use vstd::prelude::*;

verus! {

/// The byte that precedes the components of a ciphertext where they are hashed.
pub const TAG_DOMAIN: u8 = 2;

/// What is hashed into the tag of a ciphertext: the first three components.
pub open spec fn tag_input(c1: Seq<u8>, c2: Seq<u8>, c3: Seq<u8>) -> Seq<u8> {
    seq![TAG_DOMAIN] + c1 + c2 + c3
}

/// The session element of an encryption with the scalar `sigma`: the pairing of `g1` and
/// `g2`, raised to `sigma`.
pub open spec fn session_element(pk: PublicKeyView, sigma: int) -> Seq<u8> {
    gt_encoding((pk.alpha() * sigma) % order())
}

/// The ciphertext is what encryption of the message to the identity gives with the
/// scalar `sigma`.
pub open spec fn is_ciphertext(
    pk: PublicKeyView,
    id: Seq<u8>,
    message: Seq<u8>,
    sigma: int,
    ct: CiphertextView,
) -> bool {
    &&& encoding_exponent(pk, identity_scalar(id)) != 0
    &&& binding_exponent(pk, scalar_value(ct.tag)) != 0
    &&& g1_holds(ct.c1, sigma)
    &&& ct.c2 == masked(session_element(pk, sigma), message)
    &&& g2_holds(ct.c3, sigma * encoding_exponent(pk, identity_scalar(id)))
    &&& ct.tag == hash_to_scalar(tag_input(ct.c1, ct.c2, ct.c3))
    &&& g2_holds(ct.c4, sigma * binding_exponent(pk, scalar_value(ct.tag)))
}

/// What the public validity check of a ciphertext decides: the three elements are well
/// formed, the tag is the hash of the first three components, and the third and fourth
/// component are the encodings of the identity, with `h1`, and of the tag, with `h2`,
/// raised to the exponent of the first component.
pub open spec fn validate_spec(pk: PublicKeyView, id: Seq<u8>, ct: CiphertextView) -> bool {
    &&& is_g1(ct.c1)
    &&& is_g2(ct.c3)
    &&& is_g2(ct.c4)
    &&& ct.tag == hash_to_scalar(tag_input(ct.c1, ct.c2, ct.c3))
    &&& encoding_exponent(pk, identity_scalar(id)) != 0
    &&& binding_exponent(pk, scalar_value(ct.tag)) != 0
    &&& (g1_exponent(ct.c1) * encoding_exponent(pk, identity_scalar(id))) % order() == g2_exponent(
        ct.c3,
    )
    &&& (g1_exponent(ct.c1) * binding_exponent(pk, scalar_value(ct.tag))) % order()
        == g2_exponent(ct.c4)
}

/// The private key is one of the identity: the master secret in G2, blinded by the
/// identity's encoding raised to `rho`, and the generator of G1 raised to `rho`.
pub open spec fn is_private_key(
    pk: PublicKeyView,
    id: Seq<u8>,
    rho: int,
    key: PrivateKeyView,
) -> bool {
    &&& g2_holds(key.w0, pk.alpha() + rho * encoding_exponent(pk, identity_scalar(id)))
    &&& g1_holds(key.w1, rho)
}

/// The session element that a private key recovers from a ciphertext: the pairing of the
/// ciphertext's first component with the key's first, over the pairing of the key's
/// second component with the ciphertext's third.
pub open spec fn recovered_element(key: PrivateKeyView, ct: CiphertextView) -> Seq<u8> {
    gt_encoding(
        (g1_exponent(ct.c1) * g2_exponent(key.w0) - g1_exponent(key.w1) * g2_exponent(ct.c3))
            % order(),
    )
}

/// The tag of a ciphertext: the hash of its first three components.
fn compute_tag(c1: &[u8], c2: &[u8], c3: &[u8]) -> (tag: Vec<u8>)
    ensures
        tag@ == hash_to_scalar(tag_input(c1@, c2@, c3@)),
        tag@.len() == SCALAR_SIZE,
{
    let mut input: Vec<u8> = Vec::new();
    input.push(TAG_DOMAIN);
    append(&mut input, c1);
    append(&mut input, c2);
    append(&mut input, c3);
    assert(input@ =~= tag_input(c1@, c2@, c3@));
    fe_hash(input.as_slice())
}

/// The scalar is of no use for encrypting the message: it is zero, or an element of the
/// ciphertext would be the identity.
pub open spec fn encryption_degenerate(
    pk: PublicKeyView,
    id: Seq<u8>,
    message: Seq<u8>,
    sigma: int,
) -> bool {
    ||| sigma % order() == 0
    ||| encoding_exponent(pk, identity_scalar(id)) == 0
    ||| binding_exponent(
        pk,
        scalar_value(
            hash_to_scalar(
                tag_input(
                    g1_encoding(sigma % order()),
                    masked(session_element(pk, sigma), message),
                    g2_encoding(
                        (sigma * encoding_exponent(pk, identity_scalar(id))) % order(),
                    ),
                ),
            ),
        ),
    ) == 0
}

/// The error that encryption with a given scalar owes, if any.
pub open spec fn encrypt_error(
    pk: PublicKeyView,
    id: Seq<u8>,
    message: Seq<u8>,
    s: Seq<u8>,
) -> Option<TibeError> {
    if s.len() != SCALAR_SIZE {
        Some(TibeError::InvalidParameters)
    } else if !is_canonical_scalar(s) {
        Some(TibeError::ModulusMismatch)
    } else if encryption_degenerate(pk, id, message, scalar_value(s)) {
        Some(TibeError::InvalidParameters)
    } else {
        None
    }
}

/// The encryption of a message to an identity with a given scalar of 48 bytes.
///
/// Fails with `InvalidParameters` where the scalar has the wrong length or is of no use,
/// and with `ModulusMismatch` where it is not below the group order.
pub fn encrypt_with(pk: &PublicKey, id: &ID, message: &[u8], s: &[u8]) -> (res: Result<
    Ciphertext,
    TibeError,
>)
    ensures
        match res {
            Ok(ct) => encrypt_error(pk@, id@, message@, s@) is None && is_ciphertext(
                pk@,
                id@,
                message@,
                scalar_value(s@),
                ct@,
            ),
            Err(e) => encrypt_error(pk@, id@, message@, s@) == Some(e),
        },
{
    if s.len() != SCALAR_SIZE {
        return Err(TibeError::InvalidParameters);
    }
    if !is_canonical(s) {
        return Err(TibeError::ModulusMismatch);
    }
    let ghost sigma = scalar_value(s@);
    let ghost f = encoding_exponent(pk@, identity_scalar(id@));
    let t = hash_identity(id.0.as_slice());
    proof {
        lemma_order_bounds();
        lemma_scalar_value_range(t@);
        lemma_scalar_value_range(s@);
        lemma_small_mod(sigma as nat, order() as nat);
    }
    let encoded = match encode_scalar(pk, t.as_slice()) {
        Some(v) => v,
        None => {
            return Err(TibeError::InvalidParameters);
        },
    };
    let c1 = match g1_scale(pk.g().as_slice(), s) {
        Some(v) => v,
        None => {
            return Err(TibeError::InvalidParameters);
        },
    };
    let mut raised = g1_mul(pk.g1().as_slice(), s);
    let mut session = pairing(raised.as_slice(), pk.g2().as_slice());
    wipe(&mut raised);
    let c2 = mask(session.as_slice(), message);
    wipe(&mut session);
    let c3 = g2_mul(encoded.as_slice(), s);
    let tag = compute_tag(c1.as_slice(), c2.as_slice(), c3.as_slice());
    proof {
        assert(1 * sigma == sigma);
        assert(((pk@.alpha() * sigma) % order()) * 1 == (pk@.alpha() * sigma) % order());
        lemma_mod_twice(pk@.alpha() * sigma, order());
        assert(f * sigma == sigma * f) by (nonlinear_arith);
        lemma_g1_exponent(c1@);
        lemma_g2_exponent(c3@);
    }
    let bound = match bind_scalar(pk, tag.as_slice()) {
        Some(v) => v,
        None => {
            return Err(TibeError::InvalidParameters);
        },
    };
    let c4 = g2_mul(bound.as_slice(), s);
    proof {
        let f2 = binding_exponent(pk@, scalar_value(tag@));
        assert(f2 * sigma == sigma * f2) by (nonlinear_arith);
    }
    Ok(Ciphertext { c1, c2, c3, c4, tag })
}

/// The encryption of a message to an identity. The scalar of the encryption is drawn
/// afresh and wiped before the call returns.
///
/// Fails with `InvalidParameters` where the identity cannot be encoded, and with
/// `EntropyFailure` where the entropy source fails or what it gave is of no use.
pub fn encrypt(pk: &PublicKey, id: &ID, m: &[u8]) -> (res: Result<Ciphertext, TibeError>)
    ensures
        encoding_exponent(pk@, identity_scalar(id@)) == 0 <==> res == Err::<Ciphertext, TibeError>(
            TibeError::InvalidParameters,
        ),
        res matches Err(e) ==> e == TibeError::InvalidParameters || e
            == TibeError::EntropyFailure,
        res matches Ok(ct) ==> exists|sigma: int|
            0 < sigma < order() && is_ciphertext(pk@, id@, m@, sigma, ct@),
{
    if !encodable(pk, id.0.as_slice()) {
        return Err(TibeError::InvalidParameters);
    }
    let mut s = match sample_scalars(1) {
        Some(v) => v,
        None => {
            return Err(TibeError::EntropyFailure);
        },
    };
    assert(chunk(s@, 0) =~= s@);
    let res = encrypt_with(pk, id, m, s.as_slice());
    proof {
        lemma_order_bounds();
        lemma_scalar_value_range(s@);
        lemma_small_mod(scalar_value(s@) as nat, order() as nat);
    }
    wipe(&mut s);
    match res {
        Ok(ct) => Ok(ct),
        Err(_) => Err(TibeError::EntropyFailure),
    }
}

/// Whether a ciphertext is well formed for an identity. Needs nothing but the public
/// key, and never fails: whatever is malformed is rejected.
#[allow(non_snake_case)]
pub fn validateCt(pk: &PublicKey, id: &ID, c: &Ciphertext) -> (ok: bool)
    ensures
        ok == validate_spec(pk@, id@, c@),
{
    if !g1_valid(c.c1.as_slice()) || !g2_valid(c.c3.as_slice()) || !g2_valid(c.c4.as_slice()) {
        return false;
    }
    let tag = compute_tag(c.c1.as_slice(), c.c2.as_slice(), c.c3.as_slice());
    if !bytes_eq(tag.as_slice(), c.tag.as_slice()) {
        return false;
    }
    let t = hash_identity(id.0.as_slice());
    proof {
        lemma_order_bounds();
        lemma_scalar_value_range(t@);
    }
    let encoded = match encode_scalar(pk, t.as_slice()) {
        Some(v) => v,
        None => {
            return false;
        },
    };
    let bound = match bind_scalar(pk, tag.as_slice()) {
        Some(v) => v,
        None => {
            return false;
        },
    };
    let g = pk.g();
    let left3 = pairing(c.c1.as_slice(), encoded.as_slice());
    let right3 = pairing(g.as_slice(), c.c3.as_slice());
    let left4 = pairing(c.c1.as_slice(), bound.as_slice());
    let right4 = pairing(g.as_slice(), c.c4.as_slice());
    proof {
        lemma_gt_exponent(left3@);
        lemma_gt_exponent(right3@);
        lemma_gt_exponent(left4@);
        lemma_gt_exponent(right4@);
        lemma_g2_exponent(c@.c3);
        lemma_g2_exponent(c@.c4);
        lemma_small_mod(g2_exponent(c@.c3) as nat, order() as nat);
        lemma_small_mod(g2_exponent(c@.c4) as nat, order() as nat);
        assert(1 * g2_exponent(c@.c3) == g2_exponent(c@.c3));
        assert(1 * g2_exponent(c@.c4) == g2_exponent(c@.c4));
    }
    let third = bytes_eq(left3.as_slice(), right3.as_slice());
    let fourth = bytes_eq(left4.as_slice(), right4.as_slice());
    third && fourth
}

/// The message that a ciphertext holds for an identity. The ciphertext is checked before
/// the private key is touched.
///
/// Fails with `InvalidCiphertext` where the ciphertext does not pass `validateCt`, and
/// with `SerializationError` where the private key holds what is no group element.
pub fn decrypt(pk: &PublicKey, id: &ID, d: &CombinedPrivateKey, c: &Ciphertext) -> (res: Result<
    Vec<u8>,
    TibeError,
>)
    ensures
        res == Err::<Vec<u8>, TibeError>(TibeError::InvalidCiphertext) <==> !validate_spec(
            pk@,
            id@,
            c@,
        ),
        res == Err::<Vec<u8>, TibeError>(TibeError::SerializationError) <==> validate_spec(
            pk@,
            id@,
            c@,
        ) && !(is_g2(d@.w0) && is_g1(d@.w1)),
        res matches Err(e) ==> e == TibeError::InvalidCiphertext || e
            == TibeError::SerializationError,
        res matches Ok(m) ==> m@ == masked(recovered_element(d@, c@), c@.c2),
{
    if !validateCt(pk, id, c) {
        return Err(TibeError::InvalidCiphertext);
    }
    if !g2_valid(d.w0.as_slice()) || !g1_valid(d.w1.as_slice()) {
        return Err(TibeError::SerializationError);
    }
    let zero = scalar_from_u32(0);
    let one = scalar_from_u32(1);
    let minus_one = fe_sub(zero.as_slice(), one.as_slice());
    proof {
        let q = order();
        lemma_order_bounds();
        lemma_scalar_value_range(zero@);
        lemma_scalar_value_range(one@);
        lemma_scalar_value_range(minus_one@);
        lemma_mod_multiples_vanish(1, -1, q);
        lemma_small_mod((q - 1) as nat, q as nat);
        assert(be_value(minus_one@) == q - 1);
    }
    let mut inverse = g1_mul(d.w1.as_slice(), minus_one.as_slice());
    let mut session = pairing2(
        c.c1.as_slice(),
        d.w0.as_slice(),
        inverse.as_slice(),
        c.c3.as_slice(),
    );
    proof {
        let q = order();
        let a = g1_exponent(c@.c1) * g2_exponent(d@.w0);
        let w = g1_exponent(d@.w1);
        let e = g2_exponent(c@.c3);
        let x = (w * (q - 1)) % q;
        lemma_mul_mod_noop_left(w * (q - 1), e, q);
        assert((w * (q - 1)) * e == q * (w * e) + (-(w * e))) by (nonlinear_arith);
        lemma_mod_multiples_vanish(w * e, -(w * e), q);
        assert((x * e) % q == (-(w * e)) % q);
        lemma_add_mod_noop(a, x * e, q);
        lemma_add_mod_noop(a, -(w * e), q);
        assert((a + x * e) % q == (a - w * e) % q);
    }
    wipe(&mut inverse);
    let message = mask(session.as_slice(), c.c2.as_slice());
    wipe(&mut session);
    Ok(message)
}

} // verus!
