//! A party's work: the partial key of one identity, and its public verification.

use crate::bytes::{bytes_eq, copy_range, is_canonical};
use crate::element::{g1_holds, g1_scale, g1_valid, g2_holds, g2_join, g2_scale, g2_valid};
use crate::errors::TibeError;
use crate::group::{
    g1_exponent, g2_exponent, is_g1, is_g2, lemma_g2_exponent, lemma_gt_exponent, pairing, pairing2,
    G1_SIZE,
};
use crate::identity::{
    encodable, encode_scalar, encoding_exponent, hash_identity, identity_scalar,
};
use crate::sampling::{chunk, sample_scalars};
use crate::scalar::{
    is_canonical_scalar, lemma_order_bounds, lemma_scalar_value_range, order, scalar_value,
    SCALAR_SIZE,
};
use crate::secret::wipe;
use crate::setup::vk_entry;
use crate::types::{
    PartialDecryptionKey, PartialKeyView, PublicKey, PublicKeyView, Share, ShareView,
    VerificationKey, ID,
};
use vstd::arithmetic::div_mod::{lemma_add_mod_noop, lemma_mod_twice, lemma_small_mod};
use vstd::prelude::*;
use vstd::slice::slice_subrange;

verus! {

/// The exponent of the first component of the partial key that a share, an identity and
/// a blinding scalar give.
pub open spec fn blinded_exponent(
    pk: PublicKeyView,
    share: ShareView,
    id: Seq<u8>,
    rho: int,
) -> int {
    g2_exponent(share.value) + rho * encoding_exponent(pk, identity_scalar(id))
}

/// The partial key is what the holder of the share derives for the identity with the
/// blinding scalar `rho`.
pub open spec fn is_partial_key(
    pk: PublicKeyView,
    share: ShareView,
    id: Seq<u8>,
    rho: int,
    key: PartialKeyView,
) -> bool {
    &&& key.j == share.j
    &&& encoding_exponent(pk, identity_scalar(id)) != 0
    &&& g2_holds(key.w0, blinded_exponent(pk, share, id, rho))
    &&& g1_holds(key.w1, rho)
}

/// The index is no party's, or not that of the share.
pub open spec fn index_rejected(pk: PublicKeyView, i: int, share: ShareView) -> bool {
    !(1 <= i <= pk.n) || share.j != i
}

/// The blinding scalar is of no use: it is zero, or an element of the key would be the
/// identity.
pub open spec fn blinding_degenerate(
    pk: PublicKeyView,
    share: ShareView,
    id: Seq<u8>,
    rho: int,
) -> bool {
    ||| rho % order() == 0
    ||| encoding_exponent(pk, identity_scalar(id)) == 0
    ||| blinded_exponent(pk, share, id, rho) % order() == 0
}

/// The error that the derivation of a partial key owes, if any.
pub open spec fn share_key_gen_error(
    pk: PublicKeyView,
    i: int,
    share: ShareView,
    id: Seq<u8>,
    r: Seq<u8>,
) -> Option<TibeError> {
    if index_rejected(pk, i, share) {
        Some(TibeError::InvalidShareIndex)
    } else if !is_g2(share.value) {
        Some(TibeError::SerializationError)
    } else if r.len() != SCALAR_SIZE {
        Some(TibeError::InvalidParameters)
    } else if !is_canonical_scalar(r) {
        Some(TibeError::ModulusMismatch)
    } else if blinding_degenerate(pk, share, id, scalar_value(r)) {
        Some(TibeError::InvalidParameters)
    } else {
        None
    }
}

/// What public verification of a partial key decides: the index is a party's, the three
/// elements are well formed, and the pairing of `g` with the first component equals the
/// pairing of the party's verification entry with `g2` times the pairing of the second
/// component with the identity's encoding.
pub open spec fn share_verify_spec(
    pk: PublicKeyView,
    vk: Seq<u8>,
    id: Seq<u8>,
    key: PartialKeyView,
) -> bool {
    &&& vk.len() == G1_SIZE * pk.n
    &&& 1 <= key.j <= pk.n
    &&& is_g1(vk_entry(vk, key.j))
    &&& is_g2(key.w0)
    &&& is_g1(key.w1)
    &&& encoding_exponent(pk, identity_scalar(id)) != 0
    &&& (g1_exponent(vk_entry(vk, key.j)) + g1_exponent(key.w1) * encoding_exponent(
        pk,
        identity_scalar(id),
    )) % order() == g2_exponent(key.w0)
}

/// Whether index and share are fit for deriving a partial key.
fn check_share(pk: &PublicKey, i: i32, ski: &Share) -> (res: Result<(), TibeError>)
    ensures
        pk@.wf(),
        res == Err::<(), TibeError>(TibeError::InvalidShareIndex) <==> index_rejected(
            pk@,
            i as int,
            ski@,
        ),
        res == Err::<(), TibeError>(TibeError::SerializationError) <==> !index_rejected(
            pk@,
            i as int,
            ski@,
        ) && !is_g2(ski@.value),
        res is Ok <==> !index_rejected(pk@, i as int, ski@) && is_g2(ski@.value),
{
    let n = pk.n();
    if i < 1 || i > n || ski.j != i {
        return Err(TibeError::InvalidShareIndex);
    }
    if !g2_valid(ski.value.as_slice()) {
        return Err(TibeError::SerializationError);
    }
    Ok(())
}

/// The partial key that the holder of share `i` derives for an identity, with a given
/// blinding scalar of 48 bytes.
///
/// Fails with `InvalidShareIndex` where `i` is no party's index or not that of the share,
/// with `SerializationError` where the share is no element of G2, with
/// `InvalidParameters` where the blinding scalar has the wrong length or is of no use,
/// and with `ModulusMismatch` where it is not below the group order.
pub fn share_key_gen_with(pk: &PublicKey, i: i32, ski: &Share, id: &ID, r: &[u8]) -> (res: Result<
    PartialDecryptionKey,
    TibeError,
>)
    ensures
        match res {
            Ok(key) => share_key_gen_error(pk@, i as int, ski@, id@, r@) is None && is_partial_key(
                pk@,
                ski@,
                id@,
                scalar_value(r@),
                key@,
            ),
            Err(e) => share_key_gen_error(pk@, i as int, ski@, id@, r@) == Some(e),
        },
{
    match check_share(pk, i, ski) {
        Err(e) => {
            return Err(e);
        },
        Ok(()) => {},
    }
    if r.len() != SCALAR_SIZE {
        return Err(TibeError::InvalidParameters);
    }
    if !is_canonical(r) {
        return Err(TibeError::ModulusMismatch);
    }
    let ghost rho = scalar_value(r@);
    let ghost f = encoding_exponent(pk@, identity_scalar(id@));
    let ghost y = g2_exponent(ski@.value);
    let t = hash_identity(id.0.as_slice());
    proof {
        lemma_order_bounds();
        lemma_scalar_value_range(t@);
        lemma_scalar_value_range(r@);
        lemma_g2_exponent(ski@.value);
    }
    let encoded = match encode_scalar(pk, t.as_slice()) {
        Some(v) => v,
        None => {
            return Err(TibeError::InvalidParameters);
        },
    };
    let blind = g2_scale(encoded.as_slice(), r);
    let w1 = g1_scale(pk.g().as_slice(), r);
    let share = copy_range(ski.value.as_slice(), 0, ski.value.len());
    proof {
        assert(share@ =~= ski@.value);
        lemma_small_mod(rho as nat, order() as nat);
        lemma_small_mod(y as nat, order() as nat);
        assert(f * rho == rho * f) by (nonlinear_arith);
        lemma_add_mod_noop(y, rho * f, order());
        assert(1 * rho == rho);
    }
    let w0 = g2_join(Some(share), blind);
    match (w0, w1) {
        (Some(w0), Some(w1)) => {
            proof {
                lemma_g2_exponent(w0@);
                lemma_mod_twice(y + rho * f, order());
            }
            Ok(PartialDecryptionKey { j: i, w0, w1 })
        },
        _ => Err(TibeError::InvalidParameters),
    }
}

/// The partial key that the holder of share `i` derives for an identity. The blinding
/// scalar is drawn afresh and wiped before the call returns.
///
/// Fails with `InvalidShareIndex` where `i` is no party's index or not that of the share,
/// with `SerializationError` where the share is no element of G2, with
/// `InvalidParameters` where the identity cannot be encoded, and with `EntropyFailure`
/// where the entropy source fails or what it gave is of no use.
#[allow(non_snake_case)]
pub fn shareKeyGen(pk: &PublicKey, i: i32, ski: &Share, id: &ID) -> (res: Result<
    PartialDecryptionKey,
    TibeError,
>)
    ensures
        index_rejected(pk@, i as int, ski@) <==> res == Err::<PartialDecryptionKey, TibeError>(
            TibeError::InvalidShareIndex,
        ),
        !index_rejected(pk@, i as int, ski@) && !is_g2(ski@.value) <==> res == Err::<
            PartialDecryptionKey,
            TibeError,
        >(TibeError::SerializationError),
        !index_rejected(pk@, i as int, ski@) && is_g2(ski@.value) && encoding_exponent(
            pk@,
            identity_scalar(id@),
        ) == 0 <==> res == Err::<PartialDecryptionKey, TibeError>(TibeError::InvalidParameters),
        res matches Err(e) ==> e == TibeError::InvalidShareIndex || e
            == TibeError::SerializationError || e == TibeError::InvalidParameters || e
            == TibeError::EntropyFailure,
        res matches Ok(key) ==> exists|rho: int|
            0 < rho < order() && is_partial_key(pk@, ski@, id@, rho, key@),
{
    match check_share(pk, i, ski) {
        Err(e) => {
            return Err(e);
        },
        Ok(()) => {},
    }
    if !encodable(pk, id.0.as_slice()) {
        return Err(TibeError::InvalidParameters);
    }
    let mut r = match sample_scalars(1) {
        Some(v) => v,
        None => {
            return Err(TibeError::EntropyFailure);
        },
    };
    assert(chunk(r@, 0) =~= r@);
    let res = share_key_gen_with(pk, i, ski, id, r.as_slice());
    proof {
        lemma_order_bounds();
        lemma_scalar_value_range(r@);
        lemma_small_mod(scalar_value(r@) as nat, order() as nat);
    }
    wipe(&mut r);
    match res {
        Ok(key) => Ok(key),
        Err(_) => Err(TibeError::EntropyFailure),
    }
}

/// Whether a partial key is well formed for its index and the identity. Never fails:
/// whatever is malformed is rejected.
#[allow(non_snake_case)]
pub fn shareVerify(pk: &PublicKey, vk: &VerificationKey, id: &ID, ti: &PartialDecryptionKey) -> (ok:
    bool)
    ensures
        ok == share_verify_spec(pk@, vk@, id@, ti@),
{
    let n = pk.n();
    if vk.0.len() as u64 != (G1_SIZE as u64) * (n as u64) {
        return false;
    }
    if ti.j < 1 || ti.j > n {
        return false;
    }
    let from: usize = G1_SIZE * ((ti.j - 1) as usize);
    let entry = slice_subrange(vk.0.as_slice(), from, from + G1_SIZE);
    assert(entry@ == vk_entry(vk@, ti@.j));
    if !g1_valid(entry) || !g2_valid(ti.w0.as_slice()) || !g1_valid(ti.w1.as_slice()) {
        return false;
    }
    let t = hash_identity(id.0.as_slice());
    proof {
        lemma_order_bounds();
        lemma_scalar_value_range(t@);
    }
    let encoded = match encode_scalar(pk, t.as_slice()) {
        Some(v) => v,
        None => {
            return false;
        },
    };
    let left = pairing2(entry, pk.g2().as_slice(), ti.w1.as_slice(), encoded.as_slice());
    let right = pairing(pk.g().as_slice(), ti.w0.as_slice());
    proof {
        lemma_gt_exponent(left@);
        lemma_gt_exponent(right@);
        lemma_g2_exponent(ti@.w0);
        lemma_small_mod(g2_exponent(ti@.w0) as nat, order() as nat);
        assert(g1_exponent(entry@) * 1 == g1_exponent(entry@));
        assert(1 * g2_exponent(ti@.w0) == g2_exponent(ti@.w0));
    }
    bytes_eq(left.as_slice(), right.as_slice())
}

} // verus!
