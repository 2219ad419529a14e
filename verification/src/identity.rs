//! How an identity, or any other scalar, is encoded as an element of G2.

use crate::bytes::{append, copy_range};
use crate::element::{g2_join, g2_opt_exponent, g2_opt_valid, g2_scale};
use crate::group::{g2_exponent, is_g2, lemma_g2_exponent};
use crate::scalar::{
    be_value, fe_hash, hash_to_scalar, is_canonical_scalar, lemma_order_bounds,
    lemma_scalar_value_range, order, scalar_value, SCALAR_SIZE,
};
use crate::types::{PublicKey, PublicKeyView};
use vstd::arithmetic::div_mod::{lemma_add_mod_noop, lemma_small_mod};
use vstd::prelude::*;

verus! {

/// The byte that precedes an identity where it is hashed.
pub const ID_DOMAIN: u8 = 1;

/// The scalar that stands for an identity: the hash of the identity behind its domain
/// byte.
pub open spec fn identity_scalar(id: Seq<u8>) -> int {
    scalar_value(hash_to_scalar(seq![ID_DOMAIN] + id))
}

/// The exponent of the element of G2 that encodes the scalar `t`: `t` times `g2`, plus
/// `h1`.
pub open spec fn encoding_exponent(pk: PublicKeyView, t: int) -> int {
    (t + pk.beta()) % order()
}

/// The scalar that stands for an identity.
pub fn hash_identity(id: &[u8]) -> (t: Vec<u8>)
    ensures
        is_canonical_scalar(t@),
        be_value(t@) == identity_scalar(id@),
{
    let mut input: Vec<u8> = Vec::new();
    input.push(ID_DOMAIN);
    append(&mut input, id);
    let t = fe_hash(input.as_slice());
    proof {
        assert(input@ =~= seq![ID_DOMAIN] + id@);
        lemma_scalar_value_range(t@);
    }
    t
}

/// The exponent of the element of G2 that encodes the tag `t` of a ciphertext: `t` times
/// `g2`, plus `h2`. Tags are encoded with an element of their own: encoded like an
/// identity, a tag would give the scalar of the encryption away.
pub open spec fn binding_exponent(pk: PublicKeyView, t: int) -> int {
    (t + pk.gamma()) % order()
}

/// The scalar `t` times the generator of G2, plus a shift, or `None` where that is the
/// identity.
fn shifted(g2: &[u8], shift: &[u8], t: &[u8]) -> (r: Option<Vec<u8>>)
    requires
        is_g2(g2@) && g2_exponent(g2@) == 1,
        is_g2(shift@),
        t@.len() == SCALAR_SIZE,
    ensures
        g2_opt_valid(r),
        g2_opt_exponent(r) == (scalar_value(t@) + g2_exponent(shift@)) % order(),
        r is None <==> (scalar_value(t@) + g2_exponent(shift@)) % order() == 0,
{
    let multiple = g2_scale(g2, t);
    let copy = copy_range(shift, 0, shift.len());
    proof {
        lemma_order_bounds();
        assert(copy@ =~= shift@);
        lemma_g2_exponent(shift@);
        lemma_scalar_value_range(t@);
        assert(1 * scalar_value(t@) == scalar_value(t@));
        lemma_small_mod(g2_exponent(shift@) as nat, order() as nat);
        lemma_add_mod_noop(scalar_value(t@), g2_exponent(shift@), order());
    }
    let r = g2_join(multiple, Some(copy));
    proof {
        if r is Some {
            lemma_g2_exponent(r->0@);
        }
    }
    r
}

/// The element of G2 that encodes an identity's scalar, or `None` where it is the
/// identity of the group.
pub(crate) fn encode_scalar(pk: &PublicKey, t: &[u8]) -> (r: Option<Vec<u8>>)
    requires
        t@.len() == SCALAR_SIZE,
    ensures
        g2_opt_valid(r),
        g2_opt_exponent(r) == encoding_exponent(pk@, scalar_value(t@)),
        r is None <==> encoding_exponent(pk@, scalar_value(t@)) == 0,
{
    shifted(pk.g2().as_slice(), pk.h1().as_slice(), t)
}

/// The element of G2 that encodes a tag, or `None` where it is the identity of the
/// group.
pub(crate) fn bind_scalar(pk: &PublicKey, t: &[u8]) -> (r: Option<Vec<u8>>)
    requires
        t@.len() == SCALAR_SIZE,
    ensures
        g2_opt_valid(r),
        g2_opt_exponent(r) == binding_exponent(pk@, scalar_value(t@)),
        r is None <==> binding_exponent(pk@, scalar_value(t@)) == 0,
{
    shifted(pk.g2().as_slice(), pk.h2().as_slice(), t)
}

/// Whether an identity can be encoded: whether the element of G2 that encodes its scalar
/// is other than the identity. No identity is known that cannot.
pub fn encodable(pk: &PublicKey, id: &[u8]) -> (r: bool)
    ensures
        r == (encoding_exponent(pk@, identity_scalar(id@)) != 0),
{
    let t = hash_identity(id);
    proof {
        lemma_scalar_value_range(t@);
    }
    encode_scalar(pk, t.as_slice()).is_some()
}

} // verus!
