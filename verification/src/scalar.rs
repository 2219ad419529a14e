//! The scalar field of the pairing groups.
//!
//! A scalar travels as a big-endian string of 48 bytes. Any such string denotes the
//! residue of its value modulo the group order; arithmetic results are always the
//! canonical representative, the one below the order.

use amcl_wrapper::field_elem::FieldElement;
use vstd::arithmetic::div_mod::*;
use vstd::prelude::*;

verus! {

/// Width in bytes of a scalar.
pub const SCALAR_SIZE: usize = 48;

/// The prime order of the groups G1, G2 and GT, and so the modulus of the scalar field.
pub closed spec fn order() -> int {
    0x73eda753299d7d483339d80809a1d80553bda402fffe5bfeffffffff00000001int
}

/// The order exceeds every 32-bit index and fits in 255 bits.
pub proof fn lemma_order_bounds()
    ensures
        0x1_0000_0000 < order(),
        order() < 0x8000000000000000000000000000000000000000000000000000000000000000int,
{
}

/// The number that a byte string denotes, most significant byte first.
pub open spec fn be_value(b: Seq<u8>) -> int
    decreases b.len(),
{
    if b.len() == 0 {
        0
    } else {
        256 * be_value(b.drop_last()) + b.last() as int
    }
}

/// The field element that a byte string denotes.
pub open spec fn scalar_value(b: Seq<u8>) -> int {
    be_value(b) % order()
}

/// A scalar in canonical form: 48 bytes whose value lies below the order.
pub open spec fn is_canonical_scalar(b: Seq<u8>) -> bool {
    b.len() == SCALAR_SIZE && 0 <= be_value(b) < order()
}

/// What `FieldElement::from_msg_hash` makes of a message, as bytes.
pub uninterp spec fn hash_to_scalar(msg: Seq<u8>) -> Seq<u8>;

pub proof fn lemma_be_value_nonnegative(b: Seq<u8>)
    ensures
        0 <= be_value(b),
    decreases b.len(),
{
    if b.len() > 0 {
        lemma_be_value_nonnegative(b.drop_last());
    }
}

pub proof fn lemma_scalar_value_range(b: Seq<u8>)
    ensures
        0 <= scalar_value(b) < order(),
        is_canonical_scalar(b) ==> scalar_value(b) == be_value(b),
{
    lemma_order_bounds();
    lemma_be_value_nonnegative(b);
    lemma_mod_bound(be_value(b), order());
    if is_canonical_scalar(b) {
        lemma_small_mod(be_value(b) as nat, order() as nat);
    }
}

/// `FieldElement::from_bytes` followed by `to_bytes`: the canonical form of a scalar.
#[verifier::external_body]
pub(crate) fn fe_reduce(a: &[u8]) -> (r: Vec<u8>)
    requires
        a@.len() == SCALAR_SIZE,
    ensures
        is_canonical_scalar(r@),
        be_value(r@) == scalar_value(a@),
{
    FieldElement::from_bytes(a).unwrap().to_bytes()
}

/// `FieldElement::plus`: the sum of two field elements.
#[verifier::external_body]
pub(crate) fn fe_add(a: &[u8], b: &[u8]) -> (r: Vec<u8>)
    requires
        a@.len() == SCALAR_SIZE,
        b@.len() == SCALAR_SIZE,
    ensures
        is_canonical_scalar(r@),
        be_value(r@) == (scalar_value(a@) + scalar_value(b@)) % order(),
{
    let x = FieldElement::from_bytes(a).unwrap();
    let y = FieldElement::from_bytes(b).unwrap();
    x.plus(&y).to_bytes()
}

/// `FieldElement::minus`: the difference of two field elements.
#[verifier::external_body]
pub(crate) fn fe_sub(a: &[u8], b: &[u8]) -> (r: Vec<u8>)
    requires
        a@.len() == SCALAR_SIZE,
        b@.len() == SCALAR_SIZE,
    ensures
        is_canonical_scalar(r@),
        be_value(r@) == (scalar_value(a@) - scalar_value(b@)) % order(),
{
    let x = FieldElement::from_bytes(a).unwrap();
    let y = FieldElement::from_bytes(b).unwrap();
    x.minus(&y).to_bytes()
}

/// `FieldElement::multiply`: the product of two field elements.
#[verifier::external_body]
pub(crate) fn fe_mul(a: &[u8], b: &[u8]) -> (r: Vec<u8>)
    requires
        a@.len() == SCALAR_SIZE,
        b@.len() == SCALAR_SIZE,
    ensures
        is_canonical_scalar(r@),
        be_value(r@) == (scalar_value(a@) * scalar_value(b@)) % order(),
{
    let x = FieldElement::from_bytes(a).unwrap();
    let y = FieldElement::from_bytes(b).unwrap();
    x.multiply(&y).to_bytes()
}

/// `FieldElement::inverse`: the multiplicative inverse of a field element, and zero for zero.
/// The order is prime, so every residue but zero has one.
#[verifier::external_body]
pub(crate) fn fe_inverse(a: &[u8]) -> (r: Vec<u8>)
    requires
        a@.len() == SCALAR_SIZE,
    ensures
        is_canonical_scalar(r@),
        scalar_value(a@) != 0 ==> (scalar_value(a@) * be_value(r@)) % order() == 1,
        scalar_value(a@) == 0 ==> be_value(r@) == 0,
{
    FieldElement::from_bytes(a).unwrap().inverse().to_bytes()
}

/// `FieldElement::from_msg_hash`: a message hashed into the scalar field.
#[verifier::external_body]
pub(crate) fn fe_hash(msg: &[u8]) -> (r: Vec<u8>)
    ensures
        r@ == hash_to_scalar(msg@),
        is_canonical_scalar(r@),
{
    FieldElement::from_msg_hash(msg).to_bytes()
}

} // verus!
