//! The three pairing groups, handled through their canonical encodings.
//!
//! A group element travels as its uncompressed encoding: 97 bytes in G1, 193 in G2 and
//! 576 in GT. What the logic needs to know of an element is its exponent: the `k` for
//! which the element is `k` times the group's generator. The identity of G1 and of G2 has
//! no encoding that is safe to pass on, so it is left out of both groups and shows as
//! `None` wherever a sum may vanish.

use amcl_wrapper::extension_field_gt::GT;
use amcl_wrapper::field_elem::FieldElement;
use amcl_wrapper::group_elem::GroupElement;
use amcl_wrapper::group_elem_g1::G1;
use amcl_wrapper::group_elem_g2::G2;
use crate::scalar::{be_value, order, scalar_value, SCALAR_SIZE};
use vstd::prelude::*;

verus! {

/// Width in bytes of an element of G1.
pub const G1_SIZE: usize = 97;

/// Width in bytes of an element of G2.
pub const G2_SIZE: usize = 193;

/// Width in bytes of an element of GT.
pub const GT_SIZE: usize = 576;

/// The bytes that `G1::to_bytes(false)` gives for `k` times `G1::generator()`.
pub uninterp spec fn g1_encoding(k: int) -> Seq<u8>;

/// The bytes that `G2::to_bytes(false)` gives for `k` times `G2::generator()`.
pub uninterp spec fn g2_encoding(k: int) -> Seq<u8>;

/// The bytes that `GT::to_bytes` gives for the `k`-th power of the pairing of the two
/// generators.
pub uninterp spec fn gt_encoding(k: int) -> Seq<u8>;

/// The modulus of the field over which the curve is defined, in 48 bytes, most
/// significant first.
pub open spec fn field_modulus() -> Seq<u8> {
    seq![
        0x1au8, 0x01, 0x11, 0xea, 0x39, 0x7f, 0xe6, 0x9a, 0x4b, 0x1b, 0xa7, 0xb6, 0x43, 0x4b, 0xac,
        0xd7, 0x64, 0x77, 0x4b, 0x84, 0xf3, 0x85, 0x12, 0xbf, 0x67, 0x30, 0xd2, 0xa0, 0xf6, 0xb0,
        0xf6, 0x24, 0x1e, 0xab, 0xff, 0xfe, 0xb1, 0x53, 0xff, 0xff, 0xb9, 0xfe, 0xff, 0xff, 0xff,
        0xff, 0xaa, 0xab,
    ]
}

/// The `i`-th of the four numbers that make up the two coordinates of a point of G2 in
/// its encoding.
pub open spec fn g2_coordinate(b: Seq<u8>, i: int) -> Seq<u8> {
    b.subrange(1 + SCALAR_SIZE * i, 1 + SCALAR_SIZE * i + SCALAR_SIZE)
}

/// Each of the four numbers of the encoding lies below the field modulus.
pub open spec fn g2_in_range(b: Seq<u8>) -> bool {
    forall|i: int|
        0 <= i < 4 ==> be_value(#[trigger] g2_coordinate(b, i)) < be_value(field_modulus())
}

/// The byte string encodes an element of G1 other than the identity.
pub open spec fn is_g1(b: Seq<u8>) -> bool {
    &&& b.len() == G1_SIZE
    &&& exists|k: int| 1 <= k < order() && #[trigger] g1_encoding(k) == b
}

/// The exponent of an element of G1, in `1..order()`.
pub open spec fn g1_exponent(b: Seq<u8>) -> int {
    choose|k: int| 1 <= k < order() && #[trigger] g1_encoding(k) == b
}

/// The byte string encodes an element of G2 other than the identity: it is what
/// `to_bytes(false)` gives for a multiple of the generator, with every number below the
/// field modulus.
pub open spec fn is_g2(b: Seq<u8>) -> bool {
    &&& b.len() == G2_SIZE
    &&& g2_in_range(b)
    &&& exists|k: int| 1 <= k < order() && #[trigger] g2_encoding(k) == b
}

/// The exponent of an element of G2, in `1..order()`.
pub open spec fn g2_exponent(b: Seq<u8>) -> int {
    choose|k: int| 1 <= k < order() && #[trigger] g2_encoding(k) == b
}

/// The byte string encodes an element of GT.
pub open spec fn is_gt(b: Seq<u8>) -> bool {
    &&& b.len() == GT_SIZE
    &&& exists|k: int| 0 <= k < order() && #[trigger] gt_encoding(k) == b
}

/// The exponent of an element of GT, in `0..order()`.
pub open spec fn gt_exponent(b: Seq<u8>) -> int {
    choose|k: int| 0 <= k < order() && #[trigger] gt_encoding(k) == b
}

/// An element of G1 is the encoding of its exponent.
pub proof fn lemma_g1_exponent(b: Seq<u8>)
    requires
        is_g1(b),
    ensures
        1 <= g1_exponent(b) < order(),
        g1_encoding(g1_exponent(b)) == b,
{
}

/// An element of G2 is the encoding of its exponent.
pub proof fn lemma_g2_exponent(b: Seq<u8>)
    requires
        is_g2(b),
    ensures
        1 <= g2_exponent(b) < order(),
        g2_encoding(g2_exponent(b)) == b,
{
}

/// An element of GT is the encoding of its exponent.
pub proof fn lemma_gt_exponent(b: Seq<u8>)
    requires
        is_gt(b),
    ensures
        0 <= gt_exponent(b) < order(),
        gt_encoding(gt_exponent(b)) == b,
{
}

/// `G1::generator`: the generator of G1, whose exponent is one.
#[verifier::external_body]
pub(crate) fn g1_generator() -> (r: Vec<u8>)
    ensures
        r@ == g1_encoding(1),
        is_g1(r@),
        g1_exponent(r@) == 1,
{
    G1::generator().to_bytes(false)
}

/// `G1::scalar_mul_const_time`: a multiple of an element of G1. The group has prime
/// order, so a multiple by a scalar other than zero is not the identity.
#[verifier::external_body]
pub(crate) fn g1_mul(p: &[u8], s: &[u8]) -> (r: Vec<u8>)
    requires
        is_g1(p@),
        s@.len() == SCALAR_SIZE,
        scalar_value(s@) != 0,
    ensures
        r@ == g1_encoding((g1_exponent(p@) * scalar_value(s@)) % order()),
        is_g1(r@),
        g1_exponent(r@) == (g1_exponent(p@) * scalar_value(s@)) % order(),
{
    let point = G1::from(<&[u8; G1_SIZE]>::try_from(p).unwrap());
    let scalar = FieldElement::from_bytes(s).unwrap();
    point.scalar_mul_const_time(&scalar).to_bytes(false)
}

/// `G1::plus` and `is_identity`: whether the sum of two elements of G1 is the identity.
#[verifier::external_body]
pub(crate) fn g1_sum_vanishes(p: &[u8], q: &[u8]) -> (r: bool)
    requires
        is_g1(p@),
        is_g1(q@),
    ensures
        r == ((g1_exponent(p@) + g1_exponent(q@)) % order() == 0),
{
    let left = G1::from(<&[u8; G1_SIZE]>::try_from(p).unwrap());
    let right = G1::from(<&[u8; G1_SIZE]>::try_from(q).unwrap());
    left.plus(&right).is_identity()
}

/// `G1::plus`: the sum of two elements of G1, where it is not the identity.
#[verifier::external_body]
pub(crate) fn g1_add(p: &[u8], q: &[u8]) -> (r: Vec<u8>)
    requires
        is_g1(p@),
        is_g1(q@),
        (g1_exponent(p@) + g1_exponent(q@)) % order() != 0,
    ensures
        r@ == g1_encoding((g1_exponent(p@) + g1_exponent(q@)) % order()),
        is_g1(r@),
        g1_exponent(r@) == (g1_exponent(p@) + g1_exponent(q@)) % order(),
{
    let left = G1::from(<&[u8; G1_SIZE]>::try_from(p).unwrap());
    let right = G1::from(<&[u8; G1_SIZE]>::try_from(q).unwrap());
    left.plus(&right).to_bytes(false)
}

/// `G1::from`, `is_identity`, `has_correct_order` and `to_bytes`: what decoding makes of
/// 97 bytes. Decoding maps every malformed string to the identity, and checks neither
/// that a point lies in the group of prime order nor that the bytes are the ones that
/// `to_bytes(false)` gives for it. So the bytes encode an element of G1 other than the
/// identity where the point is not the identity, has the group's order, and is encoded
/// as those very bytes, and nowhere else.
#[verifier::external_body]
pub(crate) fn g1_probe(b: &[u8]) -> (r: (bool, bool, Vec<u8>))
    requires
        b@.len() == G1_SIZE,
    ensures
        is_g1(b@) <==> !r.0 && r.1 && r.2@ == b@,
{
    let point = G1::from(<&[u8; G1_SIZE]>::try_from(b).unwrap());
    (point.is_identity(), point.has_correct_order(), point.to_bytes(false))
}

/// `G2::generator`: the generator of G2, whose exponent is one.
#[verifier::external_body]
pub(crate) fn g2_generator() -> (r: Vec<u8>)
    ensures
        r@ == g2_encoding(1),
        is_g2(r@),
        g2_exponent(r@) == 1,
{
    G2::generator().to_bytes(false)
}

/// `G2::scalar_mul_const_time`: a multiple of an element of G2. The group has prime
/// order, so a multiple by a scalar other than zero is not the identity.
#[verifier::external_body]
pub(crate) fn g2_mul(p: &[u8], s: &[u8]) -> (r: Vec<u8>)
    requires
        is_g2(p@),
        s@.len() == SCALAR_SIZE,
        scalar_value(s@) != 0,
    ensures
        r@ == g2_encoding((g2_exponent(p@) * scalar_value(s@)) % order()),
        is_g2(r@),
        g2_exponent(r@) == (g2_exponent(p@) * scalar_value(s@)) % order(),
{
    let point = G2::from(<&[u8; G2_SIZE]>::try_from(p).unwrap());
    let scalar = FieldElement::from_bytes(s).unwrap();
    point.scalar_mul_const_time(&scalar).to_bytes(false)
}

/// `G2::plus` and `is_identity`: whether the sum of two elements of G2 is the identity.
#[verifier::external_body]
pub(crate) fn g2_sum_vanishes(p: &[u8], q: &[u8]) -> (r: bool)
    requires
        is_g2(p@),
        is_g2(q@),
    ensures
        r == ((g2_exponent(p@) + g2_exponent(q@)) % order() == 0),
{
    let left = G2::from(<&[u8; G2_SIZE]>::try_from(p).unwrap());
    let right = G2::from(<&[u8; G2_SIZE]>::try_from(q).unwrap());
    left.plus(&right).is_identity()
}

/// `G2::plus`: the sum of two elements of G2, where it is not the identity.
#[verifier::external_body]
pub(crate) fn g2_add(p: &[u8], q: &[u8]) -> (r: Vec<u8>)
    requires
        is_g2(p@),
        is_g2(q@),
        (g2_exponent(p@) + g2_exponent(q@)) % order() != 0,
    ensures
        r@ == g2_encoding((g2_exponent(p@) + g2_exponent(q@)) % order()),
        is_g2(r@),
        g2_exponent(r@) == (g2_exponent(p@) + g2_exponent(q@)) % order(),
{
    let left = G2::from(<&[u8; G2_SIZE]>::try_from(p).unwrap());
    let right = G2::from(<&[u8; G2_SIZE]>::try_from(q).unwrap());
    left.plus(&right).to_bytes(false)
}

/// `G2::from`, `is_identity`, `has_correct_order` and `to_bytes`: what decoding makes of
/// 193 bytes. Decoding maps every malformed string to the identity, and checks neither
/// that a point lies in the group of prime order nor that the bytes are the ones that
/// `to_bytes(false)` gives for it. Nor does it check that the numbers of the encoding lie
/// below the field modulus, so that is asked of the bytes beforehand. Bytes with numbers
/// below the field modulus encode an element of G2 other than the identity where the
/// point is not the identity, has the group's order, and is encoded as those very bytes,
/// and nowhere else.
#[verifier::external_body]
pub(crate) fn g2_probe(b: &[u8]) -> (r: (bool, bool, Vec<u8>))
    requires
        b@.len() == G2_SIZE,
        g2_in_range(b@),
    ensures
        is_g2(b@) <==> !r.0 && r.1 && r.2@ == b@,
{
    let point = G2::from(<&[u8; G2_SIZE]>::try_from(b).unwrap());
    (point.is_identity(), point.has_correct_order(), point.to_bytes(false))
}

/// `GT::ate_pairing`: the pairing of an element of G1 with one of G2. It is bilinear, so
/// the exponent of the result is the product of the two exponents.
#[verifier::external_body]
pub(crate) fn pairing(p: &[u8], q: &[u8]) -> (r: Vec<u8>)
    requires
        is_g1(p@),
        is_g2(q@),
    ensures
        r@ == gt_encoding((g1_exponent(p@) * g2_exponent(q@)) % order()),
        is_gt(r@),
        gt_exponent(r@) == (g1_exponent(p@) * g2_exponent(q@)) % order(),
{
    let left = G1::from(<&[u8; G1_SIZE]>::try_from(p).unwrap());
    let right = G2::from(<&[u8; G2_SIZE]>::try_from(q).unwrap());
    GT::ate_pairing(&left, &right).to_bytes()
}

/// `GT::ate_2_pairing`: the product of two pairings.
#[verifier::external_body]
pub(crate) fn pairing2(p1: &[u8], q1: &[u8], p2: &[u8], q2: &[u8]) -> (r: Vec<u8>)
    requires
        is_g1(p1@),
        is_g2(q1@),
        is_g1(p2@),
        is_g2(q2@),
    ensures
        r@ == gt_encoding(
            (g1_exponent(p1@) * g2_exponent(q1@) + g1_exponent(p2@) * g2_exponent(q2@)) % order(),
        ),
        is_gt(r@),
        gt_exponent(r@) == (g1_exponent(p1@) * g2_exponent(q1@) + g1_exponent(p2@) * g2_exponent(
            q2@,
        )) % order(),
{
    let a = G1::from(<&[u8; G1_SIZE]>::try_from(p1).unwrap());
    let b = G2::from(<&[u8; G2_SIZE]>::try_from(q1).unwrap());
    let c = G1::from(<&[u8; G1_SIZE]>::try_from(p2).unwrap());
    let d = G2::from(<&[u8; G2_SIZE]>::try_from(q2).unwrap());
    GT::ate_2_pairing(&a, &b, &c, &d).to_bytes()
}

} // verus!
