//! Group arithmetic on encodings, with the identity of G1 and of G2 shown as `None`.

use crate::bytes::{bytes_eq, is_zero, less_than};
use crate::group::{
    field_modulus, g1_add, g1_exponent, g1_mul, g1_probe, g1_sum_vanishes, g2_add, g2_coordinate,
    g2_exponent, g2_mul, g2_probe, g2_sum_vanishes, is_g1, is_g2, lemma_g1_exponent,
    lemma_g2_exponent, G1_SIZE, G2_SIZE,
};
use crate::scalar::{be_value, fe_reduce, lemma_order_bounds, order, scalar_value, SCALAR_SIZE};
use crate::secret::wipe;
use vstd::arithmetic::div_mod::lemma_small_mod;
use vstd::prelude::*;
use vstd::slice::slice_subrange;

verus! {

/// The byte string encodes `k` times the generator of G1, and `k` is no multiple of the
/// order.
pub open spec fn g1_holds(b: Seq<u8>, k: int) -> bool {
    is_g1(b) && g1_exponent(b) == k % order()
}

/// The byte string encodes `k` times the generator of G2, and `k` is no multiple of the
/// order.
pub open spec fn g2_holds(b: Seq<u8>, k: int) -> bool {
    is_g2(b) && g2_exponent(b) == k % order()
}

/// An element of G1 or its identity.
pub open spec fn g1_opt_valid(e: Option<Vec<u8>>) -> bool {
    e matches Some(v) ==> is_g1(v@)
}

/// The exponent of an element of G1 or of its identity.
pub open spec fn g1_opt_exponent(e: Option<Vec<u8>>) -> int {
    match e {
        Some(v) => g1_exponent(v@),
        None => 0,
    }
}

/// An element of G2 or its identity.
pub open spec fn g2_opt_valid(e: Option<Vec<u8>>) -> bool {
    e matches Some(v) ==> is_g2(v@)
}

/// The exponent of an element of G2 or of its identity.
pub open spec fn g2_opt_exponent(e: Option<Vec<u8>>) -> int {
    match e {
        Some(v) => g2_exponent(v@),
        None => 0,
    }
}

/// Two encodings of the same multiple of the generator of G1 are the same bytes.
pub proof fn lemma_g1_holds_unique(a: Seq<u8>, b: Seq<u8>, k: int)
    requires
        g1_holds(a, k),
        g1_holds(b, k),
    ensures
        a == b,
{
    lemma_g1_exponent(a);
    lemma_g1_exponent(b);
}

/// Two encodings of the same multiple of the generator of G2 are the same bytes.
pub proof fn lemma_g2_holds_unique(a: Seq<u8>, b: Seq<u8>, k: int)
    requires
        g2_holds(a, k),
        g2_holds(b, k),
    ensures
        a == b,
{
    lemma_g2_exponent(a);
    lemma_g2_exponent(b);
}

/// A multiple of an element of G1; the identity where the scalar is zero.
pub(crate) fn g1_scale(p: &[u8], s: &[u8]) -> (r: Option<Vec<u8>>)
    requires
        is_g1(p@),
        s@.len() == SCALAR_SIZE,
    ensures
        g1_opt_valid(r),
        g1_opt_exponent(r) == (g1_exponent(p@) * scalar_value(s@)) % order(),
        r is None <==> scalar_value(s@) == 0,
{
    let mut canonical = fe_reduce(s);
    let zero = is_zero(canonical.as_slice());
    wipe(&mut canonical);
    if zero {
        proof {
            lemma_order_bounds();
            assert(g1_exponent(p@) * scalar_value(s@) == 0) by (nonlinear_arith)
                requires
                    scalar_value(s@) == 0,
            ;
            lemma_small_mod(0, order() as nat);
        }
        None
    } else {
        let out = g1_mul(p, s);
        proof {
            lemma_g1_exponent(out@);
        }
        Some(out)
    }
}

/// A multiple of an element of G2; the identity where the scalar is zero.
pub(crate) fn g2_scale(p: &[u8], s: &[u8]) -> (r: Option<Vec<u8>>)
    requires
        is_g2(p@),
        s@.len() == SCALAR_SIZE,
    ensures
        g2_opt_valid(r),
        g2_opt_exponent(r) == (g2_exponent(p@) * scalar_value(s@)) % order(),
        r is None <==> scalar_value(s@) == 0,
{
    let mut canonical = fe_reduce(s);
    let zero = is_zero(canonical.as_slice());
    wipe(&mut canonical);
    if zero {
        proof {
            lemma_order_bounds();
            assert(g2_exponent(p@) * scalar_value(s@) == 0) by (nonlinear_arith)
                requires
                    scalar_value(s@) == 0,
            ;
            lemma_small_mod(0, order() as nat);
        }
        None
    } else {
        let out = g2_mul(p, s);
        proof {
            lemma_g2_exponent(out@);
        }
        Some(out)
    }
}

/// The sum of two elements of G1, either of which may be the identity. Operands that do
/// not become the result are wiped.
pub(crate) fn g1_join(a: Option<Vec<u8>>, b: Option<Vec<u8>>) -> (r: Option<Vec<u8>>)
    requires
        g1_opt_valid(a),
        g1_opt_valid(b),
    ensures
        g1_opt_valid(r),
        g1_opt_exponent(r) == (g1_opt_exponent(a) + g1_opt_exponent(b)) % order(),
{
    proof {
        lemma_order_bounds();
        lemma_small_mod(0, order() as nat);
    }
    match (a, b) {
        (None, None) => None,
        (Some(u), None) => {
            proof {
                lemma_g1_exponent(u@);
                lemma_small_mod(g1_exponent(u@) as nat, order() as nat);
            }
            Some(u)
        },
        (None, Some(v)) => {
            proof {
                lemma_g1_exponent(v@);
                lemma_small_mod(g1_exponent(v@) as nat, order() as nat);
            }
            Some(v)
        },
        (Some(u), Some(v)) => {
            let mut left = u;
            let mut right = v;
            let sum = if g1_sum_vanishes(left.as_slice(), right.as_slice()) {
                None
            } else {
                Some(g1_add(left.as_slice(), right.as_slice()))
            };
            wipe(&mut left);
            wipe(&mut right);
            sum
        },
    }
}

/// The sum of two elements of G2, either of which may be the identity. Operands that do
/// not become the result are wiped.
pub(crate) fn g2_join(a: Option<Vec<u8>>, b: Option<Vec<u8>>) -> (r: Option<Vec<u8>>)
    requires
        g2_opt_valid(a),
        g2_opt_valid(b),
    ensures
        g2_opt_valid(r),
        g2_opt_exponent(r) == (g2_opt_exponent(a) + g2_opt_exponent(b)) % order(),
{
    proof {
        lemma_order_bounds();
        lemma_small_mod(0, order() as nat);
    }
    match (a, b) {
        (None, None) => None,
        (Some(u), None) => {
            proof {
                lemma_g2_exponent(u@);
                lemma_small_mod(g2_exponent(u@) as nat, order() as nat);
            }
            Some(u)
        },
        (None, Some(v)) => {
            proof {
                lemma_g2_exponent(v@);
                lemma_small_mod(g2_exponent(v@) as nat, order() as nat);
            }
            Some(v)
        },
        (Some(u), Some(v)) => {
            let mut left = u;
            let mut right = v;
            let sum = if g2_sum_vanishes(left.as_slice(), right.as_slice()) {
                None
            } else {
                Some(g2_add(left.as_slice(), right.as_slice()))
            };
            wipe(&mut left);
            wipe(&mut right);
            sum
        },
    }
}

/// The field modulus as bytes.
fn field_modulus_bytes() -> (r: Vec<u8>)
    ensures
        r@ == field_modulus(),
{
    let r = vec![
        0x1au8, 0x01, 0x11, 0xea, 0x39, 0x7f, 0xe6, 0x9a, 0x4b, 0x1b, 0xa7, 0xb6, 0x43, 0x4b, 0xac,
        0xd7, 0x64, 0x77, 0x4b, 0x84, 0xf3, 0x85, 0x12, 0xbf, 0x67, 0x30, 0xd2, 0xa0, 0xf6, 0xb0,
        0xf6, 0x24, 0x1e, 0xab, 0xff, 0xfe, 0xb1, 0x53, 0xff, 0xff, 0xb9, 0xfe, 0xff, 0xff, 0xff,
        0xff, 0xaa, 0xab,
    ];
    assert(r@ =~= field_modulus());
    r
}

/// Whether a byte string encodes an element of G1 other than the identity.
pub fn g1_valid(b: &[u8]) -> (ok: bool)
    ensures
        ok == is_g1(b@),
{
    if b.len() != G1_SIZE {
        return false;
    }
    let (identity, ordered, encoded) = g1_probe(b);
    !identity && ordered && bytes_eq(encoded.as_slice(), b)
}

/// Whether a byte string encodes an element of G2 other than the identity.
pub fn g2_valid(b: &[u8]) -> (ok: bool)
    ensures
        ok == is_g2(b@),
{
    if b.len() != G2_SIZE {
        return false;
    }
    let modulus = field_modulus_bytes();
    let mut i: usize = 0;
    while i < 4
        invariant
            i <= 4,
            b@.len() == G2_SIZE,
            modulus@ == field_modulus(),
            forall|p: int|
                0 <= p < i ==> be_value(#[trigger] g2_coordinate(b@, p)) < be_value(
                    field_modulus(),
                ),
        decreases 4 - i,
    {
        let number = slice_subrange(b, 1 + SCALAR_SIZE * i, 1 + SCALAR_SIZE * i + SCALAR_SIZE);
        assert(number@ == g2_coordinate(b@, i as int));
        if !less_than(number, modulus.as_slice()) {
            return false;
        }
        i += 1;
    }
    let (identity, ordered, encoded) = g2_probe(b);
    !identity && ordered && bytes_eq(encoded.as_slice(), b)
}

} // verus!
