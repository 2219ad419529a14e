//! Small verified tools on byte strings.

use crate::scalar::{
    be_value, fe_reduce, is_canonical_scalar, lemma_order_bounds, lemma_scalar_value_range, order,
    SCALAR_SIZE,
};
use crate::secret::wipe;
use vstd::prelude::*;
use vstd::slice::slice_subrange;

verus! {

/// A string of zero bytes denotes zero.
pub proof fn lemma_be_value_zero(b: Seq<u8>)
    ensures
        be_value(b) == 0 <==> (forall|i: int| 0 <= i < b.len() ==> b[i] == 0),
        0 <= be_value(b),
    decreases b.len(),
{
    if b.len() > 0 {
        let init = b.drop_last();
        lemma_be_value_zero(init);
        assert(forall|i: int| 0 <= i < init.len() ==> init[i] == b[i]);
        if be_value(b) == 0 {
            assert(be_value(init) == 0 && b.last() == 0);
            assert forall|i: int| 0 <= i < b.len() implies b[i] == 0 by {
                if i < init.len() {
                    assert(init[i] == 0);
                }
            }
        }
        if forall|i: int| 0 <= i < b.len() ==> b[i] == 0 {
            assert forall|i: int| 0 <= i < init.len() implies init[i] == 0 by {
                assert(b[i] == 0);
            }
        }
    }
}

/// Appending a byte shifts the value by one place.
pub proof fn lemma_be_value_push(b: Seq<u8>, x: u8)
    ensures
        be_value(b.push(x)) == 256 * be_value(b) + x,
{
    assert(b.push(x).drop_last() =~= b);
}

/// Whether two byte strings are equal.
pub fn bytes_eq(a: &[u8], b: &[u8]) -> (r: bool)
    ensures
        r == (a@ == b@),
{
    if a.len() != b.len() {
        return false;
    }
    let mut i: usize = 0;
    while i < a.len()
        invariant
            a@.len() == b@.len(),
            i <= a@.len(),
            forall|j: int| 0 <= j < i ==> a@[j] == b@[j],
        decreases a@.len() - i,
    {
        if a[i] != b[i] {
            return false;
        }
        i += 1;
    }
    assert(a@ =~= b@);
    true
}

/// Whether a byte string denotes zero.
pub fn is_zero(b: &[u8]) -> (r: bool)
    ensures
        r == (be_value(b@) == 0),
{
    let mut i: usize = 0;
    while i < b.len()
        invariant
            i <= b@.len(),
            forall|j: int| 0 <= j < i ==> b@[j] == 0,
        decreases b@.len() - i,
    {
        if b[i] != 0 {
            proof {
                lemma_be_value_zero(b@);
            }
            return false;
        }
        i += 1;
    }
    proof {
        lemma_be_value_zero(b@);
    }
    true
}

/// Appends a copy of `src` to `dst`.
pub fn append(dst: &mut Vec<u8>, src: &[u8])
    ensures
        final(dst)@ == old(dst)@ + src@,
{
    let mut i: usize = 0;
    while i < src.len()
        invariant
            i <= src@.len(),
            dst@ == old(dst)@ + src@.subrange(0, i as int),
        decreases src@.len() - i,
    {
        dst.push(src[i]);
        i += 1;
        assert(dst@ =~= old(dst)@ + src@.subrange(0, i as int));
    }
    assert(src@.subrange(0, src@.len() as int) =~= src@);
}

/// A copy of the bytes `from..to` of `src`.
pub fn copy_range(src: &[u8], from: usize, to: usize) -> (r: Vec<u8>)
    requires
        from <= to <= src@.len(),
    ensures
        r@ == src@.subrange(from as int, to as int),
{
    let mut out: Vec<u8> = Vec::new();
    append(&mut out, slice_subrange(src, from, to));
    assert(out@ =~= src@.subrange(from as int, to as int));
    out
}

/// The canonical scalar that denotes a small number.
pub fn scalar_from_u32(x: u32) -> (r: Vec<u8>)
    ensures
        is_canonical_scalar(r@),
        be_value(r@) == x,
{
    let mut out: Vec<u8> = Vec::new();
    let mut i: usize = 0;
    while i < SCALAR_SIZE - 4
        invariant
            i <= SCALAR_SIZE - 4,
            out@.len() == i,
            be_value(out@) == 0,
        decreases SCALAR_SIZE - 4 - i,
    {
        proof {
            lemma_be_value_push(out@, 0);
        }
        out.push(0u8);
        i += 1;
    }
    let b3: u8 = (x >> 24) as u8;
    let b2: u8 = ((x >> 16) & 0xff) as u8;
    let b1: u8 = ((x >> 8) & 0xff) as u8;
    let b0: u8 = (x & 0xff) as u8;
    assert(x == b3 * 0x1000000 + b2 * 0x10000 + b1 * 0x100 + b0) by (bit_vector)
        requires
            b3 == (x >> 24) as u8,
            b2 == ((x >> 16) & 0xff) as u8,
            b1 == ((x >> 8) & 0xff) as u8,
            b0 == (x & 0xff) as u8,
    ;
    proof {
        lemma_be_value_push(out@, b3);
        lemma_be_value_push(out@.push(b3), b2);
        lemma_be_value_push(out@.push(b3).push(b2), b1);
        lemma_be_value_push(out@.push(b3).push(b2).push(b1), b0);
        lemma_order_bounds();
    }
    out.push(b3);
    out.push(b2);
    out.push(b1);
    out.push(b0);
    out
}

/// Two byte strings of one length that denote the same number are the same.
pub proof fn lemma_be_value_injective(a: Seq<u8>, b: Seq<u8>)
    requires
        a.len() == b.len(),
        be_value(a) == be_value(b),
    ensures
        a == b,
    decreases a.len(),
{
    if a.len() > 0 {
        lemma_be_value_zero(a.drop_last());
        lemma_be_value_zero(b.drop_last());
        lemma_be_value_injective(a.drop_last(), b.drop_last());
        assert(a =~= a.drop_last().push(a.last()));
        assert(b =~= b.drop_last().push(b.last()));
    }
    assert(a =~= b);
}

/// Whether a byte string is a scalar in canonical form: 48 bytes that denote a number
/// below the order.
pub fn is_canonical(b: &[u8]) -> (r: bool)
    ensures
        r == is_canonical_scalar(b@),
{
    if b.len() != SCALAR_SIZE {
        return false;
    }
    let mut reduced = fe_reduce(b);
    let same = bytes_eq(reduced.as_slice(), b);
    proof {
        lemma_scalar_value_range(b@);
        lemma_be_value_zero(b@);
        if is_canonical_scalar(b@) {
            lemma_be_value_injective(reduced@, b@);
        }
    }
    wipe(&mut reduced);
    same
}

/// Of two byte strings of one length that agree up to a position, the one with the
/// smaller byte there denotes the smaller number.
pub proof fn lemma_be_value_order(a: Seq<u8>, b: Seq<u8>, i: int)
    requires
        a.len() == b.len(),
        0 <= i < a.len(),
        a.subrange(0, i) == b.subrange(0, i),
        a[i] < b[i],
    ensures
        be_value(a) < be_value(b),
    decreases a.len(),
{
    let n = a.len() as int;
    if i == n - 1 {
        assert(a.drop_last() =~= a.subrange(0, i));
        assert(b.drop_last() =~= b.subrange(0, i));
    } else {
        assert(a.drop_last().subrange(0, i) =~= a.subrange(0, i));
        assert(b.drop_last().subrange(0, i) =~= b.subrange(0, i));
        lemma_be_value_order(a.drop_last(), b.drop_last(), i);
    }
}

/// Whether the first of two byte strings of one length denotes the smaller number.
pub fn less_than(a: &[u8], b: &[u8]) -> (r: bool)
    requires
        a@.len() == b@.len(),
    ensures
        r == (be_value(a@) < be_value(b@)),
{
    let mut i: usize = 0;
    while i < a.len()
        invariant
            a@.len() == b@.len(),
            i <= a@.len(),
            a@.subrange(0, i as int) == b@.subrange(0, i as int),
        decreases a@.len() - i,
    {
        if a[i] < b[i] {
            proof {
                lemma_be_value_order(a@, b@, i as int);
            }
            return true;
        }
        if a[i] > b[i] {
            proof {
                lemma_be_value_order(b@, a@, i as int);
            }
            return false;
        }
        assert(a@.subrange(0, i + 1) =~= a@.subrange(0, i as int).push(a@[i as int]));
        assert(b@.subrange(0, i + 1) =~= b@.subrange(0, i as int).push(b@[i as int]));
        i += 1;
    }
    assert(a@ =~= a@.subrange(0, a@.len() as int));
    assert(b@ =~= b@.subrange(0, b@.len() as int));
    false
}

} // verus!
