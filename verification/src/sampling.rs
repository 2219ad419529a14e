//! Fresh scalars from the operating system's entropy source.

use crate::bytes::append;
use crate::scalar::{be_value, fe_reduce, is_canonical_scalar, scalar_value, SCALAR_SIZE};
use crate::secret::{os_random, wipe};
use vstd::prelude::*;
use vstd::slice::slice_subrange;

verus! {

/// The `i`-th scalar of a string of scalars.
pub open spec fn chunk(s: Seq<u8>, i: int) -> Seq<u8> {
    s.subrange(SCALAR_SIZE * i, SCALAR_SIZE * i + SCALAR_SIZE)
}

/// The string holds `count` scalars in canonical form.
pub open spec fn all_canonical(s: Seq<u8>, count: int) -> bool {
    &&& s.len() == SCALAR_SIZE * count
    &&& forall|i: int| 0 <= i < count ==> is_canonical_scalar(#[trigger] chunk(s, i))
}

/// A string of `count` fresh scalars in canonical form: what `reduce_scalars` makes of
/// `48 * count` bytes from the entropy source, which are wiped. `None` where so many bytes
/// cannot be held, and where the entropy source fails.
pub fn sample_scalars(count: usize) -> (r: Option<Vec<u8>>)
    ensures
        count > usize::MAX / SCALAR_SIZE ==> r is None,
        r matches Some(v) ==> all_canonical(v@, count as int) && exists|raw: Seq<u8>|
            raw.len() == SCALAR_SIZE * count && #[trigger] is_reduction(raw, v@),
{
    if count > usize::MAX / SCALAR_SIZE {
        return None;
    }
    let mut raw = match os_random(SCALAR_SIZE * count) {
        Some(v) => v,
        None => {
            return None;
        },
    };
    let ghost drawn = raw@;
    let reduced = reduce_scalars(&mut raw);
    proof {
        if reduced is Some {
            assert(is_reduction(drawn, reduced->0@));
            assert forall|i: int| 0 <= i < count implies is_canonical_scalar(
                #[trigger] chunk(reduced->0@, i),
            ) by {
                assert(reduces_at(drawn, reduced->0@, i));
            }
        }
    }
    reduced
}

/// The scalar at position `i` of `out` is the canonical form of the one at that position
/// of `raw`.
pub open spec fn reduces_at(raw: Seq<u8>, out: Seq<u8>, i: int) -> bool {
    is_canonical_scalar(chunk(out, i)) && be_value(chunk(out, i)) == scalar_value(chunk(raw, i))
}

/// `out` holds the scalars of `raw`, each in canonical form: the residue of its 48 bytes
/// modulo the group order.
pub open spec fn is_reduction(raw: Seq<u8>, out: Seq<u8>) -> bool {
    &&& raw.len() % SCALAR_SIZE as nat == 0
    &&& out.len() == raw.len()
    &&& forall|i: int|
        0 <= i < raw.len() / SCALAR_SIZE as nat ==> #[trigger] reduces_at(raw, out, i)
}

/// The scalars of a byte string, each brought into canonical form. The string is wiped,
/// whatever the outcome.
///
/// Gives `None` where the string is no whole number of scalars.
pub fn reduce_scalars(raw: &mut Vec<u8>) -> (r: Option<Vec<u8>>)
    ensures
        final(raw)@ == Seq::<u8>::empty(),
        r is None <==> old(raw)@.len() % SCALAR_SIZE as nat != 0,
        r matches Some(v) ==> is_reduction(old(raw)@, v@),
{
    let total: usize = raw.len();
    if total % SCALAR_SIZE != 0 {
        wipe(raw);
        return None;
    }
    let count: usize = total / SCALAR_SIZE;
    let mut out: Vec<u8> = Vec::new();
    let mut i: usize = 0;
    while i < count
        invariant
            i <= count,
            raw@ == old(raw)@,
            raw@.len() == total,
            total == SCALAR_SIZE * count,
            out@.len() == SCALAR_SIZE * i,
            forall|p: int| 0 <= p < i ==> #[trigger] reduces_at(raw@, out@, p),
        decreases count - i,
    {
        let mut scalar = fe_reduce(
            slice_subrange(raw.as_slice(), SCALAR_SIZE * i, SCALAR_SIZE * i + SCALAR_SIZE),
        );
        let ghost before = out@;
        append(&mut out, scalar.as_slice());
        proof {
            assert(chunk(out@, i as int) =~= scalar@);
            assert forall|p: int| 0 <= p < i implies #[trigger] reduces_at(raw@, out@, p) by {
                assert(reduces_at(raw@, before, p));
                assert(chunk(out@, p) =~= chunk(before, p));
            }
        }
        wipe(&mut scalar);
        i += 1;
    }
    wipe(raw);
    Some(out)
}

} // verus!
