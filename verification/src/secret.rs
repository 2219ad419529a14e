//! Entropy and the disposal of secret byte strings.

use rand::RngCore;
use rand::rngs::OsRng;
use vstd::prelude::*;
use zeroize::Zeroize;

verus! {

/// `OsRng::try_fill_bytes`: `n` bytes from the operating system's entropy source, or
/// `None` where the source fails. Nothing is known of the bytes but their number.
#[verifier::external_body]
pub(crate) fn os_random(n: usize) -> (r: Option<Vec<u8>>)
    ensures
        r matches Some(v) ==> v@.len() == n,
{
    let mut buffer = vec![0u8; n];
    match OsRng.try_fill_bytes(&mut buffer) {
        Ok(()) => Some(buffer),
        Err(_) => None,
    }
}

/// `Zeroize::zeroize` on a vector: overwrites the bytes with zeros and leaves the vector
/// empty.
#[verifier::external_body]
pub(crate) fn wipe(v: &mut Vec<u8>)
    ensures
        final(v)@ == Seq::<u8>::empty(),
{
    v.zeroize();
}

} // verus!
