//! The mask that hides a message: a stream of bytes derived from the session element,
//! which is combined with the message byte by byte.

use amcl_wrapper::amcl::hash256::HASH256;
use crate::bytes::append;
use crate::secret::wipe;
use vstd::prelude::*;

verus! {

/// Width in bytes of a block of the stream.
pub const BLOCK_SIZE: usize = 32;

/// The length below which `HASH256` takes a message: it counts the bits of the message
/// and of its padding in 32 bits.
pub const DIGEST_LIMIT: usize = 0x1FFF_FFC0;

/// The length below which a seed leaves room for the number of a block.
pub const SEED_LIMIT: usize = 0x1FFF_FFB8;

/// The SHA-256 digest of a message, as `HASH256` computes it.
pub uninterp spec fn sha256_digest(msg: Seq<u8>) -> Seq<u8>;

/// `HASH256::process_array` and `HASH256::hash`: the SHA-256 digest of a message, 32
/// bytes. The message is short enough for the 32 bits in which the hash counts its bits.
#[verifier::external_body]
pub(crate) fn sha256(msg: &[u8]) -> (r: Vec<u8>)
    requires
        msg@.len() < DIGEST_LIMIT,
    ensures
        r@ == sha256_digest(msg@),
        r@.len() == BLOCK_SIZE,
{
    let mut state = HASH256::new();
    state.process_array(msg);
    state.hash().to_vec()
}

/// The number of a block, in eight bytes, most significant first.
pub open spec fn counter_bytes(c: u64) -> Seq<u8> {
    seq![
        (c >> 56) as u8,
        ((c >> 48) & 0xff) as u8,
        ((c >> 40) & 0xff) as u8,
        ((c >> 32) & 0xff) as u8,
        ((c >> 24) & 0xff) as u8,
        ((c >> 16) & 0xff) as u8,
        ((c >> 8) & 0xff) as u8,
        (c & 0xff) as u8,
    ]
}

/// The block of the stream with a given number: the digest of the seed followed by the
/// number.
pub open spec fn stream_block(seed: Seq<u8>, c: u64) -> Seq<u8> {
    sha256_digest(seed + counter_bytes(c))
}

/// The byte of the stream at position `p`.
pub open spec fn stream_byte(seed: Seq<u8>, p: int) -> u8 {
    stream_block(seed, (p / BLOCK_SIZE as int) as u64)[p % BLOCK_SIZE as int]
}

/// The data with every byte combined with the stream's byte at its position. Masking
/// twice with one seed gives the data back.
pub open spec fn masked(seed: Seq<u8>, data: Seq<u8>) -> Seq<u8> {
    Seq::new(data.len(), |p: int| data[p] ^ stream_byte(seed, p))
}

/// Masking twice with one seed gives the data back.
pub proof fn lemma_mask_twice(seed: Seq<u8>, data: Seq<u8>)
    ensures
        masked(seed, masked(seed, data)) == data,
{
    assert forall|p: int| 0 <= p < data.len() implies masked(seed, masked(seed, data))[p]
        == data[p] by {
        let a = data[p];
        let b = stream_byte(seed, p);
        assert((a ^ b) ^ b == a) by (bit_vector);
    }
    assert(masked(seed, masked(seed, data)) =~= data);
}

/// One block of the stream.
fn block(seed: &[u8], c: u64) -> (r: Vec<u8>)
    requires
        seed@.len() < SEED_LIMIT,
    ensures
        r@ == stream_block(seed@, c),
        r@.len() == BLOCK_SIZE,
{
    let mut input: Vec<u8> = Vec::new();
    append(&mut input, seed);
    input.push((c >> 56) as u8);
    input.push(((c >> 48) & 0xff) as u8);
    input.push(((c >> 40) & 0xff) as u8);
    input.push(((c >> 32) & 0xff) as u8);
    input.push(((c >> 24) & 0xff) as u8);
    input.push(((c >> 16) & 0xff) as u8);
    input.push(((c >> 8) & 0xff) as u8);
    input.push((c & 0xff) as u8);
    assert(input@ =~= seed@ + counter_bytes(c));
    let digest = sha256(input.as_slice());
    wipe(&mut input);
    digest
}

/// Masks the data with the stream that the seed gives; applied to masked data, it takes
/// the mask off. The seed is shorter than `SEED_LIMIT`, the most that the hash takes.
pub fn mask(seed: &[u8], data: &[u8]) -> (r: Vec<u8>)
    requires
        seed@.len() < SEED_LIMIT,
    ensures
        r@ == masked(seed@, data@),
{
    let mut out: Vec<u8> = Vec::new();
    let mut p: usize = 0;
    let mut c: u64 = 0;
    while p < data.len()
        invariant
            p <= data@.len(),
            seed@.len() < SEED_LIMIT,
            out@.len() == p,
            p == c * BLOCK_SIZE || p == data@.len(),
            forall|t: int| 0 <= t < p ==> out@[t] == data@[t] ^ stream_byte(seed@, t),
        decreases data@.len() - p,
    {
        let mut digest = block(seed, c);
        let mut i: usize = 0;
        while i < BLOCK_SIZE && p < data.len()
            invariant
                i <= BLOCK_SIZE,
                p <= data@.len(),
                p == c * BLOCK_SIZE + i,
                out@.len() == p,
                digest@ == stream_block(seed@, c),
                digest@.len() == BLOCK_SIZE,
                forall|t: int| 0 <= t < p ==> out@[t] == data@[t] ^ stream_byte(seed@, t),
            decreases BLOCK_SIZE - i,
        {
            assert(p as int / BLOCK_SIZE as int == c && p as int % BLOCK_SIZE as int == i);
            out.push(data[p] ^ digest[i]);
            p += 1;
            i += 1;
        }
        wipe(&mut digest);
        if p < data.len() {
            c += 1;
        }
    }
    assert(out@ =~= masked(seed@, data@));
    out
}

} // verus!
