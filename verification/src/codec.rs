//! The byte formats in which keys, shares and ciphertexts travel: the canonical encodings
//! of the parts, one after the other, an index as four bytes, most significant first.

use crate::bytes::{append, bytes_eq, copy_range, lemma_be_value_push};
use crate::element::{g1_valid, g2_valid};
use crate::errors::TibeError;
use crate::group::{
    g1_generator, g2_generator, is_g1, is_g2, lemma_g1_exponent,
    lemma_g2_exponent, G1_SIZE, G2_SIZE,
};
use crate::scalar::{be_value, SCALAR_SIZE};
use crate::types::{
    Ciphertext, CiphertextView, CombinedPrivateKey, PartialDecryptionKey, PartialKeyView,
    PrivateKeyView, PublicKey, PublicKeyView, Share, ShareView,
};
use vstd::prelude::*;
use vstd::slice::slice_subrange;

verus! {

/// Width in bytes of an index.
pub const INDEX_SIZE: usize = 4;

/// Width in bytes of a share.
pub const SHARE_SIZE: usize = 197;

/// Width in bytes of a partial key.
pub const PARTIAL_KEY_SIZE: usize = 294;

/// Width in bytes of a private key.
pub const PRIVATE_KEY_SIZE: usize = 290;

/// Width in bytes of a public key.
pub const PUBLIC_KEY_SIZE: usize = 781;

/// Width in bytes of a ciphertext of the empty message.
pub const CIPHERTEXT_OVERHEAD: usize = 531;

/// The four bytes of an index in `0..2^32`, most significant first.
pub open spec fn index_bytes(j: int) -> Seq<u8> {
    seq![
        (j / 0x1000000) as u8,
        ((j / 0x10000) % 0x100) as u8,
        ((j / 0x100) % 0x100) as u8,
        (j % 0x100) as u8,
    ]
}

/// The four bytes of an index denote the index.
pub proof fn lemma_index_bytes(j: int)
    requires
        0 <= j < 0x1_0000_0000,
    ensures
        index_bytes(j).len() == INDEX_SIZE,
        be_value(index_bytes(j)) == j,
{
    let b3 = (j / 0x1000000) as u8;
    let b2 = ((j / 0x10000) % 0x100) as u8;
    let b1 = ((j / 0x100) % 0x100) as u8;
    let b0 = (j % 0x100) as u8;
    let empty = Seq::<u8>::empty();
    assert(be_value(empty) == 0);
    lemma_be_value_push(empty, b3);
    lemma_be_value_push(empty.push(b3), b2);
    lemma_be_value_push(empty.push(b3).push(b2), b1);
    lemma_be_value_push(empty.push(b3).push(b2).push(b1), b0);
    assert(index_bytes(j) =~= empty.push(b3).push(b2).push(b1).push(b0));
}

/// Appends the four bytes of an index.
fn put_index(out: &mut Vec<u8>, j: i32)
    requires
        0 <= j,
    ensures
        final(out)@ == old(out)@ + index_bytes(j as int),
{
    let u: u32 = j as u32;
    let b3: u8 = (u >> 24) as u8;
    let b2: u8 = ((u >> 16) & 0xff) as u8;
    let b1: u8 = ((u >> 8) & 0xff) as u8;
    let b0: u8 = (u & 0xff) as u8;
    assert(b3 == (u / 0x1000000) as u8 && b2 == ((u / 0x10000) % 0x100) as u8 && b1 == ((u
        / 0x100) % 0x100) as u8 && b0 == (u % 0x100) as u8) by (bit_vector)
        requires
            b3 == (u >> 24) as u8,
            b2 == ((u >> 16) & 0xff) as u8,
            b1 == ((u >> 8) & 0xff) as u8,
            b0 == (u & 0xff) as u8,
    ;
    out.push(b3);
    out.push(b2);
    out.push(b1);
    out.push(b0);
    assert(out@ =~= old(out)@ + index_bytes(j as int));
}

/// The number that the first four bytes denote, where it is an index above zero.
fn get_index(b: &[u8]) -> (r: Option<i32>)
    requires
        b@.len() >= INDEX_SIZE,
    ensures
        r is Some <==> 1 <= be_value(b@.subrange(0, INDEX_SIZE as int)) <= i32::MAX,
        r matches Some(j) ==> j == be_value(b@.subrange(0, INDEX_SIZE as int)),
{
    let ghost head = b@.subrange(0, INDEX_SIZE as int);
    proof {
        let empty = Seq::<u8>::empty();
        assert(be_value(empty) == 0);
        lemma_be_value_push(empty, b@[0]);
        lemma_be_value_push(empty.push(b@[0]), b@[1]);
        lemma_be_value_push(empty.push(b@[0]).push(b@[1]), b@[2]);
        lemma_be_value_push(empty.push(b@[0]).push(b@[1]).push(b@[2]), b@[3]);
        assert(head =~= empty.push(b@[0]).push(b@[1]).push(b@[2]).push(b@[3]));
    }
    let value: u64 = (b[0] as u64) * 0x1000000 + (b[1] as u64) * 0x10000 + (b[2] as u64) * 0x100
        + (b[3] as u64);
    if value < 1 || value > 0x7fff_ffff {
        None
    } else {
        Some(value as i32)
    }
}

/// The bytes of a share: its index and its element of G2.
pub open spec fn share_bytes(s: ShareView) -> Seq<u8> {
    index_bytes(s.j) + s.value
}

/// The share that a byte string holds, if it holds one: 197 bytes, of which the first
/// four denote an index above zero and the rest are an element of G2.
pub open spec fn parse_share(b: Seq<u8>) -> Option<ShareView> {
    let j = be_value(b.subrange(0, INDEX_SIZE as int));
    let value = b.subrange(INDEX_SIZE as int, SHARE_SIZE as int);
    if b.len() == SHARE_SIZE && 1 <= j <= i32::MAX && is_g2(value) {
        Some(ShareView { j, value })
    } else {
        None
    }
}

/// The bytes of a partial key: its index, its element of G2 and its element of G1.
pub open spec fn partial_key_bytes(key: PartialKeyView) -> Seq<u8> {
    index_bytes(key.j) + key.w0 + key.w1
}

/// The partial key that a byte string holds, if it holds one.
pub open spec fn parse_partial_key(b: Seq<u8>) -> Option<PartialKeyView> {
    let j = be_value(b.subrange(0, INDEX_SIZE as int));
    let w0 = b.subrange(INDEX_SIZE as int, INDEX_SIZE + G2_SIZE);
    let w1 = b.subrange(INDEX_SIZE + G2_SIZE, PARTIAL_KEY_SIZE as int);
    if b.len() == PARTIAL_KEY_SIZE && 1 <= j <= i32::MAX && is_g2(w0) && is_g1(w1) {
        Some(PartialKeyView { j, w0, w1 })
    } else {
        None
    }
}

/// The bytes of a private key: its element of G2 and its element of G1.
pub open spec fn private_key_bytes(key: PrivateKeyView) -> Seq<u8> {
    key.w0 + key.w1
}

/// The private key that a byte string holds, if it holds one.
pub open spec fn parse_private_key(b: Seq<u8>) -> Option<PrivateKeyView> {
    let w0 = b.subrange(0, G2_SIZE as int);
    let w1 = b.subrange(G2_SIZE as int, PRIVATE_KEY_SIZE as int);
    if b.len() == PRIVATE_KEY_SIZE && is_g2(w0) && is_g1(w1) {
        Some(PrivateKeyView { w0, w1 })
    } else {
        None
    }
}

/// The bytes of a ciphertext: its five components in their order.
pub open spec fn ciphertext_bytes(ct: CiphertextView) -> Seq<u8> {
    ct.c1 + ct.c2 + ct.c3 + ct.c4 + ct.tag
}

/// The ciphertext that a byte string holds, if it holds one. The masked message is what
/// lies between the first component and the last three, whose widths are fixed.
pub open spec fn parse_ciphertext(b: Seq<u8>) -> Option<CiphertextView> {
    let end = b.len() - (CIPHERTEXT_OVERHEAD - G1_SIZE);
    let c1 = b.subrange(0, G1_SIZE as int);
    let c2 = b.subrange(G1_SIZE as int, end);
    let c3 = b.subrange(end, end + G2_SIZE);
    let c4 = b.subrange(end + G2_SIZE, end + 2 * G2_SIZE);
    let tag = b.subrange(end + 2 * G2_SIZE, b.len() as int);
    if b.len() >= CIPHERTEXT_OVERHEAD && is_g1(c1) && is_g2(c3) && is_g2(c4) {
        Some(CiphertextView { c1, c2, c3, c4, tag })
    } else {
        None
    }
}

/// The bytes of a public key: `n`, `k`, `g`, `g1`, `g2`, `h1` and `h2`.
pub open spec fn public_key_bytes(pk: PublicKeyView) -> Seq<u8> {
    index_bytes(pk.n) + index_bytes(pk.k) + pk.g + pk.g1 + pk.g2 + pk.h1 + pk.h2
}

/// The public key that a byte string holds, if it holds a well-formed one.
pub open spec fn parse_public_key(b: Seq<u8>) -> Option<PublicKeyView> {
    let pk = PublicKeyView {
        n: be_value(b.subrange(0, 4)),
        k: be_value(b.subrange(4, 8)),
        g: b.subrange(8, 8 + G1_SIZE),
        g1: b.subrange(8 + G1_SIZE, 8 + 2 * G1_SIZE),
        g2: b.subrange(8 + 2 * G1_SIZE, 8 + 2 * G1_SIZE + G2_SIZE),
        h1: b.subrange(8 + 2 * G1_SIZE + G2_SIZE, 8 + 2 * G1_SIZE + 2 * G2_SIZE),
        h2: b.subrange(8 + 2 * G1_SIZE + 2 * G2_SIZE, PUBLIC_KEY_SIZE as int),
    };
    if b.len() == PUBLIC_KEY_SIZE && pk.wf() {
        Some(pk)
    } else {
        None
    }
}

impl Share {
    /// The bytes of the share.
    ///
    /// Fails with `InvalidShareIndex` where the index is below one.
    pub fn to_bytes(&self) -> (res: Result<Vec<u8>, TibeError>)
        ensures
            res is Err <==> self@.j < 1,
            res matches Err(e) ==> e == TibeError::InvalidShareIndex,
            res matches Ok(b) ==> b@ == share_bytes(self@),
    {
        if self.j < 1 {
            return Err(TibeError::InvalidShareIndex);
        }
        let mut out: Vec<u8> = Vec::new();
        put_index(&mut out, self.j);
        append(&mut out, self.value.as_slice());
        Ok(out)
    }

    /// The share that the bytes hold.
    ///
    /// Fails with `SerializationError` where they hold none.
    pub fn from_bytes(b: &[u8]) -> (res: Result<Share, TibeError>)
        ensures
            match res {
                Ok(s) => parse_share(b@) == Some(s@),
                Err(e) => e == TibeError::SerializationError && parse_share(b@) is None,
            },
    {
        if b.len() != SHARE_SIZE {
            return Err(TibeError::SerializationError);
        }
        let j = match get_index(b) {
            Some(j) => j,
            None => {
                return Err(TibeError::SerializationError);
            },
        };
        let value = copy_range(b, INDEX_SIZE, SHARE_SIZE);
        if !g2_valid(value.as_slice()) {
            return Err(TibeError::SerializationError);
        }
        Ok(Share { j, value })
    }
}

impl PartialDecryptionKey {
    /// The bytes of the partial key.
    ///
    /// Fails with `InvalidShareIndex` where the index is below one.
    pub fn to_bytes(&self) -> (res: Result<Vec<u8>, TibeError>)
        ensures
            res is Err <==> self@.j < 1,
            res matches Err(e) ==> e == TibeError::InvalidShareIndex,
            res matches Ok(b) ==> b@ == partial_key_bytes(self@),
    {
        if self.j < 1 {
            return Err(TibeError::InvalidShareIndex);
        }
        let mut out: Vec<u8> = Vec::new();
        put_index(&mut out, self.j);
        append(&mut out, self.w0.as_slice());
        append(&mut out, self.w1.as_slice());
        Ok(out)
    }

    /// The partial key that the bytes hold.
    ///
    /// Fails with `SerializationError` where they hold none.
    pub fn from_bytes(b: &[u8]) -> (res: Result<PartialDecryptionKey, TibeError>)
        ensures
            match res {
                Ok(key) => parse_partial_key(b@) == Some(key@),
                Err(e) => e == TibeError::SerializationError && parse_partial_key(b@) is None,
            },
    {
        if b.len() != PARTIAL_KEY_SIZE {
            return Err(TibeError::SerializationError);
        }
        let j = match get_index(b) {
            Some(j) => j,
            None => {
                return Err(TibeError::SerializationError);
            },
        };
        let w0 = copy_range(b, INDEX_SIZE, INDEX_SIZE + G2_SIZE);
        let w1 = copy_range(b, INDEX_SIZE + G2_SIZE, PARTIAL_KEY_SIZE);
        if !g2_valid(w0.as_slice()) || !g1_valid(w1.as_slice()) {
            return Err(TibeError::SerializationError);
        }
        Ok(PartialDecryptionKey { j, w0, w1 })
    }
}

impl CombinedPrivateKey {
    /// The bytes of the private key.
    pub fn to_bytes(&self) -> (b: Vec<u8>)
        ensures
            b@ == private_key_bytes(self@),
    {
        let mut out: Vec<u8> = Vec::new();
        append(&mut out, self.w0.as_slice());
        append(&mut out, self.w1.as_slice());
        out
    }

    /// The private key that the bytes hold.
    ///
    /// Fails with `SerializationError` where they hold none.
    pub fn from_bytes(b: &[u8]) -> (res: Result<CombinedPrivateKey, TibeError>)
        ensures
            match res {
                Ok(key) => parse_private_key(b@) == Some(key@),
                Err(e) => e == TibeError::SerializationError && parse_private_key(b@) is None,
            },
    {
        if b.len() != PRIVATE_KEY_SIZE {
            return Err(TibeError::SerializationError);
        }
        let w0 = copy_range(b, 0, G2_SIZE);
        let w1 = copy_range(b, G2_SIZE, PRIVATE_KEY_SIZE);
        if !g2_valid(w0.as_slice()) || !g1_valid(w1.as_slice()) {
            return Err(TibeError::SerializationError);
        }
        Ok(CombinedPrivateKey { w0, w1 })
    }
}

impl Ciphertext {
    /// The bytes of the ciphertext.
    pub fn to_bytes(&self) -> (b: Vec<u8>)
        ensures
            b@ == ciphertext_bytes(self@),
    {
        let mut out: Vec<u8> = Vec::new();
        append(&mut out, self.c1.as_slice());
        append(&mut out, self.c2.as_slice());
        append(&mut out, self.c3.as_slice());
        append(&mut out, self.c4.as_slice());
        append(&mut out, self.tag.as_slice());
        out
    }

    /// The ciphertext that the bytes hold. Whether it is valid for an identity is for
    /// `validateCt` to say.
    ///
    /// Fails with `SerializationError` where they hold none.
    pub fn from_bytes(b: &[u8]) -> (res: Result<Ciphertext, TibeError>)
        ensures
            match res {
                Ok(ct) => parse_ciphertext(b@) == Some(ct@),
                Err(e) => e == TibeError::SerializationError && parse_ciphertext(b@) is None,
            },
    {
        if b.len() < CIPHERTEXT_OVERHEAD {
            return Err(TibeError::SerializationError);
        }
        let end: usize = b.len() - (CIPHERTEXT_OVERHEAD - G1_SIZE);
        let c1 = copy_range(b, 0, G1_SIZE);
        let c2 = copy_range(b, G1_SIZE, end);
        let c3 = copy_range(b, end, end + G2_SIZE);
        let c4 = copy_range(b, end + G2_SIZE, end + 2 * G2_SIZE);
        let tag = copy_range(b, end + 2 * G2_SIZE, b.len());
        if !g1_valid(c1.as_slice()) || !g2_valid(c3.as_slice()) || !g2_valid(c4.as_slice()) {
            return Err(TibeError::SerializationError);
        }
        Ok(Ciphertext { c1, c2, c3, c4, tag })
    }
}

impl PublicKey {
    /// The bytes of the public key.
    pub fn to_bytes(&self) -> (b: Vec<u8>)
        ensures
            b@ == public_key_bytes(self@),
    {
        let mut out: Vec<u8> = Vec::new();
        put_index(&mut out, self.n());
        put_index(&mut out, self.k());
        append(&mut out, self.g().as_slice());
        append(&mut out, self.g1().as_slice());
        append(&mut out, self.g2().as_slice());
        append(&mut out, self.h1().as_slice());
        append(&mut out, self.h2().as_slice());
        out
    }

    /// The public key that the bytes hold.
    ///
    /// Fails with `SerializationError` where they hold none that is well formed.
    pub fn from_bytes(b: &[u8]) -> (res: Result<PublicKey, TibeError>)
        ensures
            match res {
                Ok(pk) => parse_public_key(b@) == Some(pk@),
                Err(e) => e == TibeError::SerializationError && parse_public_key(b@) is None,
            },
    {
        if b.len() != PUBLIC_KEY_SIZE {
            return Err(TibeError::SerializationError);
        }
        let n = get_index(b);
        let k = get_index(slice_subrange(b, INDEX_SIZE, PUBLIC_KEY_SIZE));
        assert(b@.subrange(INDEX_SIZE as int, PUBLIC_KEY_SIZE as int).subrange(0, 4)
            =~= b@.subrange(4, 8));
        let g = copy_range(b, 8, 8 + G1_SIZE);
        let g1 = copy_range(b, 8 + G1_SIZE, 8 + 2 * G1_SIZE);
        let g2 = copy_range(b, 8 + 2 * G1_SIZE, 8 + 2 * G1_SIZE + G2_SIZE);
        let h1 = copy_range(b, 8 + 2 * G1_SIZE + G2_SIZE, 8 + 2 * G1_SIZE + 2 * G2_SIZE);
        let h2 = copy_range(b, 8 + 2 * G1_SIZE + 2 * G2_SIZE, PUBLIC_KEY_SIZE);
        let first = g1_generator();
        let second = g2_generator();
        match (n, k) {
            (Some(n), Some(k)) => {
                if k > n {
                    return Err(TibeError::SerializationError);
                }
                if !bytes_eq(g.as_slice(), first.as_slice()) || !bytes_eq(
                    g2.as_slice(),
                    second.as_slice(),
                ) {
                    proof {
                        if is_g1(g@) {
                            lemma_g1_exponent(g@);
                        }
                        if is_g2(g2@) {
                            lemma_g2_exponent(g2@);
                        }
                    }
                    return Err(TibeError::SerializationError);
                }
                if !g1_valid(g1.as_slice()) || !g2_valid(h1.as_slice()) || !g2_valid(
                    h2.as_slice(),
                ) {
                    return Err(TibeError::SerializationError);
                }
                Ok(PublicKey::assemble(n, k, g, g1, g2, h1, h2))
            },
            _ => Err(TibeError::SerializationError),
        }
    }
}

/// A share with an index above zero and an element of G2 is read back from its bytes.
pub proof fn law_share_round_trip(s: ShareView)
    requires
        1 <= s.j <= i32::MAX,
        is_g2(s.value),
    ensures
        parse_share(share_bytes(s)) == Some(s),
{
    let b = share_bytes(s);
    lemma_index_bytes(s.j);
    assert(b.subrange(0, INDEX_SIZE as int) =~= index_bytes(s.j));
    assert(b.subrange(INDEX_SIZE as int, SHARE_SIZE as int) =~= s.value);
}

/// A partial key with an index above zero and elements of the two groups is read back
/// from its bytes.
pub proof fn law_partial_key_round_trip(key: PartialKeyView)
    requires
        1 <= key.j <= i32::MAX,
        is_g2(key.w0),
        is_g1(key.w1),
    ensures
        parse_partial_key(partial_key_bytes(key)) == Some(key),
{
    let b = partial_key_bytes(key);
    lemma_index_bytes(key.j);
    assert(b.subrange(0, INDEX_SIZE as int) =~= index_bytes(key.j));
    assert(b.subrange(INDEX_SIZE as int, INDEX_SIZE + G2_SIZE) =~= key.w0);
    assert(b.subrange(INDEX_SIZE + G2_SIZE, PARTIAL_KEY_SIZE as int) =~= key.w1);
}

/// A private key with elements of the two groups is read back from its bytes.
pub proof fn law_private_key_round_trip(key: PrivateKeyView)
    requires
        is_g2(key.w0),
        is_g1(key.w1),
    ensures
        parse_private_key(private_key_bytes(key)) == Some(key),
{
    let b = private_key_bytes(key);
    assert(b.subrange(0, G2_SIZE as int) =~= key.w0);
    assert(b.subrange(G2_SIZE as int, PRIVATE_KEY_SIZE as int) =~= key.w1);
}

/// A ciphertext with elements of the two groups and a tag of 48 bytes is read back from
/// its bytes, whatever the length of the masked message.
pub proof fn law_ciphertext_round_trip(ct: CiphertextView)
    requires
        is_g1(ct.c1),
        is_g2(ct.c3),
        is_g2(ct.c4),
        ct.tag.len() == SCALAR_SIZE,
    ensures
        parse_ciphertext(ciphertext_bytes(ct)) == Some(ct),
{
    let b = ciphertext_bytes(ct);
    let end = b.len() - (CIPHERTEXT_OVERHEAD - G1_SIZE);
    assert(end == G1_SIZE + ct.c2.len());
    assert(b.subrange(0, G1_SIZE as int) =~= ct.c1);
    assert(b.subrange(G1_SIZE as int, end) =~= ct.c2);
    assert(b.subrange(end, end + G2_SIZE) =~= ct.c3);
    assert(b.subrange(end + G2_SIZE, end + 2 * G2_SIZE) =~= ct.c4);
    assert(b.subrange(end + 2 * G2_SIZE, b.len() as int) =~= ct.tag);
}

/// A well-formed public key is read back from its bytes.
pub proof fn law_public_key_round_trip(pk: PublicKeyView)
    requires
        pk.wf(),
    ensures
        parse_public_key(public_key_bytes(pk)) == Some(pk),
{
    let b = public_key_bytes(pk);
    lemma_index_bytes(pk.n);
    lemma_index_bytes(pk.k);
    assert(b.subrange(0, 4) =~= index_bytes(pk.n));
    assert(b.subrange(4, 8) =~= index_bytes(pk.k));
    assert(b.subrange(8, 8 + G1_SIZE) =~= pk.g);
    assert(b.subrange(8 + G1_SIZE, 8 + 2 * G1_SIZE) =~= pk.g1);
    assert(b.subrange(8 + 2 * G1_SIZE, 8 + 2 * G1_SIZE + G2_SIZE) =~= pk.g2);
    assert(b.subrange(8 + 2 * G1_SIZE + G2_SIZE, 8 + 2 * G1_SIZE + 2 * G2_SIZE) =~= pk.h1);
    assert(b.subrange(8 + 2 * G1_SIZE + 2 * G2_SIZE, PUBLIC_KEY_SIZE as int) =~= pk.h2);
}

} // verus!
