//! The data that the scheme passes around. Every group element is held as its canonical
//! encoding.

use crate::bytes::copy_range;
use crate::group::{g1_exponent, g2_exponent, is_g1, is_g2};
use vstd::prelude::*;

verus! {

/// An identity: any byte string.
#[derive(Clone, Debug, PartialEq, Eq)]
pub struct ID(pub Vec<u8>);

impl View for ID {
    type V = Seq<u8>;

    open spec fn view(&self) -> Seq<u8> {
        self.0@
    }
}

/// The public verification key: the encodings of `n` elements of G1, one per party, in
/// the order of the parties' indices.
#[derive(Clone, Debug, PartialEq, Eq)]
pub struct VerificationKey(pub Vec<u8>);

impl View for VerificationKey {
    type V = Seq<u8>;

    open spec fn view(&self) -> Seq<u8> {
        self.0@
    }
}

/// The master-key share of party `j`: an element of G2.
#[derive(Clone, Debug, PartialEq, Eq)]
pub struct Share {
    pub j: i32,
    pub value: Vec<u8>,
}

/// What a `Share` holds.
pub ghost struct ShareView {
    pub j: int,
    pub value: Seq<u8>,
}

impl View for Share {
    type V = ShareView;

    open spec fn view(&self) -> ShareView {
        ShareView { j: self.j as int, value: self.value@ }
    }
}

/// The key that party `j` derives for one identity: an element of G2 and one of G1.
#[derive(Clone, Debug, PartialEq, Eq)]
pub struct PartialDecryptionKey {
    pub j: i32,
    pub w0: Vec<u8>,
    pub w1: Vec<u8>,
}

/// What a `PartialDecryptionKey` holds.
pub ghost struct PartialKeyView {
    pub j: int,
    pub w0: Seq<u8>,
    pub w1: Seq<u8>,
}

impl View for PartialDecryptionKey {
    type V = PartialKeyView;

    open spec fn view(&self) -> PartialKeyView {
        PartialKeyView { j: self.j as int, w0: self.w0@, w1: self.w1@ }
    }
}

/// The private key of one identity: an element of G2 and one of G1.
#[derive(Clone, Debug, PartialEq, Eq)]
pub struct CombinedPrivateKey {
    pub w0: Vec<u8>,
    pub w1: Vec<u8>,
}

/// What a `CombinedPrivateKey` holds.
pub ghost struct PrivateKeyView {
    pub w0: Seq<u8>,
    pub w1: Seq<u8>,
}

impl View for CombinedPrivateKey {
    type V = PrivateKeyView;

    open spec fn view(&self) -> PrivateKeyView {
        PrivateKeyView { w0: self.w0@, w1: self.w1@ }
    }
}

/// A ciphertext: an element of G1, the masked message, two elements of G2 and the scalar
/// that binds them together.
#[derive(Clone, Debug, PartialEq, Eq)]
pub struct Ciphertext {
    pub c1: Vec<u8>,
    pub c2: Vec<u8>,
    pub c3: Vec<u8>,
    pub c4: Vec<u8>,
    pub tag: Vec<u8>,
}

/// What a `Ciphertext` holds.
pub ghost struct CiphertextView {
    pub c1: Seq<u8>,
    pub c2: Seq<u8>,
    pub c3: Seq<u8>,
    pub c4: Seq<u8>,
    pub tag: Seq<u8>,
}

impl View for Ciphertext {
    type V = CiphertextView;

    open spec fn view(&self) -> CiphertextView {
        CiphertextView { c1: self.c1@, c2: self.c2@, c3: self.c3@, c4: self.c4@, tag: self.tag@ }
    }
}

/// What a `PublicKey` holds.
pub ghost struct PublicKeyView {
    pub n: int,
    pub k: int,
    pub g: Seq<u8>,
    pub g1: Seq<u8>,
    pub g2: Seq<u8>,
    pub h1: Seq<u8>,
    pub h2: Seq<u8>,
}

impl PublicKeyView {
    /// The parameters are in range, `g` and `g2` are the generators of their groups, and
    /// `g1` is an element of G1, and `h1` and `h2` are elements of G2.
    pub open spec fn wf(self) -> bool {
        &&& 1 <= self.k <= self.n <= i32::MAX
        &&& is_g1(self.g) && g1_exponent(self.g) == 1
        &&& is_g1(self.g1)
        &&& is_g2(self.g2) && g2_exponent(self.g2) == 1
        &&& is_g2(self.h1)
        &&& is_g2(self.h2)
    }

    /// The master secret: the exponent of `g1`.
    pub open spec fn alpha(self) -> int {
        g1_exponent(self.g1)
    }

    /// The exponent of `h1`.
    pub open spec fn beta(self) -> int {
        g2_exponent(self.h1)
    }

    /// The exponent of `h2`.
    pub open spec fn gamma(self) -> int {
        g2_exponent(self.h2)
    }
}

/// The system's public parameters: the number of parties `n`, the threshold `k`, and the
/// elements `g`, `g1` of G1 and `g2`, `h1`, `h2` of G2. Identities are encoded with `h1`
/// and the tags of ciphertexts with `h2`. A value of this type is always well
/// formed.
#[derive(Debug, PartialEq, Eq)]
pub struct PublicKey {
    n: i32,
    k: i32,
    g: Vec<u8>,
    g1: Vec<u8>,
    g2: Vec<u8>,
    h1: Vec<u8>,
    h2: Vec<u8>,
}

impl View for PublicKey {
    type V = PublicKeyView;

    closed spec fn view(&self) -> PublicKeyView {
        PublicKeyView {
            n: self.n as int,
            k: self.k as int,
            g: self.g@,
            g1: self.g1@,
            g2: self.g2@,
            h1: self.h1@,
            h2: self.h2@,
        }
    }
}

impl Clone for PublicKey {
    fn clone(&self) -> (r: Self)
        ensures
            r@ == self@,
    {
        proof {
            use_type_invariant(self);
        }
        let g = copy_range(self.g.as_slice(), 0, self.g.len());
        let g1 = copy_range(self.g1.as_slice(), 0, self.g1.len());
        let g2 = copy_range(self.g2.as_slice(), 0, self.g2.len());
        let h1 = copy_range(self.h1.as_slice(), 0, self.h1.len());
        let h2 = copy_range(self.h2.as_slice(), 0, self.h2.len());
        assert(g@ =~= self.g@ && g1@ =~= self.g1@ && g2@ =~= self.g2@ && h1@ =~= self.h1@ && h2@
            =~= self.h2@);
        PublicKey { n: self.n, k: self.k, g, g1, g2, h1, h2 }
    }
}

impl PublicKey {
    #[verifier::type_invariant]
    spec fn inv(self) -> bool {
        self@.wf()
    }

    /// Puts a public key together from parts that are known to be well formed.
    pub(crate) fn assemble(
        n: i32,
        k: i32,
        g: Vec<u8>,
        g1: Vec<u8>,
        g2: Vec<u8>,
        h1: Vec<u8>,
        h2: Vec<u8>,
    ) -> (pk: PublicKey)
        requires
            (PublicKeyView {
                n: n as int,
                k: k as int,
                g: g@,
                g1: g1@,
                g2: g2@,
                h1: h1@,
                h2: h2@,
            }).wf(),
        ensures
            pk@ == (PublicKeyView {
                n: n as int,
                k: k as int,
                g: g@,
                g1: g1@,
                g2: g2@,
                h1: h1@,
                h2: h2@,
            }),
    {
        PublicKey { n, k, g, g1, g2, h1, h2 }
    }

    /// The number of parties.
    pub fn n(&self) -> (r: i32)
        ensures
            r == self@.n,
            self@.wf(),
    {
        proof {
            use_type_invariant(self);
        }
        self.n
    }

    /// The threshold: the number of partial keys that make a private key.
    pub fn k(&self) -> (r: i32)
        ensures
            r == self@.k,
            self@.wf(),
    {
        proof {
            use_type_invariant(self);
        }
        self.k
    }

    /// The generator of G1.
    pub fn g(&self) -> (r: &Vec<u8>)
        ensures
            r@ == self@.g,
            self@.wf(),
    {
        proof {
            use_type_invariant(self);
        }
        &self.g
    }

    /// The generator of G1 raised to the master secret.
    pub fn g1(&self) -> (r: &Vec<u8>)
        ensures
            r@ == self@.g1,
            self@.wf(),
    {
        proof {
            use_type_invariant(self);
        }
        &self.g1
    }

    /// The generator of G2.
    pub fn g2(&self) -> (r: &Vec<u8>)
        ensures
            r@ == self@.g2,
            self@.wf(),
    {
        proof {
            use_type_invariant(self);
        }
        &self.g2
    }

    /// The second element of G2, which enters every identity's encoding.
    pub fn h1(&self) -> (r: &Vec<u8>)
        ensures
            r@ == self@.h1,
            self@.wf(),
    {
        proof {
            use_type_invariant(self);
        }
        &self.h1
    }

    /// The third element of G2, which enters the encoding of every ciphertext's tag.
    pub fn h2(&self) -> (r: &Vec<u8>)
        ensures
            r@ == self@.h2,
            self@.wf(),
    {
        proof {
            use_type_invariant(self);
        }
        &self.h2
    }
}

} // verus!
