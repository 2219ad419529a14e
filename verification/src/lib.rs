//! Threshold identity-based encryption over a pairing-friendly curve.
//!
//! A dealer splits a master secret among `n` parties. Any `k` of them can together
//! issue the private key of an identity; fewer cannot. Encryption to an identity needs
//! the public key alone, and every ciphertext carries a publicly checkable proof of
//! being well formed.

pub mod bytes;
pub mod cipher;
pub mod codec;
pub mod combine;
pub mod element;
pub mod errors;
pub mod group;
pub mod identity;
pub mod interpolation;
pub mod keygen;
pub mod lagrange;
pub mod laws;
pub mod mask;
pub mod modular;
pub mod poly;
pub mod reorder;
pub mod sampling;
pub mod scalar;
pub mod secret;
pub mod setup;
pub mod types;

pub use cipher::{decrypt, encrypt, encrypt_with, validateCt};
pub use combine::combine;
pub use errors::TibeError;
pub use keygen::{shareKeyGen, shareVerify, share_key_gen_with};
pub use setup::{setup, setup_with};
pub use types::{
    Ciphertext, CombinedPrivateKey, PartialDecryptionKey, PublicKey, Share, VerificationKey, ID,
};
