use tibe::bytes::scalar_from_u32;
use tibe::{
    combine, decrypt, encrypt, encrypt_with, setup, setup_with, shareKeyGen, shareVerify,
    share_key_gen_with, validateCt, PartialDecryptionKey, PublicKey, Share, TibeError,
    VerificationKey, ID,
};

fn seed_of(values: &[u32]) -> Vec<u8> {
    let mut seed = Vec::new();
    for v in values {
        seed.extend_from_slice(&scalar_from_u32(*v));
    }
    seed
}

fn small_system() -> (PublicKey, VerificationKey, Vec<Share>) {
    let mut seed = seed_of(&[5, 7, 11, 13, 17]);
    setup_with(5, 3, &mut seed).unwrap()
}

fn alice() -> ID {
    ID(b"alice@example.com".to_vec())
}

fn subsets_of_three() -> Vec<[usize; 3]> {
    let mut out = Vec::new();
    for a in 0..5 {
        for b in (a + 1)..5 {
            for c in (b + 1)..5 {
                out.push([a, b, c]);
            }
        }
    }
    out
}

#[test]
fn setup_yields_n_shares_and_entries() {
    let (pk, vk, shares) = setup(5, 3).unwrap();
    assert_eq!(pk.n(), 5);
    assert_eq!(pk.k(), 3);
    assert_eq!(shares.len(), 5);
    assert_eq!(vk.0.len(), 5 * 97);
    for (pos, share) in shares.iter().enumerate() {
        assert_eq!(share.j, pos as i32 + 1);
        assert_eq!(share.value.len(), 193);
    }
}

#[test]
fn setup_with_threshold_one_and_single_party() {
    let (pk, vk, shares) = setup(1, 1).unwrap();
    assert_eq!(pk.n(), 1);
    assert_eq!(shares.len(), 1);
    assert_eq!(vk.0.len(), 97);
}

#[test]
fn setup_rejects_parameters_out_of_range() {
    assert_eq!(setup(3, 0).err(), Some(TibeError::InvalidParameters));
    assert_eq!(setup(3, 4).err(), Some(TibeError::InvalidParameters));
    assert_eq!(setup(0, 0).err(), Some(TibeError::InvalidParameters));
    assert_eq!(setup(0, 1).err(), Some(TibeError::InvalidParameters));
    assert_eq!(setup(-1, 1).err(), Some(TibeError::InvalidParameters));
    assert_eq!(setup(2, -1).err(), Some(TibeError::InvalidParameters));
}

#[test]
fn setup_with_wipes_the_seed() {
    let mut seed = seed_of(&[5, 7, 11, 13, 17]);
    assert!(setup_with(5, 3, &mut seed).is_ok());
    assert!(seed.is_empty());
    let mut short = seed_of(&[5, 7, 11, 13]);
    assert_eq!(setup_with(5, 3, &mut short).err(), Some(TibeError::InvalidParameters));
    assert!(short.is_empty());
}

#[test]
fn setup_with_rejects_a_degenerate_seed() {
    let mut zero_secret = seed_of(&[0, 7, 11, 13, 17]);
    assert_eq!(setup_with(5, 3, &mut zero_secret).err(), Some(TibeError::InvalidParameters));
    let mut zero_shift = seed_of(&[5, 7, 11, 0, 17]);
    assert_eq!(setup_with(5, 3, &mut zero_shift).err(), Some(TibeError::InvalidParameters));
    let mut zero_bind = seed_of(&[5, 7, 11, 13, 0]);
    assert_eq!(setup_with(5, 3, &mut zero_bind).err(), Some(TibeError::InvalidParameters));
}

#[test]
fn setup_with_is_deterministic() {
    let first = small_system();
    let second = small_system();
    assert_eq!(first.0, second.0);
    assert_eq!(first.1, second.1);
    assert_eq!(first.2, second.2);
}

#[test]
fn every_honest_partial_key_verifies() {
    let (pk, vk, shares) = setup(5, 3).unwrap();
    let id = alice();
    for share in shares.iter() {
        let key = shareKeyGen(&pk, share.j, share, &id).unwrap();
        assert_eq!(key.j, share.j);
        assert!(shareVerify(&pk, &vk, &id, &key));
    }
}

#[test]
fn share_key_gen_rejects_a_foreign_index() {
    let (pk, _vk, shares) = small_system();
    let id = alice();
    assert_eq!(shareKeyGen(&pk, 0, &shares[0], &id).err(), Some(TibeError::InvalidShareIndex));
    assert_eq!(shareKeyGen(&pk, 6, &shares[0], &id).err(), Some(TibeError::InvalidShareIndex));
    assert_eq!(shareKeyGen(&pk, 2, &shares[0], &id).err(), Some(TibeError::InvalidShareIndex));
    assert_eq!(shareKeyGen(&pk, -1, &shares[0], &id).err(), Some(TibeError::InvalidShareIndex));
}

#[test]
fn share_key_gen_rejects_a_malformed_share() {
    let (pk, _vk, shares) = small_system();
    let id = alice();
    let mut broken = shares[0].clone();
    broken.value[40] ^= 1;
    assert_eq!(shareKeyGen(&pk, 1, &broken, &id).err(), Some(TibeError::SerializationError));
    let mut short = shares[0].clone();
    short.value.pop();
    assert_eq!(shareKeyGen(&pk, 1, &short, &id).err(), Some(TibeError::SerializationError));
}

#[test]
fn share_key_gen_with_rejects_a_useless_blinding() {
    let (pk, _vk, shares) = small_system();
    let id = alice();
    let zero = scalar_from_u32(0);
    assert_eq!(
        share_key_gen_with(&pk, 1, &shares[0], &id, &zero).err(),
        Some(TibeError::InvalidParameters)
    );
    assert_eq!(
        share_key_gen_with(&pk, 1, &shares[0], &id, &[1u8; 47]).err(),
        Some(TibeError::InvalidParameters)
    );
}

#[test]
fn share_key_gen_with_rejects_a_blinding_that_is_not_reduced() {
    let (pk, _vk, shares) = small_system();
    let id = alice();
    assert_eq!(
        share_key_gen_with(&pk, 1, &shares[0], &id, &[0xffu8; 48]).err(),
        Some(TibeError::ModulusMismatch)
    );
}

#[test]
fn encrypt_with_rejects_a_scalar_that_is_not_reduced() {
    let (pk, _vk, _shares) = small_system();
    let id = alice();
    assert_eq!(
        encrypt_with(&pk, &id, b"m", &[0xffu8; 48]).err(),
        Some(TibeError::ModulusMismatch)
    );
}

#[test]
fn combine_reports_a_key_that_vanishes() {
    // with the nodes 1 and 2 the coefficients are 2 and -1: blinding scalars 5 and 10 cancel
    let mut seed = seed_of(&[5, 7, 13, 17]);
    let (pk, vk, shares) = setup_with(2, 2, &mut seed).unwrap();
    let id = alice();
    let first = share_key_gen_with(&pk, 1, &shares[0], &id, &scalar_from_u32(5)).unwrap();
    let second = share_key_gen_with(&pk, 2, &shares[1], &id, &scalar_from_u32(10)).unwrap();
    assert!(shareVerify(&pk, &vk, &id, &first));
    assert!(shareVerify(&pk, &vk, &id, &second));
    assert_eq!(
        combine(&pk, &vk, &id, &vec![first, second]).err(),
        Some(TibeError::VerificationFailure)
    );
}

#[test]
fn error_descriptions_differ() {
    let all = [
        TibeError::InvalidParameters,
        TibeError::InvalidShareIndex,
        TibeError::VerificationFailure,
        TibeError::InsufficientShares,
        TibeError::DuplicateShareIndex,
        TibeError::InvalidCiphertext,
        TibeError::SerializationError,
        TibeError::ModulusMismatch,
        TibeError::EntropyFailure,
    ];
    for (i, a) in all.iter().enumerate() {
        for (j, b) in all.iter().enumerate() {
            assert_eq!(i == j, a.describe() == b.describe());
        }
    }
    assert_eq!(TibeError::InsufficientShares.describe(), "insufficient shares");
}

#[test]
fn share_verify_rejects_another_identity() {
    let (pk, vk, shares) = small_system();
    let id1 = ID(b"alice@example.com".to_vec());
    let id2 = ID(b"bob@example.com".to_vec());
    let key = shareKeyGen(&pk, 2, &shares[1], &id1).unwrap();
    assert!(shareVerify(&pk, &vk, &id1, &key));
    assert!(!shareVerify(&pk, &vk, &id2, &key));
}

#[test]
fn share_verify_rejects_what_is_malformed() {
    let (pk, vk, shares) = small_system();
    let id = alice();
    let key = shareKeyGen(&pk, 2, &shares[1], &id).unwrap();
    let mut other_index = key.clone();
    other_index.j = 3;
    assert!(!shareVerify(&pk, &vk, &id, &other_index));
    let mut no_index = key.clone();
    no_index.j = 0;
    assert!(!shareVerify(&pk, &vk, &id, &no_index));
    let mut beyond = key.clone();
    beyond.j = 6;
    assert!(!shareVerify(&pk, &vk, &id, &beyond));
    let mut flipped = key.clone();
    flipped.w0[100] ^= 0x80;
    assert!(!shareVerify(&pk, &vk, &id, &flipped));
    let mut short = key.clone();
    short.w1.pop();
    assert!(!shareVerify(&pk, &vk, &id, &short));
    let cut = VerificationKey(vk.0[..96].to_vec());
    assert!(!shareVerify(&pk, &cut, &id, &key));
    let swapped = PartialDecryptionKey { j: 2, w0: key.w0.clone(), w1: pk.g().clone() };
    assert!(!shareVerify(&pk, &vk, &id, &swapped));
}

#[test]
fn combine_fails_below_the_threshold() {
    let (pk, vk, shares) = small_system();
    let id = alice();
    let keys: Vec<PartialDecryptionKey> =
        shares.iter().map(|s| shareKeyGen(&pk, s.j, s, &id).unwrap()).collect();
    for size in 0..3 {
        let few = keys[..size].to_vec();
        assert_eq!(combine(&pk, &vk, &id, &few).err(), Some(TibeError::InsufficientShares));
    }
    assert!(combine(&pk, &vk, &id, &keys[..3].to_vec()).is_ok());
}

#[test]
fn combine_rejects_a_repeated_index() {
    let (pk, vk, shares) = small_system();
    let id = alice();
    let first = shareKeyGen(&pk, 1, &shares[0], &id).unwrap();
    let second = shareKeyGen(&pk, 2, &shares[1], &id).unwrap();
    let again = shareKeyGen(&pk, 1, &shares[0], &id).unwrap();
    let keys = vec![first, second, again];
    assert_eq!(combine(&pk, &vk, &id, &keys).err(), Some(TibeError::DuplicateShareIndex));
}

#[test]
fn combine_rejects_a_foreign_index_and_malformed_keys() {
    let (pk, vk, shares) = small_system();
    let id = alice();
    let keys: Vec<PartialDecryptionKey> =
        shares.iter().map(|s| shareKeyGen(&pk, s.j, s, &id).unwrap()).collect();
    let mut foreign = keys[..3].to_vec();
    foreign[1].j = 9;
    assert_eq!(combine(&pk, &vk, &id, &foreign).err(), Some(TibeError::InvalidShareIndex));
    let mut malformed = keys[..3].to_vec();
    malformed[2].w1[5] ^= 4;
    assert_eq!(combine(&pk, &vk, &id, &malformed).err(), Some(TibeError::SerializationError));
    let cut = VerificationKey(vk.0[..97].to_vec());
    assert_eq!(
        combine(&pk, &cut, &id, &keys[..3].to_vec()).err(),
        Some(TibeError::SerializationError)
    );
}

#[test]
fn combined_key_is_the_same_for_every_subset() {
    let (pk, vk, shares) = small_system();
    let id = alice();
    let blinding = scalar_from_u32(1_000_003);
    let keys: Vec<PartialDecryptionKey> = shares
        .iter()
        .map(|s| share_key_gen_with(&pk, s.j, s, &id, &blinding).unwrap())
        .collect();
    for key in keys.iter() {
        assert!(shareVerify(&pk, &vk, &id, key));
    }
    let mut combined = Vec::new();
    for subset in subsets_of_three() {
        let chosen: Vec<PartialDecryptionKey> = subset.iter().map(|i| keys[*i].clone()).collect();
        combined.push(combine(&pk, &vk, &id, &chosen).unwrap());
    }
    assert_eq!(combined.len(), 10);
    for key in combined.iter() {
        assert_eq!(key, &combined[0]);
    }
    let ct = encrypt(&pk, &id, b"hello-world").unwrap();
    assert!(validateCt(&pk, &id, &ct));
    assert_eq!(decrypt(&pk, &id, &combined[0], &ct).unwrap(), b"hello-world".to_vec());
    assert_eq!(decrypt(&pk, &id, &combined[9], &ct).unwrap(), b"hello-world".to_vec());
}

#[test]
fn every_subset_of_fresh_partial_keys_decrypts() {
    let (pk, vk, shares) = setup(5, 3).unwrap();
    let id = alice();
    let keys: Vec<PartialDecryptionKey> =
        shares.iter().map(|s| shareKeyGen(&pk, s.j, s, &id).unwrap()).collect();
    let ct = encrypt(&pk, &id, b"hello-world").unwrap();
    for subset in subsets_of_three() {
        let chosen: Vec<PartialDecryptionKey> = subset.iter().map(|i| keys[*i].clone()).collect();
        let key = combine(&pk, &vk, &id, &chosen).unwrap();
        assert_eq!(decrypt(&pk, &id, &key, &ct).unwrap(), b"hello-world".to_vec());
    }
}

#[test]
fn more_keys_than_the_threshold_combine_too() {
    let (pk, vk, shares) = small_system();
    let id = alice();
    let keys: Vec<PartialDecryptionKey> =
        shares.iter().map(|s| shareKeyGen(&pk, s.j, s, &id).unwrap()).collect();
    let key = combine(&pk, &vk, &id, &keys).unwrap();
    let message = vec![7u8; 100];
    let ct = encrypt(&pk, &id, &message).unwrap();
    assert_eq!(decrypt(&pk, &id, &key, &ct).unwrap(), message);
}

#[test]
fn round_trip_of_messages_of_several_lengths() {
    let (pk, vk, shares) = small_system();
    let id = ID(Vec::new());
    let keys: Vec<PartialDecryptionKey> =
        shares[1..4].iter().map(|s| shareKeyGen(&pk, s.j, s, &id).unwrap()).collect();
    let key = combine(&pk, &vk, &id, &keys).unwrap();
    for len in [0usize, 1, 31, 32, 33, 64, 65] {
        let message: Vec<u8> = (0..len).map(|i| (i * 7 + 3) as u8).collect();
        let ct = encrypt(&pk, &id, &message).unwrap();
        assert_eq!(ct.c2.len(), len);
        assert!(validateCt(&pk, &id, &ct));
        assert_eq!(decrypt(&pk, &id, &key, &ct).unwrap(), message);
    }
}

#[test]
fn encryption_is_randomised_and_encrypt_with_is_not() {
    let (pk, _vk, _shares) = small_system();
    let id = alice();
    let a = encrypt(&pk, &id, b"hello-world").unwrap();
    let b = encrypt(&pk, &id, b"hello-world").unwrap();
    assert_ne!(a, b);
    let s = scalar_from_u32(424_242);
    let c = encrypt_with(&pk, &id, b"hello-world", &s).unwrap();
    let d = encrypt_with(&pk, &id, b"hello-world", &s).unwrap();
    assert_eq!(c, d);
    assert_ne!(c.c2, b"hello-world".to_vec());
}

#[test]
fn encrypt_with_rejects_a_useless_scalar() {
    let (pk, _vk, _shares) = small_system();
    let id = alice();
    assert_eq!(
        encrypt_with(&pk, &id, b"m", &scalar_from_u32(0)).err(),
        Some(TibeError::InvalidParameters)
    );
    assert_eq!(
        encrypt_with(&pk, &id, b"m", &[0u8; 49]).err(),
        Some(TibeError::InvalidParameters)
    );
}

#[test]
fn a_ciphertext_for_another_identity_is_invalid() {
    let (pk, vk, shares) = small_system();
    let id1 = ID(b"alice@example.com".to_vec());
    let id2 = ID(b"bob@example.com".to_vec());
    let keys: Vec<PartialDecryptionKey> =
        shares[..3].iter().map(|s| shareKeyGen(&pk, s.j, s, &id2).unwrap()).collect();
    let key = combine(&pk, &vk, &id2, &keys).unwrap();
    let ct = encrypt(&pk, &id1, b"hello-world").unwrap();
    assert!(!validateCt(&pk, &id2, &ct));
    assert_eq!(decrypt(&pk, &id2, &key, &ct).err(), Some(TibeError::InvalidCiphertext));
}

#[test]
fn decrypt_rejects_a_malformed_key() {
    let (pk, vk, shares) = small_system();
    let id = alice();
    let keys: Vec<PartialDecryptionKey> =
        shares[..3].iter().map(|s| shareKeyGen(&pk, s.j, s, &id).unwrap()).collect();
    let mut key = combine(&pk, &vk, &id, &keys).unwrap();
    key.w0[7] ^= 1;
    let ct = encrypt(&pk, &id, b"hello-world").unwrap();
    assert_eq!(decrypt(&pk, &id, &key, &ct).err(), Some(TibeError::SerializationError));
}

#[test]
fn combine_does_not_depend_on_the_order_of_the_keys() {
    let (pk, vk, shares) = small_system();
    let id = alice();
    let keys: Vec<PartialDecryptionKey> =
        shares.iter().map(|s| shareKeyGen(&pk, s.j, s, &id).unwrap()).collect();
    let forward = vec![keys[0].clone(), keys[2].clone(), keys[4].clone()];
    let backward = vec![keys[4].clone(), keys[2].clone(), keys[0].clone()];
    let rotated = vec![keys[2].clone(), keys[4].clone(), keys[0].clone()];
    let first = combine(&pk, &vk, &id, &forward).unwrap();
    assert_eq!(combine(&pk, &vk, &id, &backward).unwrap(), first);
    assert_eq!(combine(&pk, &vk, &id, &rotated).unwrap(), first);
}
