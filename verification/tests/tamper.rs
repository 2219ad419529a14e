use tibe::bytes::scalar_from_u32;
use tibe::{
    combine, decrypt, encrypt_with, setup_with, share_key_gen_with, validateCt, Ciphertext,
    CombinedPrivateKey, PartialDecryptionKey, PublicKey, TibeError, ID,
};

struct Fixture {
    pk: PublicKey,
    id: ID,
    key: CombinedPrivateKey,
    bytes: Vec<u8>,
}

fn fixture() -> Fixture {
    let mut seed = Vec::new();
    for v in [31u32, 32, 33, 34] {
        seed.extend_from_slice(&scalar_from_u32(v));
    }
    let (pk, vk, shares) = setup_with(2, 2, &mut seed).unwrap();
    let id = ID(b"alice@example.com".to_vec());
    let keys: Vec<PartialDecryptionKey> = shares
        .iter()
        .map(|s| share_key_gen_with(&pk, s.j, s, &id, &scalar_from_u32(700 + s.j as u32)).unwrap())
        .collect();
    let key = combine(&pk, &vk, &id, &keys).unwrap();
    let ct = encrypt_with(&pk, &id, b"hello-world", &scalar_from_u32(4711)).unwrap();
    assert!(validateCt(&pk, &id, &ct));
    assert_eq!(decrypt(&pk, &id, &key, &ct).unwrap(), b"hello-world".to_vec());
    Fixture { pk, id, key, bytes: ct.to_bytes() }
}

fn rejected(f: &Fixture, position: usize, flip: u8) -> bool {
    let mut bytes = f.bytes.clone();
    bytes[position] ^= flip;
    match Ciphertext::from_bytes(&bytes) {
        Err(e) => e == TibeError::SerializationError,
        Ok(ct) => !validateCt(&f.pk, &f.id, &ct),
    }
}

fn all_rejected(from: usize, to: usize) {
    let f = fixture();
    assert_eq!(f.bytes.len(), 542);
    for position in from..to {
        assert!(rejected(&f, position, 0xff), "position {}", position);
    }
}

#[test]
fn a_flipped_byte_in_the_first_component_is_rejected() {
    all_rejected(0, 97);
}

#[test]
fn a_flipped_byte_in_the_masked_message_is_rejected() {
    all_rejected(97, 108);
}

#[test]
fn a_flipped_byte_in_the_third_component_is_rejected() {
    all_rejected(108, 301);
}

#[test]
fn a_flipped_byte_in_the_first_half_of_the_fourth_component_is_rejected() {
    all_rejected(301, 400);
}

#[test]
fn a_flipped_byte_in_the_second_half_of_the_fourth_component_is_rejected() {
    all_rejected(400, 494);
}

#[test]
fn a_flipped_byte_in_the_tag_is_rejected() {
    all_rejected(494, 542);
}

#[test]
fn a_flipped_bit_is_rejected_too() {
    let f = fixture();
    for position in [0usize, 1, 50, 96, 97, 107, 108, 300, 301, 493, 494, 541] {
        assert!(rejected(&f, position, 0x01), "position {}", position);
    }
}

#[test]
fn decrypt_refuses_a_tampered_ciphertext() {
    let f = fixture();
    let mut ct = Ciphertext::from_bytes(&f.bytes).unwrap();
    ct.c2[3] ^= 0x20;
    assert_eq!(decrypt(&f.pk, &f.id, &f.key, &ct).err(), Some(TibeError::InvalidCiphertext));
    let mut ct = Ciphertext::from_bytes(&f.bytes).unwrap();
    ct.tag[47] ^= 1;
    assert_eq!(decrypt(&f.pk, &f.id, &f.key, &ct).err(), Some(TibeError::InvalidCiphertext));
    let mut ct = Ciphertext::from_bytes(&f.bytes).unwrap();
    ct.c2.push(0);
    assert_eq!(decrypt(&f.pk, &f.id, &f.key, &ct).err(), Some(TibeError::InvalidCiphertext));
    let mut ct = Ciphertext::from_bytes(&f.bytes).unwrap();
    let c3 = ct.c3.clone();
    ct.c3 = ct.c4.clone();
    ct.c4 = c3;
    assert_eq!(decrypt(&f.pk, &f.id, &f.key, &ct).err(), Some(TibeError::InvalidCiphertext));
}
