use amcl_wrapper::group_elem::GroupElement;
use amcl_wrapper::group_elem_g1::G1;
use amcl_wrapper::group_elem_g2::G2;
use tibe::bytes::scalar_from_u32;
use tibe::{
    combine, encrypt_with, setup_with, share_key_gen_with, Ciphertext, CombinedPrivateKey,
    PartialDecryptionKey, PublicKey, Share, TibeError, VerificationKey, ID,
};

fn codec_system() -> (PublicKey, VerificationKey, Vec<Share>) {
    let mut seed = Vec::new();
    for v in [21u32, 22, 23, 24] {
        seed.extend_from_slice(&scalar_from_u32(v));
    }
    setup_with(3, 2, &mut seed).unwrap()
}

fn codec_keys(pk: &PublicKey, shares: &[Share], id: &ID) -> Vec<PartialDecryptionKey> {
    shares
        .iter()
        .map(|s| share_key_gen_with(pk, s.j, s, id, &scalar_from_u32(1000 + s.j as u32)).unwrap())
        .collect()
}

#[test]
fn share_bytes_round_trip() {
    let (_pk, _vk, shares) = codec_system();
    let bytes = shares[1].to_bytes().unwrap();
    assert_eq!(bytes.len(), 197);
    assert_eq!(&bytes[..4], &[0u8, 0, 0, 2][..]);
    assert_eq!(&bytes[4..], &shares[1].value[..]);
    assert_eq!(Share::from_bytes(&bytes).unwrap(), shares[1]);
}

#[test]
fn share_bytes_are_checked() {
    let (_pk, _vk, shares) = codec_system();
    let bytes = shares[0].to_bytes().unwrap();
    assert_eq!(Share::from_bytes(&bytes[..196]).err(), Some(TibeError::SerializationError));
    let mut long = bytes.clone();
    long.push(0);
    assert_eq!(Share::from_bytes(&long).err(), Some(TibeError::SerializationError));
    let mut no_index = bytes.clone();
    no_index[3] = 0;
    assert_eq!(Share::from_bytes(&no_index).err(), Some(TibeError::SerializationError));
    let mut negative = bytes.clone();
    negative[0] = 0x80;
    assert_eq!(Share::from_bytes(&negative).err(), Some(TibeError::SerializationError));
    let mut off_curve = bytes.clone();
    off_curve[100] ^= 1;
    assert_eq!(Share::from_bytes(&off_curve).err(), Some(TibeError::SerializationError));
    let mut compressed = bytes.clone();
    compressed[4] = 2;
    assert_eq!(Share::from_bytes(&compressed).err(), Some(TibeError::SerializationError));
    let unindexed = Share { j: 0, value: shares[0].value.clone() };
    assert_eq!(unindexed.to_bytes().err(), Some(TibeError::InvalidShareIndex));
    let large = Share { j: i32::MAX, value: shares[0].value.clone() };
    assert_eq!(Share::from_bytes(&large.to_bytes().unwrap()).unwrap(), large);
}

#[test]
fn partial_key_bytes_round_trip() {
    let (pk, _vk, shares) = codec_system();
    let id = ID(b"carol".to_vec());
    let keys = codec_keys(&pk, &shares, &id);
    let bytes = keys[2].to_bytes().unwrap();
    assert_eq!(bytes.len(), 294);
    assert_eq!(&bytes[..4], &[0u8, 0, 0, 3][..]);
    assert_eq!(PartialDecryptionKey::from_bytes(&bytes).unwrap(), keys[2]);
    let mut broken = bytes.clone();
    broken[250] ^= 0x10;
    assert_eq!(
        PartialDecryptionKey::from_bytes(&broken).err(),
        Some(TibeError::SerializationError)
    );
    assert_eq!(
        PartialDecryptionKey::from_bytes(&bytes[1..]).err(),
        Some(TibeError::SerializationError)
    );
    let mut unindexed = keys[2].clone();
    unindexed.j = -4;
    assert_eq!(unindexed.to_bytes().err(), Some(TibeError::InvalidShareIndex));
}

#[test]
fn private_key_bytes_round_trip() {
    let (pk, vk, shares) = codec_system();
    let id = ID(b"carol".to_vec());
    let keys = codec_keys(&pk, &shares, &id);
    let key = combine(&pk, &vk, &id, &keys[..2].to_vec()).unwrap();
    let bytes = key.to_bytes();
    assert_eq!(bytes.len(), 290);
    assert_eq!(CombinedPrivateKey::from_bytes(&bytes).unwrap(), key);
    let mut broken = bytes.clone();
    broken[0] = 3;
    assert_eq!(
        CombinedPrivateKey::from_bytes(&broken).err(),
        Some(TibeError::SerializationError)
    );
    assert_eq!(CombinedPrivateKey::from_bytes(&[]).err(), Some(TibeError::SerializationError));
}

#[test]
fn ciphertext_bytes_round_trip() {
    let (pk, _vk, _shares) = codec_system();
    let id = ID(b"carol".to_vec());
    for len in [0usize, 1, 11, 100] {
        let message = vec![0x5au8; len];
        let ct = encrypt_with(&pk, &id, &message, &scalar_from_u32(99)).unwrap();
        let bytes = ct.to_bytes();
        assert_eq!(bytes.len(), 531 + len);
        assert_eq!(&bytes[..97], &ct.c1[..]);
        assert_eq!(&bytes[97..97 + len], &ct.c2[..]);
        assert_eq!(&bytes[bytes.len() - 48..], &ct.tag[..]);
        assert_eq!(Ciphertext::from_bytes(&bytes).unwrap(), ct);
    }
    assert_eq!(Ciphertext::from_bytes(&[0u8; 530]).err(), Some(TibeError::SerializationError));
    assert_eq!(Ciphertext::from_bytes(&[0u8; 531]).err(), Some(TibeError::SerializationError));
}

#[test]
fn public_key_bytes_round_trip() {
    let (pk, _vk, _shares) = codec_system();
    let bytes = pk.to_bytes();
    assert_eq!(bytes.len(), 781);
    assert_eq!(&bytes[..8], &[0u8, 0, 0, 3, 0, 0, 0, 2][..]);
    assert_eq!(PublicKey::from_bytes(&bytes).unwrap(), pk);
    let copy = pk.clone();
    assert_eq!(copy, pk);
    assert_eq!(copy.to_bytes(), bytes);
    let mut threshold_above = bytes.clone();
    threshold_above[7] = 4;
    assert_eq!(
        PublicKey::from_bytes(&threshold_above).err(),
        Some(TibeError::SerializationError)
    );
    let mut no_threshold = bytes.clone();
    no_threshold[7] = 0;
    assert_eq!(PublicKey::from_bytes(&no_threshold).err(), Some(TibeError::SerializationError));
    // g must be the generator: g1, which is another element of G1, is refused in its place
    let mut other_generator = bytes.clone();
    let g1 = bytes[105..202].to_vec();
    other_generator[8..105].copy_from_slice(&g1);
    assert_eq!(
        PublicKey::from_bytes(&other_generator).err(),
        Some(TibeError::SerializationError)
    );
    let mut broken = bytes.clone();
    broken[587] ^= 1;
    assert_eq!(PublicKey::from_bytes(&broken).err(), Some(TibeError::SerializationError));
    let mut broken = bytes.clone();
    broken[780] ^= 1;
    assert_eq!(PublicKey::from_bytes(&broken).err(), Some(TibeError::SerializationError));
    assert_eq!(PublicKey::from_bytes(&bytes[..780]).err(), Some(TibeError::SerializationError));
    assert_eq!(&bytes[395..588], &pk.h1()[..]);
    assert_eq!(&bytes[588..], &pk.h2()[..]);
}

#[test]
fn the_identity_of_a_group_is_no_element() {
    let (pk, vk, shares) = codec_system();
    let id = ID(b"carol".to_vec());
    let mut bytes = vec![0u8, 0, 0, 1];
    bytes.extend_from_slice(&G2::identity().to_bytes(false));
    assert_eq!(bytes.len(), 197);
    assert_eq!(Share::from_bytes(&bytes).err(), Some(TibeError::SerializationError));
    let keys = codec_keys(&pk, &shares, &id);
    let mut key = keys[0].clone();
    key.w1 = G1::identity().to_bytes(false);
    assert!(!tibe::shareVerify(&pk, &vk, &id, &key));
    assert_eq!(
        combine(&pk, &vk, &id, &vec![key, keys[1].clone()]).err(),
        Some(TibeError::SerializationError)
    );
}

#[test]
fn a_number_at_or_above_the_field_modulus_is_refused() {
    let modulus: [u8; 48] = [
        0x1a, 0x01, 0x11, 0xea, 0x39, 0x7f, 0xe6, 0x9a, 0x4b, 0x1b, 0xa7, 0xb6, 0x43, 0x4b, 0xac,
        0xd7, 0x64, 0x77, 0x4b, 0x84, 0xf3, 0x85, 0x12, 0xbf, 0x67, 0x30, 0xd2, 0xa0, 0xf6, 0xb0,
        0xf6, 0x24, 0x1e, 0xab, 0xff, 0xfe, 0xb1, 0x53, 0xff, 0xff, 0xb9, 0xfe, 0xff, 0xff, 0xff,
        0xff, 0xaa, 0xab,
    ];
    let (_pk, _vk, shares) = codec_system();
    let good = shares[0].to_bytes().unwrap();
    assert!(tibe::element::g2_valid(&good[4..]));
    for number in 0..4 {
        // the same number written with the modulus added stands for the same point
        let from = 4 + 1 + 48 * number;
        let mut carry = 0u16;
        let mut shifted = good.clone();
        for i in (0..48).rev() {
            let sum = shifted[from + i] as u16 + modulus[i] as u16 + carry;
            shifted[from + i] = sum as u8;
            carry = sum >> 8;
        }
        assert_eq!(carry, 0);
        assert!(!tibe::element::g2_valid(&shifted[4..]));
        assert_eq!(Share::from_bytes(&shifted).err(), Some(TibeError::SerializationError));
        // and so is the modulus itself in place of the number
        let mut replaced = good.clone();
        replaced[from..from + 48].copy_from_slice(&modulus);
        assert!(!tibe::element::g2_valid(&replaced[4..]));
    }
    assert!(tibe::element::g1_valid(&G1::generator().to_bytes(false)));
    assert!(!tibe::element::g1_valid(&G1::identity().to_bytes(false)));
    assert!(tibe::element::g2_valid(&G2::generator().to_bytes(false)));
    assert!(!tibe::element::g2_valid(&G2::generator().to_bytes(true)));
}
