use amcl_wrapper::extension_field_gt::GT;
use amcl_wrapper::field_elem::FieldElement;
use amcl_wrapper::group_elem::GroupElement;
use amcl_wrapper::group_elem_g1::G1;
use amcl_wrapper::group_elem_g2::G2;
use sha2::{Digest, Sha256};
use tibe::bytes::{bytes_eq, is_canonical, is_zero, less_than, scalar_from_u32};
use tibe::identity::hash_identity;
use tibe::lagrange::lagrange_coefficient;
use tibe::mask::mask;
use tibe::poly::evaluate;
use tibe::sampling::{reduce_scalars, sample_scalars};
use tibe::{
    combine, encrypt, encrypt_with, setup_with, shareKeyGen, shareVerify, share_key_gen_with,
    PartialDecryptionKey, TibeError, ID,
};

fn order_bytes() -> Vec<u8> {
    let mut out = vec![0u8; 16];
    out.extend_from_slice(&[
        0x73, 0xed, 0xa7, 0x53, 0x29, 0x9d, 0x7d, 0x48, 0x33, 0x39, 0xd8, 0x08, 0x09, 0xa1, 0xd8,
        0x05, 0x53, 0xbd, 0xa4, 0x02, 0xff, 0xfe, 0x5b, 0xfe, 0xff, 0xff, 0xff, 0xff, 0x00, 0x00,
        0x00, 0x01,
    ]);
    out
}

fn order_minus(d: u8) -> Vec<u8> {
    let mut out = order_bytes();
    let mut borrow = d as i32;
    for byte in out.iter_mut().rev() {
        let v = *byte as i32 - borrow;
        if v < 0 {
            *byte = (v + 256) as u8;
            borrow = 1;
        } else {
            *byte = v as u8;
            borrow = 0;
        }
    }
    out
}

fn scalars(values: &[u32]) -> Vec<u8> {
    let mut out = Vec::new();
    for v in values {
        out.extend_from_slice(&scalar_from_u32(*v));
    }
    out
}

#[test]
fn scalar_from_u32_is_big_endian() {
    let s = scalar_from_u32(0x0102_0304);
    assert_eq!(s.len(), 48);
    assert_eq!(&s[..44], &[0u8; 44][..]);
    assert_eq!(&s[44..], &[1u8, 2, 3, 4][..]);
    assert_eq!(scalar_from_u32(0), vec![0u8; 48]);
    assert_eq!(scalar_from_u32(u32::MAX)[44..], [0xffu8; 4]);
}

#[test]
fn byte_tools_compare_and_test_for_zero() {
    assert!(bytes_eq(&[1, 2, 3], &[1, 2, 3]));
    assert!(!bytes_eq(&[1, 2, 3], &[1, 2, 4]));
    assert!(!bytes_eq(&[1, 2, 3], &[1, 2]));
    assert!(bytes_eq(&[], &[]));
    assert!(is_zero(&[0, 0, 0]));
    assert!(is_zero(&[]));
    assert!(!is_zero(&[0, 0, 1]));
    assert!(less_than(&[0, 0, 1], &[0, 0, 2]));
    assert!(less_than(&[0, 255, 255], &[1, 0, 0]));
    assert!(!less_than(&[1, 0, 0], &[0, 255, 255]));
    assert!(!less_than(&[7, 7, 7], &[7, 7, 7]));
    assert!(less_than(&[7, 7, 6], &[7, 7, 7]));
    assert!(!less_than(&[], &[]));
}

#[test]
fn canonical_scalars_lie_below_the_order() {
    assert!(is_canonical(&scalar_from_u32(0)));
    assert!(is_canonical(&scalar_from_u32(77)));
    assert!(is_canonical(&order_minus(1)));
    assert!(!is_canonical(&order_bytes()));
    assert!(!is_canonical(&[0xffu8; 48]));
    assert!(!is_canonical(&[0u8; 47]));
    assert!(!is_canonical(&[0u8; 49]));
}

#[test]
fn evaluate_gives_the_value_of_the_polynomial() {
    // 3 + 2x + x^2 at 2 is 11, at 0 is 3, at 10 is 123
    let coeffs = scalars(&[3, 2, 1]);
    assert_eq!(evaluate(&coeffs, &scalar_from_u32(2)).unwrap(), scalar_from_u32(11));
    assert_eq!(evaluate(&coeffs, &scalar_from_u32(0)).unwrap(), scalar_from_u32(3));
    assert_eq!(evaluate(&coeffs, &scalar_from_u32(10)).unwrap(), scalar_from_u32(123));
    // the empty polynomial is zero
    assert_eq!(evaluate(&[], &scalar_from_u32(5)).unwrap(), scalar_from_u32(0));
    // a constant
    assert_eq!(evaluate(&scalars(&[9]), &scalar_from_u32(5)).unwrap(), scalar_from_u32(9));
}

#[test]
fn evaluate_works_modulo_the_order() {
    // (q - 1) + 1 * x at 1 is 0, and at 3 is 2
    let mut coeffs = order_minus(1);
    coeffs.extend_from_slice(&scalar_from_u32(1));
    assert_eq!(evaluate(&coeffs, &scalar_from_u32(1)).unwrap(), scalar_from_u32(0));
    assert_eq!(evaluate(&coeffs, &scalar_from_u32(3)).unwrap(), scalar_from_u32(2));
    // 2 * (q - 1) is q - 2
    let twice = scalars(&[0, 2]);
    assert_eq!(evaluate(&twice, &order_minus(1)).unwrap(), order_minus(2));
    // a point that is the order itself stands for zero
    assert_eq!(evaluate(&scalars(&[4, 5]), &order_bytes()).unwrap(), scalar_from_u32(4));
}

#[test]
fn evaluate_rejects_malformed_input() {
    assert_eq!(
        evaluate(&[0u8; 47], &scalar_from_u32(1)).err(),
        Some(TibeError::InvalidParameters)
    );
    assert_eq!(
        evaluate(&scalars(&[1, 2]), &[0u8; 4]).err(),
        Some(TibeError::InvalidParameters)
    );
}

#[test]
fn lagrange_coefficients_of_small_nodes() {
    // nodes 1, 2, 3: the coefficients at zero are 3, -3 and 1
    let nodes = [1u32, 2, 3];
    assert_eq!(lagrange_coefficient(&nodes, 0).unwrap(), scalar_from_u32(3));
    assert_eq!(lagrange_coefficient(&nodes, 1).unwrap(), order_minus(3));
    assert_eq!(lagrange_coefficient(&nodes, 2).unwrap(), scalar_from_u32(1));
    // nodes 1, 2: 2 and -1
    assert_eq!(lagrange_coefficient(&[1, 2], 0).unwrap(), scalar_from_u32(2));
    assert_eq!(lagrange_coefficient(&[1, 2], 1).unwrap(), order_minus(1));
    // a single node: 1
    assert_eq!(lagrange_coefficient(&[4], 0).unwrap(), scalar_from_u32(1));
    // nodes 2, 4, 5: 20/6 is 10/3, -10/2 is -5, 8/3
    let third = FieldElement::from(3u32).inverse();
    let expected = (FieldElement::from(10u32) * &third).to_bytes();
    assert_eq!(lagrange_coefficient(&[2, 4, 5], 0).unwrap(), expected);
    assert_eq!(lagrange_coefficient(&[2, 4, 5], 1).unwrap(), order_minus(5));
    let expected = (FieldElement::from(8u32) * &third).to_bytes();
    assert_eq!(lagrange_coefficient(&[2, 4, 5], 2).unwrap(), expected);
}

#[test]
fn lagrange_coefficient_rejects_a_position_out_of_range() {
    assert_eq!(lagrange_coefficient(&[1, 2, 3], 3).err(), Some(TibeError::InvalidParameters));
    assert_eq!(lagrange_coefficient(&[], 0).err(), Some(TibeError::InvalidParameters));
}

#[test]
fn lagrange_coefficients_interpolate_at_zero() {
    // f = 5 + 7x + 11x^2 through the nodes 2, 3, 5
    let nodes = [2u32, 3, 5];
    let f = |x: u32| 5 + 7 * x + 11 * x * x;
    let mut sum = FieldElement::zero();
    for (i, x) in nodes.iter().enumerate() {
        let weight = FieldElement::from_bytes(&lagrange_coefficient(&nodes, i).unwrap()).unwrap();
        sum = sum + weight * FieldElement::from(f(*x));
    }
    assert_eq!(sum.to_bytes(), scalar_from_u32(5));
}

#[test]
fn mask_is_the_digest_stream() {
    let seed = b"session element".to_vec();
    let block = |c: u64| {
        let mut h = Sha256::new();
        h.update(&seed);
        h.update(&c.to_be_bytes());
        h.finalize().to_vec()
    };
    let zeros = vec![0u8; 40];
    let mut expected = block(0);
    expected.extend_from_slice(&block(1)[..8]);
    assert_eq!(mask(&seed, &zeros), expected);
    let data: Vec<u8> = (0..70).map(|i| i as u8).collect();
    let stream: Vec<u8> = [block(0), block(1), block(2)].concat();
    let expected: Vec<u8> = data.iter().zip(stream.iter()).map(|(d, s)| d ^ s).collect();
    assert_eq!(mask(&seed, &data), expected);
    assert_eq!(mask(&seed, &mask(&seed, &data)), data);
    assert_eq!(mask(&seed, &[]), Vec::<u8>::new());
}

#[test]
fn identities_are_hashed_behind_their_domain_byte() {
    let id = b"alice@example.com";
    let mut input = vec![1u8];
    input.extend_from_slice(id);
    let expected = FieldElement::from_msg_hash(&input).to_bytes();
    assert_eq!(hash_identity(id), expected);
    assert_eq!(hash_identity(id).len(), 48);
    assert_ne!(hash_identity(b"alice@example.com"), hash_identity(b"bob@example.com"));
    assert_ne!(hash_identity(b""), FieldElement::from_msg_hash(b"").to_bytes());
}

#[test]
fn the_dealer_gives_each_party_the_value_of_the_polynomial() {
    // f = 5 + 7x + 11x^2, and the exponent of h1 is 13
    let mut seed = scalars(&[5, 7, 11, 13, 17]);
    let (pk, vk, shares) = setup_with(5, 3, &mut seed).unwrap();
    assert_eq!(pk.g(), &G1::generator().to_bytes(false));
    assert_eq!(pk.g2(), &G2::generator().to_bytes(false));
    assert_eq!(pk.g1(), &(G1::generator() * FieldElement::from(5u32)).to_bytes(false));
    assert_eq!(pk.h1(), &(G2::generator() * FieldElement::from(13u32)).to_bytes(false));
    assert_eq!(pk.h2(), &(G2::generator() * FieldElement::from(17u32)).to_bytes(false));
    for j in 1u32..=5 {
        let y = FieldElement::from(5 + 7 * j + 11 * j * j);
        let entry = &vk.0[97 * (j as usize - 1)..97 * j as usize];
        assert_eq!(entry, &(G1::generator() * &y).to_bytes(false)[..]);
        assert_eq!(shares[j as usize - 1].j, j as i32);
        assert_eq!(shares[j as usize - 1].value, (G2::generator() * &y).to_bytes(false));
    }
}

#[test]
fn the_dealer_rejects_a_scalar_that_is_not_reduced() {
    let mut seed = scalars(&[5, 7, 11, 13]);
    seed.extend_from_slice(&order_bytes());
    assert_eq!(setup_with(5, 3, &mut seed).err(), Some(TibeError::ModulusMismatch));
    assert!(seed.is_empty());
    let mut seed = order_bytes();
    seed.extend_from_slice(&scalars(&[7, 11, 13, 17]));
    assert_eq!(setup_with(5, 3, &mut seed).err(), Some(TibeError::ModulusMismatch));
    let mut seed = vec![0xffu8; 48 * 5];
    assert_eq!(setup_with(5, 3, &mut seed).err(), Some(TibeError::ModulusMismatch));
}

#[test]
fn the_dealer_rejects_a_polynomial_with_a_root_at_a_party() {
    // f = (q - 2) + x vanishes at 2
    let mut seed = order_minus(2);
    seed.extend_from_slice(&scalars(&[1, 13, 17]));
    assert_eq!(setup_with(3, 2, &mut seed).err(), Some(TibeError::InvalidParameters));
    // with one party only, the root is out of reach
    let mut seed = order_minus(2);
    seed.extend_from_slice(&scalars(&[1, 13, 17]));
    assert!(setup_with(2, 2, &mut seed).is_err());
    let mut seed = order_minus(3);
    seed.extend_from_slice(&scalars(&[1, 13, 17]));
    assert!(setup_with(2, 2, &mut seed).is_ok());
}

fn g1_of(bytes: &[u8]) -> G1 {
    G1::from(<&[u8; 97]>::try_from(bytes).unwrap())
}

fn g2_of(bytes: &[u8]) -> G2 {
    G2::from(<&[u8; 193]>::try_from(bytes).unwrap())
}

#[test]
fn a_partial_key_is_the_blinded_share() {
    let mut seed = scalars(&[5, 7, 11, 13, 17]);
    let (pk, _vk, shares) = setup_with(5, 3, &mut seed).unwrap();
    let id = ID(b"alice@example.com".to_vec());
    let key = share_key_gen_with(&pk, 4, &shares[3], &id, &scalar_from_u32(1234)).unwrap();
    let t = FieldElement::from_bytes(&hash_identity(&id.0)).unwrap();
    let encoded = G2::generator() * &t + g2_of(pk.h1());
    let r = FieldElement::from(1234u32);
    assert_eq!(key.j, 4);
    assert_eq!(key.w0, (g2_of(&shares[3].value) + &encoded * &r).to_bytes(false));
    assert_eq!(key.w1, (G1::generator() * &r).to_bytes(false));
}

#[test]
fn a_combined_key_is_the_master_secret_blinded() {
    // f(0) = 5; every party blinds with 1234, so the combined blinding is 1234 too
    let mut seed = scalars(&[5, 7, 11, 13, 17]);
    let (pk, vk, shares) = setup_with(5, 3, &mut seed).unwrap();
    let id = ID(b"alice@example.com".to_vec());
    let keys: Vec<PartialDecryptionKey> = [1usize, 3, 4]
        .iter()
        .map(|i| {
            share_key_gen_with(&pk, shares[*i].j, &shares[*i], &id, &scalar_from_u32(1234)).unwrap()
        })
        .collect();
    let key = combine(&pk, &vk, &id, &keys).unwrap();
    let t = FieldElement::from_bytes(&hash_identity(&id.0)).unwrap();
    let encoded = G2::generator() * &t + g2_of(pk.h1());
    let r = FieldElement::from(1234u32);
    let master = G2::generator() * FieldElement::from(5u32);
    assert_eq!(key.w0, (master + &encoded * &r).to_bytes(false));
    assert_eq!(key.w1, (G1::generator() * &r).to_bytes(false));
}

#[test]
fn a_combined_key_of_differently_blinded_keys() {
    // nodes 1 and 2 with the coefficients 2 and -1: the blinding is 2 * 40 - 30 = 50
    let mut seed = scalars(&[5, 7, 13, 17]);
    let (pk, vk, shares) = setup_with(2, 2, &mut seed).unwrap();
    let id = ID(b"bob".to_vec());
    let first = share_key_gen_with(&pk, 1, &shares[0], &id, &scalar_from_u32(40)).unwrap();
    let second = share_key_gen_with(&pk, 2, &shares[1], &id, &scalar_from_u32(30)).unwrap();
    let key = combine(&pk, &vk, &id, &vec![first, second]).unwrap();
    let t = FieldElement::from_bytes(&hash_identity(&id.0)).unwrap();
    let encoded = G2::generator() * &t + g2_of(pk.h1());
    let r = FieldElement::from(50u32);
    let master = G2::generator() * FieldElement::from(5u32);
    assert_eq!(key.w0, (master + &encoded * &r).to_bytes(false));
    assert_eq!(key.w1, (G1::generator() * &r).to_bytes(false));
}

#[test]
fn a_ciphertext_is_made_of_the_scalar() {
    let mut seed = scalars(&[5, 7, 11, 13, 17]);
    let (pk, _vk, _shares) = setup_with(5, 3, &mut seed).unwrap();
    let id = ID(b"alice@example.com".to_vec());
    let message = b"hello-world".to_vec();
    let ct = encrypt_with(&pk, &id, &message, &scalar_from_u32(77)).unwrap();
    let s = FieldElement::from(77u32);
    let t = FieldElement::from_bytes(&hash_identity(&id.0)).unwrap();
    let encoded = G2::generator() * &t + g2_of(pk.h1());
    assert_eq!(ct.c1, (G1::generator() * &s).to_bytes(false));
    assert_eq!(ct.c3, (&encoded * &s).to_bytes(false));
    let session = GT::ate_pairing(&g1_of(pk.g1()), &g2_of(pk.g2())).pow(&s);
    assert_eq!(ct.c2, mask(&session.to_bytes(), &message));
    let mut input = vec![2u8];
    input.extend_from_slice(&ct.c1);
    input.extend_from_slice(&ct.c2);
    input.extend_from_slice(&ct.c3);
    let tag = FieldElement::from_msg_hash(&input);
    assert_eq!(ct.tag, tag.to_bytes());
    let bound = G2::generator() * &tag + g2_of(pk.h2());
    assert_eq!(ct.c4, (&bound * &s).to_bytes(false));
}

#[test]
fn reduce_scalars_brings_each_scalar_below_the_order() {
    // the order stands for 0, the order plus 5 for 5, and what is below the order stays
    let mut raw = order_bytes();
    let mut shifted = order_bytes();
    shifted[47] += 5;
    raw.extend_from_slice(&shifted);
    raw.extend_from_slice(&scalar_from_u32(77));
    raw.extend_from_slice(&order_minus(1));
    let mut expected = scalar_from_u32(0);
    expected.extend_from_slice(&scalar_from_u32(5));
    expected.extend_from_slice(&scalar_from_u32(77));
    expected.extend_from_slice(&order_minus(1));
    assert_eq!(reduce_scalars(&mut raw), Some(expected));
    assert!(raw.is_empty());
    // 2^384 - 1 is congruent to a number that the field arithmetic confirms
    let mut raw = vec![0xffu8; 48];
    let reduced = reduce_scalars(&mut raw).unwrap();
    let value = FieldElement::from_bytes(&[0xffu8; 48]).unwrap();
    assert_eq!(reduced, value.to_bytes());
    assert!(is_canonical(&reduced));
}

#[test]
fn reduce_scalars_wants_whole_scalars() {
    let mut raw = vec![1u8; 47];
    assert_eq!(reduce_scalars(&mut raw), None);
    assert!(raw.is_empty());
    let mut raw = vec![1u8; 49];
    assert_eq!(reduce_scalars(&mut raw), None);
    assert!(raw.is_empty());
    let mut raw = Vec::new();
    assert_eq!(reduce_scalars(&mut raw), Some(Vec::new()));
}

#[test]
fn sample_scalars_gives_canonical_scalars() {
    let drawn = sample_scalars(4).unwrap();
    assert_eq!(drawn.len(), 4 * 48);
    for i in 0..4 {
        assert!(is_canonical(&drawn[48 * i..48 * i + 48]));
    }
    assert_ne!(drawn, sample_scalars(4).unwrap());
    assert_eq!(sample_scalars(0), Some(Vec::new()));
    assert_eq!(sample_scalars(usize::MAX), None);
}

#[test]
fn an_identity_whose_encoding_vanishes_is_refused() {
    // the exponent of h1 is chosen as the negative of the identity's scalar
    let id = ID(b"alice@example.com".to_vec());
    let t = FieldElement::from_bytes(&hash_identity(&id.0)).unwrap();
    let mut seed = scalars(&[5, 7]);
    seed.extend_from_slice(&(FieldElement::zero() - &t).to_bytes());
    seed.extend_from_slice(&scalar_from_u32(17));
    let (pk, vk, shares) = setup_with(2, 2, &mut seed).unwrap();
    assert!(!tibe::identity::encodable(&pk, &id.0));
    assert!(tibe::identity::encodable(&pk, b"bob@example.com"));
    assert_eq!(shareKeyGen(&pk, 1, &shares[0], &id).err(), Some(TibeError::InvalidParameters));
    assert_eq!(
        share_key_gen_with(&pk, 1, &shares[0], &id, &scalar_from_u32(9)).err(),
        Some(TibeError::InvalidParameters)
    );
    assert_eq!(encrypt(&pk, &id, b"m").err(), Some(TibeError::InvalidParameters));
    assert_eq!(
        encrypt_with(&pk, &id, b"m", &scalar_from_u32(9)).err(),
        Some(TibeError::InvalidParameters)
    );
    // errors of index and share come first
    assert_eq!(shareKeyGen(&pk, 3, &shares[0], &id).err(), Some(TibeError::InvalidShareIndex));
    // a key made for another identity is no key of this one
    let other = ID(b"bob@example.com".to_vec());
    let key = shareKeyGen(&pk, 1, &shares[0], &other).unwrap();
    assert!(shareVerify(&pk, &vk, &other, &key));
    assert!(!shareVerify(&pk, &vk, &id, &key));
}

#[test]
fn the_third_and_fourth_component_do_not_give_the_scalar_away() {
    // were the tag encoded with h1 as the identity is, the difference of the two
    // components over the difference of the two scalars would be the scalar times g2
    let mut seed = scalars(&[5, 7, 11, 13, 17]);
    let (pk, _vk, _shares) = setup_with(5, 3, &mut seed).unwrap();
    let id = ID(b"alice@example.com".to_vec());
    let message = b"hello-world".to_vec();
    let ct = encrypt_with(&pk, &id, &message, &scalar_from_u32(77)).unwrap();
    let t = FieldElement::from_bytes(&hash_identity(&id.0)).unwrap();
    let tag = FieldElement::from_bytes(&ct.tag).unwrap();
    let difference = g2_of(&ct.c3) - g2_of(&ct.c4);
    let guess = difference * (t - tag).inverse();
    assert_ne!(guess, G2::generator() * FieldElement::from(77u32));
    let session = GT::ate_pairing(&g1_of(pk.g1()), &guess);
    assert_ne!(mask(&session.to_bytes(), &ct.c2), message);
    // the two components are encoded with different elements
    assert_ne!(pk.h1(), pk.h2());
}
