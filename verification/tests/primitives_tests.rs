// The building blocks: scalars and points, hashing and encryption, proofs of
// knowledge, polynomials and Lagrange coefficients, and the small helpers.

use std::collections::HashSet;

use aes_gcm::aead::{Aead, Payload};
use aes_gcm::{Aes256Gcm, Key, KeyInit, Nonce};
use blake2::{Blake2b512, Digest};
use svarog_eddsa::aes::{aes_decrypt, aes_encrypt, AEAD};
use svarog_eddsa::collections::{make_vec_with, position_of, remove_at, sorted_ids, without};
use svarog_eddsa::curve::{Point, Scalar};
use svarog_eddsa::dlog_proof::{dlog_prove, dlog_prove_with_nonce, dlog_verify};
use svarog_eddsa::encoding::u64_to_le_bytes;
use svarog_eddsa::error::Error;
use svarog_eddsa::polynomial::{
    eval_poly, eval_polycom, eval_xi_com, generate_shares_with, id_scalar, lagrange_lambda,
    verify_fj_at_i,
};
use svarog_eddsa::keystore::PlayerCommitments;
use svarog_eddsa::reshare::split_additively;
use svarog_eddsa::sign::encode_ids;

/// The group order `2^252 + 27742317777372353535851937790883648493`, little
/// endian.
const ORDER_LE: [u8; 32] = [
    0xed, 0xd3, 0xf5, 0x5c, 0x1a, 0x63, 0x12, 0x58, 0xd6, 0x9c, 0xf7, 0xa2, 0xde, 0xf9, 0xde, 0x14,
    0, 0, 0, 0, 0, 0, 0, 0, 0, 0, 0, 0, 0, 0, 0, 0x10,
];

fn order_minus(k: u8) -> [u8; 32] {
    let mut b = ORDER_LE;
    b[0] -= k;
    b
}

fn s(n: u64) -> Scalar {
    Scalar::from_u64(n)
}

#[test]
fn make_vec_with_fills_by_index() {
    let v = make_vec_with(4, |k| k * 10);
    assert_eq!(v, vec![0, 10, 20, 30]);
    let e: Vec<usize> = make_vec_with(0, |k| k);
    assert!(e.is_empty());
}

#[test]
fn scalar_arithmetic_is_modulo_the_group_order() {
    assert_eq!(s(2).add(&s(3)), s(5));
    assert_eq!(s(7).mul(&s(6)), s(42));
    assert_eq!(s(9).sub(&s(4)), s(5));
    assert_eq!(Scalar::zero().sub(&Scalar::one()).to_bytes(), order_minus(1));
    assert_eq!(s(2).invert().mul(&s(2)), Scalar::one());
    assert_eq!(Scalar::zero().invert(), Scalar::zero());
    s(7).reduced();
    assert!(Scalar::zero().is_zero());
    assert!(!Scalar::one().is_zero());
    assert_eq!(s(258).to_bytes()[..2], [2, 1]);
}

#[test]
fn scalar_encodings() {
    assert_eq!(Scalar::from_canonical_bytes(ORDER_LE), None);
    assert_eq!(Scalar::from_canonical_bytes(order_minus(1)), Some(Scalar::zero().sub(&Scalar::one())));
    assert_eq!(Scalar::from_bytes_mod_order(&ORDER_LE), Scalar::zero());
    let mut wide = [0u8; 64];
    wide[..32].copy_from_slice(&ORDER_LE);
    wide[0] += 5;
    assert_eq!(Scalar::from_bytes_mod_order(&wide), s(5));
    assert_eq!(Scalar::from_be_digits(&[1, 0, 2]), s(65538));
    assert_eq!(Scalar::from_be_digits(&[]), Scalar::zero());
    let d = s(65538).to_be_digits();
    assert_eq!(d.len(), 32);
    assert_eq!(d[29..], [1, 0, 2]);
    assert_eq!(Scalar::from_be_digits(&ORDER_LE.iter().rev().copied().collect::<Vec<u8>>()), Scalar::zero());
}

#[test]
fn point_arithmetic() {
    let g = Point::generator();
    let mut expected = [0x66u8; 32];
    expected[0] = 0x58;
    assert_eq!(g.to_bytes(), expected);
    let mut id = [0u8; 32];
    id[0] = 1;
    assert_eq!(Point::identity().to_bytes(), id);
    assert_eq!(Point::base_mul(&Scalar::one()), g);
    assert_eq!(Point::base_mul(&Scalar::zero()), Point::identity());
    assert_eq!(g.add(&g), Point::base_mul(&s(2)));
    assert_eq!(g.mul(&s(5)), Point::base_mul(&s(5)));
    assert_eq!(Point::base_mul(&s(5)).sub(&g), Point::base_mul(&s(4)));
    assert_eq!(g.add_base_mul(&s(2)), Point::base_mul(&s(3)));
    assert!(g.equals(&Point::base_mul(&Scalar::one())));
    assert!(!g.equals(&Point::identity()));
}

#[test]
fn point_decoding() {
    let g = Point::generator();
    assert_eq!(Point::from_bytes(&g.to_bytes()), Some(g));
    assert_eq!(Point::from_bytes(&[0x58, 0x66]), None);
    // (0, -1) has order 2: it is on the curve but not in the subgroup.
    let mut order_two = [0xffu8; 32];
    order_two[0] = 0xec;
    order_two[31] = 0x7f;
    assert_eq!(Point::from_bytes(&order_two), None);
}

#[test]
fn aes_roundtrip_and_associated_data() {
    let key = b"a short key";
    let pt = b"the share";
    let ct = aes_encrypt(key, pt).unwrap();
    assert_eq!(ct.tag.len(), 12);
    assert_eq!(ct.ciphertext.len(), pt.len() + 16);
    assert!(ct.tag.iter().any(|b| *b != 0));
    assert_ne!(aes_encrypt(key, pt).unwrap().tag, ct.tag);
    assert_eq!(ct.aad, Blake2b512::digest(pt).to_vec());
    assert_ne!(ct.ciphertext[..pt.len()], pt[..]);
    assert_eq!(aes_decrypt(key, &ct).unwrap(), pt.to_vec());
    let long_key = [3u8; 40];
    let ct2 = aes_encrypt(&long_key, pt).unwrap();
    assert_eq!(aes_decrypt(&long_key[..32], &ct2).unwrap(), pt.to_vec());
    let empty = aes_encrypt(key, b"").unwrap();
    assert_eq!(aes_decrypt(key, &empty).unwrap(), Vec::<u8>::new());
}

#[test]
fn aes_decrypt_errors() {
    let key = b"key";
    let ct = aes_encrypt(key, b"payload").unwrap();
    assert_eq!(aes_decrypt(b"other key", &ct), Err(Error::AesGcmDecryptFailed));
    let mut tampered = ct.clone();
    tampered.aad[0] ^= 1;
    assert_eq!(aes_decrypt(key, &tampered), Err(Error::AesGcmDecryptFailed));

    // Authenticated under associated data that is not the plaintext's digest.
    let mut k = [0xffu8; 32];
    k[..3].copy_from_slice(key);
    let cipher = Aes256Gcm::new(&Key::<Aes256Gcm>::from(k));
    let nonce = [9u8; 12];
    let aad = vec![0u8; 64];
    let ciphertext = cipher
        .encrypt(&Nonce::from(nonce), Payload { msg: b"payload", aad: &aad })
        .unwrap();
    let forged = AEAD { ciphertext, tag: nonce.to_vec(), aad };
    assert_eq!(aes_decrypt(key, &forged), Err(Error::AesDecryptIntegrity));
}

#[test]
fn dlog_proof_verifies_and_rejects() {
    let w = s(1234);
    let (big_s, proof) = dlog_prove(&w);
    assert_eq!(big_s, Point::base_mul(&w));
    assert!(dlog_verify(&proof, &big_s).is_ok());
    assert_eq!(dlog_verify(&proof, &Point::base_mul(&s(1235))), Err(Error::InvalidDLogProof));
    let (_, fixed) = dlog_prove_with_nonce(&w, &s(77));
    assert_eq!(fixed.rG, Point::base_mul(&s(77)));
    assert!(dlog_verify(&fixed, &big_s).is_ok());
    let mut bad = fixed;
    bad.z = bad.z.add(&Scalar::one());
    assert_eq!(dlog_verify(&bad, &big_s), Err(Error::InvalidDLogProof));
}

#[test]
fn polynomial_evaluation() {
    let poly = [s(1), s(2), s(3)];
    assert_eq!(eval_poly(&s(2), &poly), s(17));
    assert_eq!(eval_poly(&s(0), &poly), s(1));
    assert_eq!(eval_poly(&s(5), &[]), Scalar::zero());
    let com: Vec<Point> = poly.iter().map(Point::base_mul).collect();
    assert_eq!(eval_polycom(&s(2), &com), Point::base_mul(&s(17)));
    let (coeffs, coms, shares) = generate_shares_with(&s(1), &[1, 4], &[s(2), s(3)]);
    assert_eq!(coeffs, poly.to_vec());
    assert_eq!(coms, com);
    assert_eq!(shares, vec![s(6), s(57)]);
}

#[test]
fn feldman_checks_against_commitments() {
    let (_, coms, shares) = generate_shares_with(&s(10), &[1, 2, 3], &[s(4)]);
    let vss = vec![PlayerCommitments { player: 2, coeffs: coms }];
    // Player 3 checks the share that player 2 sent it: f_2(3) = 10 + 12.
    assert_eq!(shares[2], s(22));
    assert!(verify_fj_at_i(3, &[2], &[shares[2]], &vss).is_ok());
    assert_eq!(
        verify_fj_at_i(3, &[2], &[shares[1]], &vss),
        Err(Error::FeldmanVerifyFailed { peer: 2 })
    );
    // x_2·G from the commitments: f_2(2) = 18.
    assert_eq!(eval_xi_com(2, &vss), Point::base_mul(&s(18)));
}

#[test]
fn lagrange_coefficients() {
    assert_eq!(lagrange_lambda(1, &[1, 2]), s(2));
    assert_eq!(lagrange_lambda(2, &[1, 2]).to_bytes(), order_minus(1));
    // lambda_1 over {1, 3} is 3/2; lambda_3 is -1/2; they interpolate f(0).
    let l1 = lagrange_lambda(1, &[1, 3]);
    let l3 = lagrange_lambda(3, &[1, 3]);
    assert_eq!(l1.mul(&s(2)), s(3));
    assert_eq!(l3.mul(&s(2)), Scalar::zero().sub(&Scalar::one()));
    let f1 = s(7 + 5);
    let f3 = s(7 + 15);
    assert_eq!(l1.mul(&f1).add(&l3.mul(&f3)), s(7));
    assert_eq!(lagrange_lambda(5, &[5]), Scalar::one());
    // F(x) = 5 + 2x + 3x^2 from its values at 1, 2 and 3.
    let ids = [1usize, 2, 3];
    let vals = [s(10), s(21), s(38)];
    let mut acc = Scalar::zero();
    for (k, j) in ids.iter().enumerate() {
        acc = acc.add(&lagrange_lambda(*j, &ids).mul(&vals[k]));
    }
    assert_eq!(acc, s(5));
}

#[test]
fn id_scalars() {
    assert_eq!(id_scalar(7), s(7));
    assert_eq!(id_scalar(usize::MAX).to_bytes(), order_minus(1));
}

#[test]
fn id_lists() {
    let set: HashSet<usize> = [5usize, 1, 9, 3].iter().copied().collect();
    assert_eq!(sorted_ids(&set), vec![1, 3, 5, 9]);
    assert_eq!(sorted_ids(&HashSet::new()), Vec::<usize>::new());
    assert_eq!(position_of(&[1, 3, 5], 5), Some(2));
    assert_eq!(position_of(&[1, 3, 5], 4), None);
    assert_eq!(remove_at(&[1, 3, 5], 1), vec![1, 5]);
    assert_eq!(without(&[1, 3, 5], 3), vec![1, 5]);
    assert_eq!(without(&[1, 3, 5], 4), vec![1, 3, 5]);
}

#[test]
fn byte_encodings() {
    assert_eq!(u64_to_le_bytes(0x0102), [2, 1, 0, 0, 0, 0, 0, 0]);
    assert_eq!(svarog_eddsa::encoding::concat(&[1, 2], &[3]), vec![1, 2, 3]);
    let ids = encode_ids(&[1, 256]);
    assert_eq!(ids, vec![1, 0, 0, 0, 0, 0, 0, 0, 0, 1, 0, 0, 0, 0, 0, 0]);
}

#[test]
fn split_pieces_add_up() {
    let randoms = [s(5), s(11)];
    let pieces = split_additively(&s(3), &randoms);
    assert_eq!(pieces.len(), 3);
    assert_eq!(pieces[0], s(5));
    assert_eq!(pieces[1], s(11));
    assert_eq!(pieces[2], Scalar::zero().sub(&s(13)));
    assert_eq!(pieces[0].add(&pieces[1]).add(&pieces[2]), s(3));
    assert_eq!(split_additively(&s(3), &[]), vec![s(3)]);
}
