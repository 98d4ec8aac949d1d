// End-to-end runs of keygen, batch signing and reshare: every party's state
// machine is driven in one process, and the test moves the messages.

use std::collections::HashSet;

use sha2::{Digest, Sha512};
use svarog_eddsa::curve::{Point, Scalar};
use svarog_eddsa::error::Error;
use svarog_eddsa::keygen::{
    keygen_begin, keygen_begin_with, keygen_finish, keygen_prove, keygen_share, KeygenStart,
};
use svarog_eddsa::keystore::Keystore;
use svarog_eddsa::reshare::{
    reshare_begin, reshare_finish, reshare_keygen_begin, reshare_split, AliveAnnounce, ReshareSplit,
    ReshareStart,
};
use svarog_eddsa::polynomial::lagrange_lambda;
use svarog_eddsa::sign::{
    sign_begin, sign_begin_with, sign_finish, sign_respond, SignSession, Signature,
};

fn id_set(ids: &[usize]) -> HashSet<usize> {
    ids.iter().copied().collect()
}

fn index_in(ids: &[usize], j: usize) -> usize {
    ids.iter().position(|&x| x == j).unwrap()
}

/// Runs the three exchanges of key generation from every party's first step
/// (given in the players' order).
fn finish_keygen(starts: Vec<KeygenStart>) -> Vec<Keystore> {
    let players = starts[0].players.clone();
    let others: Vec<Vec<usize>> = starts.iter().map(|s| s.others.clone()).collect();
    let commitments: Vec<Vec<Point>> = starts.iter().map(|s| s.commitments.clone()).collect();

    let mut shared = Vec::new();
    let mut sent_cts = Vec::new();
    for st in starts {
        let peer_coms: Vec<Vec<Point>> = st
            .others
            .iter()
            .map(|j| commitments[index_in(&players, *j)].clone())
            .collect();
        let (sh, cts) = keygen_share(st, peer_coms).unwrap();
        shared.push(sh);
        sent_cts.push(cts);
    }

    let mut proved = Vec::new();
    for (q, sh) in shared.into_iter().enumerate() {
        let me = players[q];
        let inbound = others[q]
            .iter()
            .map(|j| {
                let jq = index_in(&players, *j);
                sent_cts[jq][index_in(&others[jq], me)].clone()
            })
            .collect();
        proved.push(keygen_prove(sh, inbound).unwrap());
    }

    let proofs: Vec<_> = proved.iter().map(|p| p.proof).collect();
    let mut out = Vec::new();
    for (q, p) in proved.into_iter().enumerate() {
        let inbound = others[q].iter().map(|j| proofs[index_in(&players, *j)]).collect();
        out.push(keygen_finish(p, inbound).unwrap());
    }
    out
}

fn run_keygen(players: &[usize], th: usize) -> Vec<Keystore> {
    let set = id_set(players);
    let starts = players
        .iter()
        .map(|i| keygen_begin(&set, *i, th, None, None).unwrap())
        .collect();
    finish_keygen(starts)
}

/// Runs the second round of signing: every session gets what the others
/// committed and revealed. `signers` is in increasing order.
fn respond_all(sessions: Vec<SignSession>, signers: &[usize]) -> Vec<SignSession> {
    let coms: Vec<Vec<Vec<u8>>> = sessions.iter().map(|s| s.nonce_commitments.clone()).collect();
    let pts: Vec<Vec<Point>> = sessions.iter().map(|s| s.nonce_points.clone()).collect();
    sessions
        .into_iter()
        .map(|s| {
            let pc = s.others.iter().map(|j| coms[index_in(signers, *j)].clone()).collect();
            let pp = s.others.iter().map(|j| pts[index_in(signers, *j)].clone()).collect();
            sign_respond(s, pc, pp).unwrap()
        })
        .collect()
}

/// Signs `msgs` with the keystores of `signers` (in increasing order), all
/// offsets zero, and checks that every signer outputs the same signatures.
fn run_sign(keystores: &[Keystore], signers: &[usize], msgs: Vec<Vec<u8>>) -> Vec<Signature> {
    let set = id_set(signers);
    let offsets = vec![Scalar::zero(); msgs.len()];
    let sessions: Vec<SignSession> = signers
        .iter()
        .map(|i| {
            let ks = keystores.iter().find(|k| k.i == *i).unwrap();
            sign_begin(ks, &set, &offsets, msgs.clone()).unwrap()
        })
        .collect();
    let responded = respond_all(sessions, signers);
    let zs: Vec<Vec<Scalar>> = responded.iter().map(|s| s.responses.clone()).collect();
    let all: Vec<Vec<Signature>> = responded
        .iter()
        .map(|s| {
            let pz = s.others.iter().map(|j| zs[index_in(signers, *j)].clone()).collect();
            sign_finish(s, pz).unwrap()
        })
        .collect();
    let first = all[0].clone();
    for sigs in &all[1..] {
        assert_eq!(sigs.len(), first.len());
        for (a, b) in sigs.iter().zip(first.iter()) {
            assert_eq!(a.R, b.R);
            assert_eq!(a.s, b.s);
        }
    }
    first
}

/// Reshares among `players` (in increasing order); `inputs` lists each
/// player with its old keystore, if it still has one, in the same order.
fn run_reshare(inputs: Vec<(usize, Option<Keystore>)>, players: &[usize], th: usize) -> Vec<Keystore> {
    let set = id_set(players);
    let starts: Vec<ReshareStart> = inputs
        .iter()
        .map(|(i, ks)| reshare_begin(&set, *i, th, ks.as_ref()).unwrap())
        .collect();
    let anns: Vec<AliveAnnounce> = starts.iter().map(|s| s.announce).collect();
    let splits: Vec<ReshareSplit> = starts
        .into_iter()
        .map(|st| {
            let pa = st.others.iter().map(|j| anns[index_in(players, *j)]).collect();
            reshare_split(st, pa).unwrap()
        })
        .collect();
    let kstarts: Vec<KeygenStart> = splits
        .iter()
        .map(|sp| {
            let slot = sp.start.my_pos;
            let received: Vec<Scalar> = sp
                .senders
                .iter()
                .map(|p| splits[index_in(players, *p)].pieces[slot])
                .collect();
            reshare_keygen_begin(sp, &set, &received).unwrap()
        })
        .collect();
    let new_ks = finish_keygen(kstarts);
    new_ks
        .into_iter()
        .zip(splits.iter())
        .map(|(ks, sp)| reshare_finish(sp, ks).unwrap())
        .collect()
}

#[test]
fn test_keygen_sign_2_of_2() {
    let ks = run_keygen(&[1, 2], 2);
    let sigs = run_sign(&ks, &[1, 2], vec![b"hello".to_vec()]);
    assert_eq!(sigs.len(), 1);
}

#[test]
fn test_keygen_sign_2_of_3() {
    let ks = run_keygen(&[1, 2, 3], 2);
    let sigs = run_sign(&ks, &[1, 3], vec![b"hello".to_vec()]);
    assert_eq!(sigs.len(), 1);
}

#[test]
fn test_sign_batch_two_messages() {
    let ks = run_keygen(&[1, 2], 2);
    let sigs = run_sign(
        &ks,
        &[1, 2],
        vec![b"first message".to_vec(), b"second message".to_vec()],
    );
    assert_eq!(sigs.len(), 2);
    assert_ne!(sigs[0].R, sigs[1].R);
}

#[test]
fn test_reshare_rotation_2_of_3() {
    let players = [1usize, 2, 3];
    let old_ks = run_keygen(&players, 2);
    let pk = old_ks[0].public_key();
    let cc = old_ks[0].chain_code;
    let inputs: Vec<(usize, Option<Keystore>)> =
        old_ks.iter().map(|k| (k.i, Some(k.clone()))).collect();
    let new_ks = run_reshare(inputs, &players, 2);
    for k in &new_ks {
        assert_eq!(k.public_key(), pk);
        assert_eq!(k.chain_code, cc);
        assert!(k.vss_scheme.iter().all(|e| e.coeffs.len() == 2));
    }
    let _ = run_sign(&new_ks, &[2, 3], vec![b"after rotation".to_vec()]);
}

#[test]
fn test_reshare_recover_lost_share() {
    let players = [1usize, 2, 3];
    let old_ks = run_keygen(&players, 2);
    let pk = old_ks[0].public_key();
    let inputs: Vec<(usize, Option<Keystore>)> = old_ks
        .iter()
        .map(|k| (k.i, if k.i == 1 { None } else { Some(k.clone()) }))
        .collect();
    let new_ks = run_reshare(inputs, &players, 2);
    for k in &new_ks {
        assert_eq!(k.public_key(), pk);
    }
    let _ = run_sign(&new_ks, &[1, 2], vec![b"after recovery".to_vec()]);
}

#[test]
fn keygen_parties_agree_and_signatures_verify() {
    let ks = run_keygen(&[1, 2, 3], 2);
    let pk = ks[0].public_key();
    for k in &ks {
        assert_eq!(k.public_key(), pk);
        assert!(k.is_well_formed());
        assert_eq!(k.ui.len(), 32);
        // Drawn from the OS generator, so not left as the zero-filled buffer.
        assert!(k.ui.iter().any(|b| *b != 0));
        assert!(k.aux.is_empty());
    }
    let sigs = run_sign(&ks, &[2, 3], vec![b"m".to_vec()]);
    assert!(sigs[0].verify(&pk, b"m").is_ok());
    assert_eq!(sigs[0].verify(&pk, b"other"), Err(Error::EdDSAVerifyFailed));
}

#[test]
fn keygen_chain_code_defaults_to_digest_of_public_key() {
    let ks = run_keygen(&[1, 2], 2);
    let pk = ks[0].public_key().to_bytes();
    let digest = Sha512::digest(pk);
    assert_eq!(&ks[0].chain_code[..], &digest[..32]);
    assert_eq!(ks[0].chain_code, ks[1].chain_code);
}

#[test]
fn keygen_keeps_given_chain_code_and_imported_secret() {
    let players = [4usize, 9];
    let set = id_set(&players);
    let cc = [7u8; 32];
    let ui1 = vec![0u8, 5];
    let ui2 = vec![1u8];
    let starts = vec![
        keygen_begin(&set, 4, 2, Some(ui1.clone()), Some(cc)).unwrap(),
        keygen_begin(&set, 9, 2, Some(ui2.clone()), Some(cc)).unwrap(),
    ];
    assert_eq!(starts[0].ui, Scalar::from_u64(5));
    let ks = finish_keygen(starts);
    assert_eq!(ks[0].chain_code, cc);
    assert_eq!(ks[1].chain_code, cc);
    assert_eq!(ks[0].ui, ui1);
    assert_eq!(ks[1].ui, ui2);
    // The secret is u_4 + u_9 = 6, so the public key is 6·G.
    assert_eq!(ks[0].public_key(), Point::base_mul(&Scalar::from_u64(6)));
}

#[test]
fn keygen_rejects_party_outside_players() {
    let set = id_set(&[1, 2]);
    assert!(matches!(keygen_begin(&set, 3, 2, None, None), Err(Error::InvalidArgument)));
}

#[test]
fn keygen_rejects_short_commitments() {
    let players = [1usize, 2, 3];
    let set = id_set(&players);
    let mut starts: Vec<KeygenStart> = players
        .iter()
        .map(|i| keygen_begin(&set, *i, 2, None, None).unwrap())
        .collect();
    let st = starts.remove(0);
    let good = starts[0].commitments.clone();
    let short = vec![starts[1].commitments[0]];
    assert!(matches!(
        keygen_share(st, vec![good, short]),
        Err(Error::InvalidPolyCommitLen { peer: 3 })
    ));
}

#[test]
fn keygen_rejects_tampered_ciphertext() {
    let players = [1usize, 2];
    let set = id_set(&players);
    let a = keygen_begin(&set, 1, 2, None, None).unwrap();
    let b = keygen_begin(&set, 2, 2, None, None).unwrap();
    let ca = a.commitments.clone();
    let cb = b.commitments.clone();
    let (sha, _cts_a) = keygen_share(a, vec![cb]).unwrap();
    let (_shb, cts_b) = keygen_share(b, vec![ca]).unwrap();
    let mut ct = cts_b[0].clone();
    ct.ciphertext[0] ^= 1;
    assert!(matches!(keygen_prove(sha, vec![ct]), Err(Error::AesDecryptFailed { peer: 2 })));
}

#[test]
fn keygen_rejects_share_off_the_commitments() {
    let players = [1usize, 2];
    let set = id_set(&players);
    let a = keygen_begin(&set, 1, 2, None, None).unwrap();
    let b = keygen_begin(&set, 2, 2, None, None).unwrap();
    let (sha, _cts_a) = keygen_share(a, vec![b.commitments.clone()]).unwrap();
    // Party 2 sends, under the right key, a share that is not its
    // polynomial at 1.
    let key = sha.aes_keys[0];
    let wrong = Scalar::from_u64(12345).to_bytes();
    let ct = svarog_eddsa::aes::aes_encrypt(&key, &wrong).unwrap();
    assert!(matches!(keygen_prove(sha, vec![ct]), Err(Error::FeldmanVerifyFailed { peer: 2 })));
}

#[test]
fn keygen_rejects_bad_proof() {
    let players = [1usize, 2];
    let set = id_set(&players);
    let starts = vec![
        keygen_begin(&set, 1, 2, None, None).unwrap(),
        keygen_begin(&set, 2, 2, None, None).unwrap(),
    ];
    let ca = starts[0].commitments.clone();
    let cb = starts[1].commitments.clone();
    let mut it = starts.into_iter();
    let (sha, cts_a) = keygen_share(it.next().unwrap(), vec![cb]).unwrap();
    let (shb, cts_b) = keygen_share(it.next().unwrap(), vec![ca]).unwrap();
    let pa = keygen_prove(sha, cts_b).unwrap();
    let pb = keygen_prove(shb, cts_a).unwrap();
    let mut bad = pb.proof;
    bad.z = bad.z.add(&Scalar::one());
    assert!(matches!(keygen_finish(pa, vec![bad]), Err(Error::DishonestPeer { peer: 2 })));
}

#[test]
fn sign_rejects_bad_arguments() {
    let ks = run_keygen(&[1, 2], 2);
    let signers = id_set(&[2, 3]);
    let zero = [Scalar::zero()];
    assert!(matches!(
        sign_begin(&ks[0], &signers, &zero, vec![b"x".to_vec()]),
        Err(Error::NotASigner)
    ));
    let signers = id_set(&[1, 2]);
    assert!(matches!(sign_begin(&ks[0], &signers, &[], vec![]), Err(Error::EmptyBatch)));
    assert!(matches!(
        sign_begin(&ks[0], &signers, &[], vec![b"x".to_vec()]),
        Err(Error::LenMismatch)
    ));
}

#[test]
fn sign_rejects_point_off_its_commitment() {
    let ks = run_keygen(&[1, 2], 2);
    let signers = [1usize, 2];
    let set = id_set(&signers);
    let zero = [Scalar::zero()];
    let s1 = sign_begin(&ks[0], &set, &zero, vec![b"x".to_vec()]).unwrap();
    let s2 = sign_begin(&ks[1], &set, &zero, vec![b"x".to_vec()]).unwrap();
    let wrong_point = vec![Point::generator()];
    let r = sign_respond(s1, vec![s2.nonce_commitments.clone()], vec![wrong_point]);
    assert!(matches!(r, Err(Error::InvalidCommitment { peer: 2, seq: 0 })));
}

#[test]
fn sign_rejects_bad_partial_signature() {
    let ks = run_keygen(&[1, 2], 2);
    let signers = [1usize, 2];
    let set = id_set(&signers);
    let zero = [Scalar::zero()];
    let sessions = vec![
        sign_begin(&ks[0], &set, &zero, vec![b"x".to_vec()]).unwrap(),
        sign_begin(&ks[1], &set, &zero, vec![b"x".to_vec()]).unwrap(),
    ];
    let responded = respond_all(sessions, &signers);
    let bad = vec![vec![responded[1].responses[0].add(&Scalar::one())]];
    assert!(matches!(
        sign_finish(&responded[0], bad),
        Err(Error::InvalidPartialSignature { peer: 2, seq: 0 })
    ));
}

#[test]
fn sign_with_offset_verifies_under_tweaked_key() {
    let ks = run_keygen(&[1, 2], 2);
    let signers = [1usize, 2];
    let set = id_set(&signers);
    let offsets = [Scalar::from_u64(42)];
    let sessions = vec![
        sign_begin(&ks[0], &set, &offsets, vec![b"child".to_vec()]).unwrap(),
        sign_begin(&ks[1], &set, &offsets, vec![b"child".to_vec()]).unwrap(),
    ];
    let child = ks[0].public_key().add_base_mul(&Scalar::from_u64(42));
    assert_eq!(sessions[0].child_pks[0], child);
    let responded = respond_all(sessions, &signers);
    let sigs = sign_finish(&responded[0], vec![responded[1].responses.clone()]).unwrap();
    assert!(sigs[0].verify(&child, b"child").is_ok());
    let (r, s, v) = sigs[0].to_rsv();
    assert_eq!(r, sigs[0].R.to_bytes().to_vec());
    assert_eq!(s, sigs[0].s.to_bytes().to_vec());
    assert_eq!(v, 0);
}

#[test]
fn reshare_rejects_bad_arguments() {
    let ks = run_keygen(&[1, 2, 3], 2);
    let set = id_set(&[1, 2, 3]);
    assert!(matches!(reshare_begin(&set, 4, 2, None), Err(Error::InvalidArgument)));
    let other = id_set(&[1, 2, 4]);
    assert!(matches!(reshare_begin(&other, 1, 2, Some(&ks[0])), Err(Error::InvalidArgument)));
    // The threshold stays: a keystore of threshold 2 does not fit one of 3.
    assert!(matches!(reshare_begin(&set, 1, 3, Some(&ks[0])), Err(Error::InvalidArgument)));
    assert!(matches!(reshare_begin(&set, 4, 0, None), Err(Error::InvalidArgument)));
    assert!(reshare_begin(&set, 1, 2, Some(&ks[0])).is_ok());
}

#[test]
fn reshare_needs_enough_producers() {
    let players = [1usize, 2, 3];
    let ks = run_keygen(&players, 2);
    let set = id_set(&players);
    let st = reshare_begin(&set, 1, 2, Some(&ks[0])).unwrap();
    let silent = AliveAnnounce { has_share: false, pk_and_cc: None };
    assert!(matches!(
        reshare_split(st, vec![silent, silent]),
        Err(Error::InsufficientActiveProducers)
    ));
}

#[test]
fn reshare_rejects_malformed_and_inconsistent_announcements() {
    let players = [1usize, 2, 3];
    let ks = run_keygen(&players, 2);
    let set = id_set(&players);
    let good = reshare_begin(&set, 2, 2, Some(&ks[1])).unwrap().announce;
    let malformed = AliveAnnounce { has_share: true, pk_and_cc: None };
    let st = reshare_begin(&set, 1, 2, Some(&ks[0])).unwrap();
    assert!(matches!(
        reshare_split(st, vec![good, malformed]),
        Err(Error::MalformedReshareAnnounce { peer: 3 })
    ));
    let other_pk = AliveAnnounce {
        has_share: true,
        pk_and_cc: Some((Point::generator(), ks[0].chain_code)),
    };
    let st = reshare_begin(&set, 1, 2, Some(&ks[0])).unwrap();
    assert!(matches!(
        reshare_split(st, vec![other_pk, good]),
        Err(Error::InconsistentReshareAnnounce { peer: 2 })
    ));
}

#[test]
fn reshare_refuses_a_different_public_key() {
    let players = [1usize, 2];
    let ks = run_keygen(&players, 2);
    let set = id_set(&players);
    let a = reshare_begin(&set, 1, 2, Some(&ks[0])).unwrap();
    let b = reshare_begin(&set, 2, 2, Some(&ks[1])).unwrap();
    let sp = reshare_split(a, vec![b.announce]).unwrap();
    let unrelated = run_keygen(&players, 2);
    assert!(matches!(
        reshare_finish(&sp, unrelated[0].clone()),
        Err(Error::InvalidKeyRefresh)
    ));
    assert!(reshare_finish(&sp, ks[0].clone()).is_ok());
}

#[test]
fn reshare_pieces_add_up_to_weighted_share() {
    let players = [1usize, 2, 3];
    let ks = run_keygen(&players, 2);
    let set = id_set(&players);
    let starts: Vec<ReshareStart> = players
        .iter()
        .map(|i| reshare_begin(&set, *i, 2, Some(&ks[index_in(&players, *i)])).unwrap())
        .collect();
    let anns: Vec<AliveAnnounce> = starts.iter().map(|s| s.announce).collect();
    let st = reshare_begin(&set, 2, 2, Some(&ks[1])).unwrap();
    let sp = reshare_split(st, vec![anns[0], anns[2]]).unwrap();
    assert_eq!(sp.producers, vec![1, 2, 3]);
    assert_eq!(sp.senders, vec![1, 3]);
    assert_eq!(sp.expected_pk, ks[0].public_key());
    let mut sum = Scalar::zero();
    for p in &sp.pieces {
        sum = sum.add(p);
    }
    // lambda_2 over {1, 2, 3} is 1·3 / ((1 - 2)(3 - 2)) = -3.
    let lambda = Scalar::zero().sub(&Scalar::from_u64(3));
    assert_eq!(sum, lambda.mul(&ks[1].xi));
}

/// Keygen for players 1 and 2 with `u_1 = 5`, `u_2 = 1` and the higher
/// coefficients 2 and 3: the summed polynomial is `F(x) = 6 + 5x`.
fn keygen_known() -> Vec<Keystore> {
    let players = [1usize, 2];
    let set = id_set(&players);
    let starts = vec![
        keygen_begin_with(&set, 1, 2, Some(vec![5]), None, &[], &[Scalar::from_u64(2)]).unwrap(),
        keygen_begin_with(&set, 2, 2, Some(vec![1]), None, &[], &[Scalar::from_u64(3)]).unwrap(),
    ];
    finish_keygen(starts)
}

#[test]
fn keygen_shares_lie_on_the_summed_polynomial() {
    let ks = keygen_known();
    assert_eq!(ks[0].xi, Scalar::from_u64(11));
    assert_eq!(ks[1].xi, Scalar::from_u64(16));
    assert_eq!(ks[0].public_key(), Point::base_mul(&Scalar::from_u64(6)));
}

#[test]
fn aggregate_s_is_nonces_plus_challenge_times_secret() {
    let ks = keygen_known();
    let signers = [1usize, 2];
    let set = id_set(&signers);
    let zero = [Scalar::zero()];
    let sessions = vec![
        sign_begin_with(&ks[0], &set, &zero, vec![b"m".to_vec()], &[Scalar::from_u64(10)]).unwrap(),
        sign_begin_with(&ks[1], &set, &zero, vec![b"m".to_vec()], &[Scalar::from_u64(20)]).unwrap(),
    ];
    let responded = respond_all(sessions, &signers);
    let c = responded[0].challenges[0];
    assert_eq!(c, responded[1].challenges[0]);
    let sigs = sign_finish(&responded[0], vec![responded[1].responses.clone()]).unwrap();
    let expected = Scalar::from_u64(30).add(&c.mul(&Scalar::from_u64(6)));
    assert_eq!(sigs[0].s, expected);
    assert_eq!(sigs[0].R, Point::base_mul(&Scalar::from_u64(30)));
}

#[test]
fn reshare_keeps_the_secret() {
    let players = [1usize, 2, 3];
    let old_ks = run_keygen(&players, 2);
    let mut weighted = Scalar::zero();
    for k in &old_ks {
        weighted = weighted.add(&lagrange_lambda(k.i, &players).mul(&k.xi));
    }
    let inputs: Vec<(usize, Option<Keystore>)> =
        old_ks.iter().map(|k| (k.i, Some(k.clone()))).collect();
    let new_ks = run_reshare(inputs, &players, 2);
    let mut sum_ui = Scalar::zero();
    for k in &new_ks {
        sum_ui = sum_ui.add(&Scalar::from_be_digits(&k.ui));
    }
    assert_eq!(sum_ui, weighted);
    assert_eq!(Point::base_mul(&sum_ui), old_ks[0].public_key());
}

#[test]
fn any_threshold_of_shares_carries_the_secret() {
    let players = [1usize, 2, 3];
    let ks = run_keygen(&players, 2);
    let mut secret = Scalar::zero();
    for k in &ks {
        secret = secret.add(&Scalar::from_be_digits(&k.ui));
    }
    for t in [[1usize, 2], [1, 3], [2, 3]] {
        let mut acc = Scalar::zero();
        for j in t {
            let x = ks[index_in(&players, j)].xi;
            acc = acc.add(&lagrange_lambda(j, &t).mul(&x));
        }
        assert_eq!(acc, secret);
    }
    assert_eq!(Point::base_mul(&secret), ks[0].public_key());
}
