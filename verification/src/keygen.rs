//! Threshold EdDSA key generation (Curve25519), one party's side.
//!
//! 1. Each party commits to a random polynomial whose constant term is its
//!    contribution `u_i` and broadcasts the commitments `F_i(X)`.
//! 2. Each party sends `f_i(j)` to every peer `j`, encrypted under the
//!    Diffie-Hellman key `u_i·F_j(0)`, and checks what it receives against
//!    the sender's commitments.
//! 3. Each party proves knowledge of its final share `x_i`, and checks the
//!    proofs of the others against `x_j·G` computed from the commitments.
//!
//! Each step is a function from the state and what the peers sent to the
//! next state and what to send; the caller moves the messages.
use crate::aes::{aes_decrypt, aes_encrypt, decryption_of, is_encryption_of, AEAD};
use crate::collections::{position_of, remove_at, sorted_ids, strictly_increasing};
use crate::curve::{
    basepoint_mul, bytes_mod_order, gmul, group_order, identity_encoding, scalar_enc, subgroup_mul,
    Point, Scalar,
};
use crate::dlog_proof::{
    dlog_challenge, dlog_proof_valid, dlog_prove_with_nonce, dlog_verify, honest_proof, DLogProof,
};
use crate::hash::{sha512, sha512_digest};
use crate::encoding::be_nat;
use crate::error::Error;
use crate::keystore::{
    scheme_coeffs, scheme_players, scheme_public_key, scheme_sum_constant_terms, Keystore,
    PlayerCommitments,
};
use crate::sign::{copy_points, point_sum};
use crate::sums::{column, column_sums, lemma_nat_sum_mod, lemma_nat_sum_remove, nat_sum};
use crate::interpolation::lemma_lagrange_reconstructs;
use crate::curve::has_inverse;
use vstd::arithmetic::div_mod::{lemma_add_mod_noop, lemma_small_mod};
use crate::polynomial::{
    commits_to, honest_shares, scheme_commits_to, summed_value, encodings, eval_xi_com, generate_shares_with, id_value, lagrange_coefficient, lagrange_den,
    lemma_summed_polynomial, poly_eval, share_matches, values, verify_fj_at_i, xi_com,
};
use crate::rng::fill_random;
use std::collections::HashSet;
use vstd::prelude::*;

verus! {

/// The slot, among all players, of the `k`-th peer when this party sits at
/// `my_pos`.
pub open spec fn peer_slot(my_pos: usize, k: int) -> int {
    if k < my_pos {
        k
    } else {
        k + 1
    }
}

/// One party's key generation after the first step.
pub struct KeygenStart {
    /// This party's id.
    pub i: usize,
    /// The threshold: the number of coefficients of each polynomial.
    pub th: usize,
    /// The players, in increasing order.
    pub players: Vec<usize>,
    /// The position of this party among the players.
    pub my_pos: usize,
    /// The other players, in increasing order.
    pub others: Vec<usize>,
    /// This party's contribution `u_i`, as the big-endian digits of an integer.
    pub ui_digits: Vec<u8>,
    /// `u_i` as a scalar.
    pub ui: Scalar,
    /// The chain code to keep, if one was given.
    pub chain_code: Option<[u8; 32]>,
    /// The commitments `F_i(X)` to this party's polynomial.
    pub commitments: Vec<Point>,
    /// This party's polynomial at each player's id, in the players' order.
    pub shares: Vec<Scalar>,
    /// The coefficients of this party's polynomial.
    pub polynomial: Ghost<Seq<Scalar>>,
}

impl KeygenStart {
    /// The players are listed once each, in increasing order, with this party
    /// at `my_pos`; the polynomial has `th` coefficients, `u_i` first; the
    /// commitments and the shares are those of the polynomial.
    pub open spec fn wf(&self) -> bool {
        &&& strictly_increasing(self.players@)
        &&& self.my_pos < self.players@.len()
        &&& self.players@[self.my_pos as int] == self.i
        &&& self.others@ == self.players@.remove(self.my_pos as int)
        &&& 1 <= self.th <= self.players@.len()
        &&& self.ui.value() == be_nat(self.ui_digits@) % group_order()
        &&& self.polynomial@.len() == self.th
        &&& self.polynomial@[0] == self.ui
        &&& self.commitments@.len() == self.th
        &&& commits_to(encodings(self.commitments@), values(self.polynomial@))
        &&& forall|k: int|
            0 <= k < self.th ==> #[trigger] self.commitments@[k]@ == basepoint_mul(
                self.polynomial@[k]@,
            )
        &&& self.shares@.len() == self.players@.len()
        &&& forall|k: int|
            0 <= k < self.players@.len() ==> #[trigger] self.shares@[k].value() == poly_eval(
                id_value(self.players@[k]),
                values(self.polynomial@),
            ) % group_order()
    }
}

/// The first step of key generation for party `i` among `players` with
/// threshold `th`: takes `u_i` from `imported_ui` (big-endian digits), or
/// else from the 32 random bytes `fresh_ui`, and shares it with a polynomial
/// whose higher coefficients are `tail`. The caller sends `commitments` to
/// every other player. Fails when `i` is not a player.
pub fn keygen_begin_with(
    players: &HashSet<usize>,
    i: usize,
    th: usize,
    imported_ui: Option<Vec<u8>>,
    chain_code: Option<[u8; 32]>,
    fresh_ui: &[u8],
    tail: &[Scalar],
) -> (r: Result<KeygenStart, Error>)
    requires
        players@.contains(i) ==> 1 <= th <= players@.len(),
        players@.contains(i) ==> tail@.len() + 1 == th,
    ensures
        (r is Err) == !players@.contains(i),
        r matches Err(e) ==> e == Error::InvalidArgument,
        r matches Ok(st) ==> {
            &&& st.wf()
            &&& st.i == i
            &&& st.th == th
            &&& st.players@.to_set() == players@
            &&& st.ui_digits@ == (match imported_ui {
                Some(d) => d@,
                None => fresh_ui@,
            })
            &&& st.chain_code == chain_code
            &&& st.polynomial@ == seq![st.ui] + tail@
        },
{
    broadcast use vstd::std_specs::hash::group_hash_axioms;
    if !players.contains(&i) {
        return Err(Error::InvalidArgument);
    }
    let sorted = sorted_ids(players);
    proof {
        assert(sorted@.to_set().contains(i));
    }
    let my_pos = match position_of(sorted.as_slice(), i) {
        Some(p) => p,
        None => {
            proof {
                assert(sorted@.to_set().contains(i) ==> sorted@.contains(i));
            }
            return Err(Error::InvalidArgument);
        },
    };
    let others = remove_at(sorted.as_slice(), my_pos);
    let ui_digits = match imported_ui {
        Some(d) => d,
        None => crate::encoding::copy_bytes(fresh_ui),
    };
    let ui = Scalar::from_be_digits(ui_digits.as_slice());
    let (coeffs, commitments, shares) = generate_shares_with(&ui, sorted.as_slice(), tail);
    proof {
        assert(coeffs@[0] == ui);
    }
    Ok(KeygenStart {
        i,
        th,
        players: sorted,
        my_pos,
        others,
        ui_digits,
        ui,
        chain_code,
        commitments,
        shares,
        polynomial: Ghost(coeffs@),
    })
}

/// The first step of key generation with fresh randomness: 32 random bytes
/// for `u_i` where none is imported, and random higher coefficients.
pub fn keygen_begin(
    players: &HashSet<usize>,
    i: usize,
    th: usize,
    imported_ui: Option<Vec<u8>>,
    chain_code: Option<[u8; 32]>,
) -> (r: Result<KeygenStart, Error>)
    requires
        players@.contains(i) ==> 1 <= th <= players@.len(),
    ensures
        (r is Err) == !players@.contains(i),
        r matches Err(e) ==> e == Error::InvalidArgument,
        r matches Ok(st) ==> {
            &&& st.wf()
            &&& st.i == i
            &&& st.th == th
            &&& st.players@.to_set() == players@
            &&& imported_ui matches Some(d) ==> st.ui_digits@ == d@
            &&& imported_ui is None ==> st.ui_digits@.len() == 32
            &&& st.chain_code == chain_code
        },
{
    let mut fresh = [0u8; 32];
    if imported_ui.is_none() {
        fill_random(&mut fresh);
    }
    let mut tail: Vec<Scalar> = Vec::new();
    let mut k: usize = 1;
    while k < th
        invariant
            1 <= k,
            th >= 1 ==> k <= th,
            tail@.len() == k - 1,
        decreases th - k,
    {
        tail.push(Scalar::random());
        k = k + 1;
    }
    keygen_begin_with(players, i, th, imported_ui, chain_code, &fresh, tail.as_slice())
}


/// One party's key generation after the second step.
pub struct KeygenShared {
    pub start: KeygenStart,
    /// Every player's commitments, in the players' order.
    pub vss_scheme: Vec<PlayerCommitments>,
    /// The public key: the sum of every player's constant-term commitment.
    pub public_key: Point,
    /// Per peer (in the order of `others`): the key `u_i·F_j(0)` shared with it.
    pub aes_keys: Vec<[u8; 32]>,
}

impl KeygenShared {
    /// The scheme holds every player's `th` commitments, this party's own at
    /// its slot; the public key sums the constant terms; the key shared with
    /// each peer is `u_i` times that peer's constant-term commitment.
    pub open spec fn wf(&self) -> bool {
        let st = self.start;
        &&& st.wf()
        &&& scheme_players(self.vss_scheme@) == st.players@
        &&& forall|q: int|
            0 <= q < self.vss_scheme@.len() ==> #[trigger] self.vss_scheme@[q].coeffs@.len()
                == st.th
        &&& self.vss_scheme@[st.my_pos as int].coeffs@ == st.commitments@
        &&& self.public_key@ == scheme_public_key(scheme_coeffs(self.vss_scheme@))
        &&& self.aes_keys@.len() == st.others@.len()
        &&& forall|k: int|
            0 <= k < st.others@.len() ==> #[trigger] self.aes_keys@[k]@ == subgroup_mul(
                self.vss_scheme@[peer_slot(st.my_pos, k)].coeffs@[0]@,
                st.ui@,
            )
    }
}

/// The second step, once every peer's commitments have arrived
/// (`peer_commitments[k]` from `others[k]`): checks that each peer committed
/// to `th` coefficients (failing on the first that did not), gathers the
/// scheme and the public key, and encrypts this party's share for each peer
/// under the key shared with it. The caller sends the `k`-th ciphertext to
/// `others[k]`.
pub fn keygen_share(st: KeygenStart, peer_commitments: Vec<Vec<Point>>) -> (r: Result<
    (KeygenShared, Vec<AEAD>),
    Error,
>)
    requires
        st.wf(),
        peer_commitments@.len() == st.others@.len(),
    ensures
        (r is Ok) == (forall|k: int|
            0 <= k < st.others@.len() ==> #[trigger] peer_commitments@[k]@.len() == st.th),
        r matches Err(e) ==> (exists|k: int|
            0 <= k < st.others@.len() && e == (Error::InvalidPolyCommitLen { peer: st.others@[k] })
                && peer_commitments@[k]@.len() != st.th && (forall|k2: int|
                0 <= k2 < k ==> #[trigger] peer_commitments@[k2]@.len() == st.th)),
        r matches Ok(res) ==> {
            let (sh, cts) = res;
            &&& sh.wf()
            &&& sh.start == st
            &&& forall|k: int|
                0 <= k < st.others@.len() ==> #[trigger] sh.vss_scheme@[peer_slot(
                    st.my_pos,
                    k,
                )].coeffs@ == peer_commitments@[k]@
            &&& forall|polys: Seq<Seq<nat>>|
                #[trigger] scheme_commits_to(scheme_coeffs(sh.vss_scheme@), polys)
                    ==> sh.public_key@ == gmul(nat_sum(column(polys, 0)) as int)
            &&& forall|polys: Seq<Seq<nat>>|
                #[trigger] scheme_commits_to(scheme_coeffs(sh.vss_scheme@), polys) ==> forall|
                    k: int,
                |
                    0 <= k < st.others@.len() ==> #[trigger] sh.aes_keys@[k]@ == gmul(
                        (polys[peer_slot(st.my_pos, k)][0] * st.ui.value()) as int,
                    )
            &&& cts@.len() == st.others@.len()
            &&& forall|k: int|
                0 <= k < st.others@.len() ==> is_encryption_of(
                    sh.aes_keys@[k]@,
                    st.shares@[peer_slot(st.my_pos, k)]@,
                    #[trigger] cts@[k],
                )
        },
{
    let m = st.others.len();
    let mut k: usize = 0;
    while k < m
        invariant
            m == st.others@.len(),
            m == peer_commitments@.len(),
            k <= m,
            forall|k2: int| 0 <= k2 < k ==> #[trigger] peer_commitments@[k2]@.len() == st.th,
        decreases m - k,
    {
        if peer_commitments[k].len() != st.th {
            return Err(Error::InvalidPolyCommitLen { peer: st.others[k] });
        }
        k = k + 1;
    }
    let n = st.players.len();
    let mut vss: Vec<PlayerCommitments> = Vec::new();
    let mut q: usize = 0;
    while q < n
        invariant
            st.wf(),
            n == st.players@.len(),
            m == st.others@.len(),
            m == peer_commitments@.len(),
            forall|k2: int| 0 <= k2 < m ==> #[trigger] peer_commitments@[k2]@.len() == st.th,
            q <= n,
            vss@.len() == q,
            forall|a: int| 0 <= a < q ==> #[trigger] vss@[a].player == st.players@[a],
            forall|a: int|
                0 <= a < q ==> #[trigger] vss@[a].coeffs@ == (if a == st.my_pos {
                    st.commitments@
                } else if a < st.my_pos {
                    peer_commitments@[a]@
                } else {
                    peer_commitments@[a - 1]@
                }),
        decreases n - q,
    {
        let coeffs = if q == st.my_pos {
            copy_points(st.commitments.as_slice())
        } else if q < st.my_pos {
            copy_points(peer_commitments[q].as_slice())
        } else {
            copy_points(peer_commitments[q - 1].as_slice())
        };
        let ghost prev = vss@;
        vss.push(PlayerCommitments { player: st.players[q], coeffs });
        proof {
            assert forall|a: int| 0 <= a < q + 1 implies #[trigger] vss@[a].coeffs@ == (if a
                == st.my_pos {
                st.commitments@
            } else if a < st.my_pos {
                peer_commitments@[a]@
            } else {
                peer_commitments@[a - 1]@
            }) by {
                if a < q {
                    assert(vss@[a] == prev[a]);
                }
            }
        }
        q = q + 1;
    }
    proof {
        assert(scheme_players(vss@) =~= st.players@);
        assert forall|a: int| 0 <= a < vss@.len() implies #[trigger] vss@[a].coeffs@.len() >= 1
            && vss@[a].coeffs@.len() == st.th by {
            if a != st.my_pos && a < st.my_pos {
                assert(peer_commitments@[a]@.len() == st.th);
            } else if a != st.my_pos {
                assert(peer_commitments@[a - 1]@.len() == st.th);
            }
        }
    }
    let public_key = scheme_sum_constant_terms(&vss);
    let mut aes_keys: Vec<[u8; 32]> = Vec::new();
    let mut cts: Vec<AEAD> = Vec::new();
    let mut k: usize = 0;
    while k < m
        invariant
            st.wf(),
            n == st.players@.len(),
            m == st.others@.len(),
            vss@.len() == n,
            forall|a: int| 0 <= a < n ==> #[trigger] vss@[a].coeffs@.len() == st.th,
            k <= m,
            aes_keys@.len() == k,
            cts@.len() == k,
            forall|a: int|
                0 <= a < k ==> #[trigger] aes_keys@[a]@ == subgroup_mul(
                    vss@[peer_slot(st.my_pos, a)].coeffs@[0]@,
                    st.ui@,
                ),
            forall|a: int|
                0 <= a < k ==> is_encryption_of(
                    aes_keys@[a]@,
                    st.shares@[peer_slot(st.my_pos, a)]@,
                    #[trigger] cts@[a],
                ),
            forall|polys: Seq<Seq<nat>>|
                #[trigger] scheme_commits_to(scheme_coeffs(vss@), polys) ==> forall|a: int|
                    0 <= a < k ==> #[trigger] aes_keys@[a]@ == gmul(
                        (polys[peer_slot(st.my_pos, a)][0] * st.ui.value()) as int,
                    ),
        decreases m - k,
    {
        let slot = if k < st.my_pos { k } else { k + 1 };
        let dh = vss[slot].coeffs[0].mul(&st.ui).to_bytes();
        proof {
            assert forall|polys: Seq<Seq<nat>>|
                #[trigger] scheme_commits_to(scheme_coeffs(vss@), polys) implies dh@ == gmul(
                (polys[slot as int][0] * st.ui.value()) as int,
            ) by {
                assert(commits_to(scheme_coeffs(vss@)[slot as int], polys[slot as int]));
                assert(scheme_coeffs(vss@)[slot as int][0] == vss@[slot as int].coeffs@[0]@);
            }
        }
        let pt = st.shares[slot].to_bytes();
        match aes_encrypt(&dh, &pt) {
            Ok(ct) => {
                aes_keys.push(dh);
                cts.push(ct);
            },
            Err(_) => {
                return Err(Error::AesEncryptFailed { peer: st.others[k] });
            },
        }
        k = k + 1;
    }
    Ok((KeygenShared { start: st, vss_scheme: vss, public_key, aes_keys }, cts))
}


/// The share value that decrypting `ct` under `key` yields: the plaintext read
/// as a scalar (zero where decryption fails).
pub open spec fn received_share(key: Seq<u8>, ct: AEAD) -> nat {
    match decryption_of(key, ct) {
        Ok(pt) => bytes_mod_order(pt),
        Err(_) => 0,
    }
}

/// One party's key generation after the third step.
pub struct KeygenProved {
    pub shared: KeygenShared,
    /// Per peer (in the order of `others`): the share `f_j(i)` it sent.
    pub received: Vec<Scalar>,
    /// This party's final share `x_i = f_i(i) + sum f_j(i)`.
    pub xi: Scalar,
    /// This party's proof of knowledge of `x_i`.
    pub proof: DLogProof,
}

impl KeygenShared {
    /// The ciphertext from peer `k` decrypts.
    pub open spec fn decrypts(&self, cts: Seq<AEAD>, k: int) -> bool {
        decryption_of(self.aes_keys@[k]@, cts[k]) is Ok
    }

    /// Every peer dealt honestly for the polynomials `polys` (by player slot):
    /// the scheme commits to them, and each ciphertext decrypts to its
    /// sender's polynomial at this party's id.
    pub open spec fn honest_dealing(&self, cts: Seq<AEAD>, polys: Seq<Seq<nat>>) -> bool {
        &&& scheme_commits_to(scheme_coeffs(self.vss_scheme@), polys)
        &&& forall|k: int|
            0 <= k < cts.len() ==> #[trigger] self.decrypts(cts, k) && received_share(
                self.aes_keys@[k]@,
                cts[k],
            ) == poly_eval(id_value(self.start.i), polys[peer_slot(self.start.my_pos, k)])
                % group_order()
    }

    /// Every peer encrypted honestly for the polynomials `polys` (by player
    /// slot): the scheme commits to them, and each ciphertext encrypts, under
    /// the key shared with its sender, a 32-byte plaintext whose scalar is the
    /// sender's polynomial at this party's id.
    pub open spec fn honest_encryptions(&self, cts: Seq<AEAD>, polys: Seq<Seq<nat>>) -> bool {
        &&& scheme_commits_to(scheme_coeffs(self.vss_scheme@), polys)
        &&& forall|k: int| 0 <= k < cts.len() ==> #[trigger] self.honest_encryption(cts, polys, k)
    }

    /// The ciphertext from peer `k` encrypts, under the key shared with it, a
    /// 32-byte plaintext whose scalar is that peer's polynomial in `polys` at
    /// this party's id.
    pub open spec fn honest_encryption(&self, cts: Seq<AEAD>, polys: Seq<Seq<nat>>, k: int) -> bool {
        exists|pt: Seq<u8>|
            pt.len() == 32 && bytes_mod_order(pt) == poly_eval(
                id_value(self.start.i),
                polys[peer_slot(self.start.my_pos, k)],
            ) % group_order() && #[trigger] is_encryption_of(self.aes_keys@[k]@, pt, cts[k])
    }

    /// The share from peer `k` matches that peer's commitments.
    pub open spec fn share_ok(&self, cts: Seq<AEAD>, k: int) -> bool {
        share_matches(
            self.vss_scheme@,
            self.start.i,
            self.start.others@[k],
            scalar_enc(received_share(self.aes_keys@[k]@, cts[k])),
        )
    }
}

/// The third step with the proof nonce `nonce`, once every peer's encrypted
/// share has arrived (`cts[k]` from `others[k]`): decrypts each (failing on
/// the first that does not decrypt), checks each against its sender's
/// commitments (failing on the first that does not match), adds them up to
/// this party's final share and proves knowledge of it. The caller sends
/// `proof` to every other player.
pub fn keygen_prove_with(sh: KeygenShared, cts: Vec<AEAD>, nonce: &Scalar) -> (r: Result<
    KeygenProved,
    Error,
>)
    requires
        sh.wf(),
        cts@.len() == sh.start.others@.len(),
        forall|k: int| 0 <= k < cts@.len() ==> #[trigger] cts@[k].tag@.len() == 12,
    ensures
        (r is Ok) == ((forall|k: int| 0 <= k < cts@.len() ==> #[trigger] sh.decrypts(cts@, k))
            && (forall|k: int| 0 <= k < cts@.len() ==> #[trigger] sh.share_ok(cts@, k))),
        r matches Err(e) ==> ((exists|k: int|
            0 <= k < cts@.len() && e == (Error::AesDecryptFailed { peer: sh.start.others@[k] })
                && !sh.decrypts(cts@, k) && (forall|k2: int|
                0 <= k2 < k ==> #[trigger] sh.decrypts(cts@, k2))) || ((forall|k: int|
            0 <= k < cts@.len() ==> #[trigger] sh.decrypts(cts@, k)) && exists|k: int|
            0 <= k < cts@.len() && e == (Error::FeldmanVerifyFailed { peer: sh.start.others@[k] })
                && !sh.share_ok(cts@, k) && (forall|k2: int|
                0 <= k2 < k ==> #[trigger] sh.share_ok(cts@, k2)))),
        r matches Ok(p) ==> {
            &&& p.shared == sh
            &&& p.received@.len() == cts@.len()
            &&& forall|k: int|
                0 <= k < cts@.len() ==> #[trigger] p.received@[k].value() == received_share(
                    sh.aes_keys@[k]@,
                    cts@[k],
                )
            &&& p.xi.value() == (sh.start.shares@[sh.start.my_pos as int].value() + nat_sum(
                values(p.received@),
            )) % group_order()
            &&& p.proof.rG@ == basepoint_mul(nonce@)
            &&& p.proof.z.value() == (dlog_challenge(p.proof.rG@, basepoint_mul(p.xi@))
                * p.xi.value() + nonce.value()) % group_order()
            &&& honest_proof(p.proof, p.xi.value() as int)
            &&& forall|polys: Seq<Seq<nat>>|
                #[trigger] sh.honest_encryptions(cts@, polys) ==> forall|k: int|
                    0 <= k < cts@.len() ==> #[trigger] p.received@[k].value() == poly_eval(
                        id_value(sh.start.i),
                        polys[peer_slot(sh.start.my_pos, k)],
                    ) % group_order()
        },
        forall|polys: Seq<Seq<nat>>| #[trigger] sh.honest_dealing(cts@, polys) ==> r is Ok,
        forall|polys: Seq<Seq<nat>>| #[trigger] sh.honest_encryptions(cts@, polys) ==> r is Ok,
{
    let m = cts.len();
    let mut received: Vec<Scalar> = Vec::new();
    let mut k: usize = 0;
    while k < m
        invariant
            sh.wf(),
            m == cts@.len(),
            m == sh.start.others@.len(),
            forall|a: int| 0 <= a < cts@.len() ==> #[trigger] cts@[a].tag@.len() == 12,
            k <= m,
            received@.len() == k,
            forall|a: int| 0 <= a < k ==> #[trigger] sh.decrypts(cts@, a),
            forall|a: int|
                0 <= a < k ==> #[trigger] received@[a].value() == received_share(
                    sh.aes_keys@[a]@,
                    cts@[a],
                ),
            forall|a: int| 0 <= a < k ==> #[trigger] received@[a]@ == scalar_enc(received@[a].value()),
            forall|polys: Seq<Seq<nat>>|
                #[trigger] sh.honest_encryptions(cts@, polys) ==> forall|a: int|
                    0 <= a < k ==> #[trigger] received@[a].value() == poly_eval(
                        id_value(sh.start.i),
                        polys[peer_slot(sh.start.my_pos, a)],
                    ) % group_order(),
        decreases m - k,
    {
        match aes_decrypt(&sh.aes_keys[k], &cts[k]) {
            Ok(pt) => {
                let ghost prev = received@;
                received.push(Scalar::from_bytes_mod_order(pt.as_slice()));
                proof {
                    assert forall|polys: Seq<Seq<nat>>|
                        #[trigger] sh.honest_encryptions(cts@, polys) implies forall|a: int|
                        0 <= a < k + 1 ==> #[trigger] received@[a].value() == poly_eval(
                            id_value(sh.start.i),
                            polys[peer_slot(sh.start.my_pos, a)],
                        ) % group_order() by {
                        assert(sh.honest_encryption(cts@, polys, k as int));
                        let w = choose|w: Seq<u8>|
                            w.len() == 32 && bytes_mod_order(w) == poly_eval(
                                id_value(sh.start.i),
                                polys[peer_slot(sh.start.my_pos, k as int)],
                            ) % group_order() && #[trigger] is_encryption_of(
                                sh.aes_keys@[k as int]@,
                                w,
                                cts@[k as int],
                            );
                        assert(pt@ == w);
                        assert forall|a: int| 0 <= a < k implies #[trigger] received@[a]
                            == prev[a] by {}
                    }
                }
            },
            Err(e) => {
                proof {
                    assert(decryption_of(sh.aes_keys@[k as int]@, cts@[k as int]) == Err::<
                        Seq<u8>,
                        Error,
                    >(e));
                    assert(!sh.decrypts(cts@, k as int));
                    assert forall|polys: Seq<Seq<nat>>| !#[trigger] sh.honest_encryptions(cts@, polys) by {
                        if sh.honest_encryptions(cts@, polys) {
                            assert(sh.honest_encryption(cts@, polys, k as int));
                            let w = choose|w: Seq<u8>|
                                w.len() == 32 && bytes_mod_order(w) == poly_eval(
                                    id_value(sh.start.i),
                                    polys[peer_slot(sh.start.my_pos, k as int)],
                                ) % group_order() && #[trigger] is_encryption_of(
                                    sh.aes_keys@[k as int]@,
                                    w,
                                    cts@[k as int],
                                );
                            assert(is_encryption_of(sh.aes_keys@[k as int]@, w, cts@[k as int]));
                        }
                    }
                    assert forall|polys: Seq<Seq<nat>>| !#[trigger] sh.honest_dealing(cts@, polys) by {
                        if sh.honest_dealing(cts@, polys) {
                            assert(sh.decrypts(cts@, k as int));
                        }
                    }
                }
                return Err(Error::AesDecryptFailed { peer: sh.start.others[k] });
            },
        }
        k = k + 1;
    }
    proof {
        assert forall|polys: Seq<Seq<nat>>| #[trigger] sh.honest_encryptions(cts@, polys) implies sh.honest_dealing(
            cts@,
            polys,
        ) by {
            assert forall|a: int| 0 <= a < cts@.len() implies #[trigger] sh.decrypts(cts@, a)
                && received_share(sh.aes_keys@[a]@, cts@[a]) == poly_eval(
                id_value(sh.start.i),
                polys[peer_slot(sh.start.my_pos, a)],
            ) % group_order() by {
                assert(received@[a].value() == received_share(sh.aes_keys@[a]@, cts@[a]));
            }
        }
        assert forall|a: int, b: int|
            0 <= a < b < sh.vss_scheme@.len() implies #[trigger] sh.vss_scheme@[a].player
            != #[trigger] sh.vss_scheme@[b].player by {
            assert(scheme_players(sh.vss_scheme@)[a] == sh.start.players@[a]);
            assert(scheme_players(sh.vss_scheme@)[b] == sh.start.players@[b]);
        }
        assert forall|polys: Seq<Seq<nat>>| #[trigger] sh.honest_dealing(cts@, polys) implies honest_shares(
            sh.vss_scheme@,
            sh.start.i,
            sh.start.others@,
            received@,
            polys,
        ) by {
            let st = sh.start;
            assert forall|k: int| 0 <= k < st.others@.len() implies exists|q: int|
                0 <= q < sh.vss_scheme@.len() && #[trigger] sh.vss_scheme@[q].player
                    == #[trigger] st.others@[k] by {
                let q = peer_slot(st.my_pos, k);
                assert(scheme_players(sh.vss_scheme@)[q] == st.players@[q]);
                assert(sh.vss_scheme@[q].player == st.others@[k]);
            }
            assert forall|k: int, q: int|
                0 <= k < st.others@.len() && 0 <= q < sh.vss_scheme@.len() && #[trigger] sh.vss_scheme@[q].player
                    == #[trigger] st.others@[k] implies received@[k].value() == poly_eval(
                id_value(st.i),
                polys[q],
            ) % group_order() by {
                let q2 = peer_slot(st.my_pos, k);
                assert(scheme_players(sh.vss_scheme@)[q] == st.players@[q]);
                assert(scheme_players(sh.vss_scheme@)[q2] == st.players@[q2]);
                assert(st.players@[q2] == st.others@[k]);
                if q != q2 {
                    if q < q2 {
                        assert(st.players@[q] < st.players@[q2]);
                    } else {
                        assert(st.players@[q2] < st.players@[q]);
                    }
                }
                assert(sh.decrypts(cts@, k));
            }
        }
    }
    match verify_fj_at_i(
        sh.start.i,
        sh.start.others.as_slice(),
        received.as_slice(),
        sh.vss_scheme.as_slice(),
    ) {
        Ok(()) => {},
        Err(e) => {
            proof {
                assert forall|a: int| 0 <= a < m implies sh.share_ok(cts@, a) == share_matches(
                    sh.vss_scheme@,
                    sh.start.i,
                    #[trigger] sh.start.others@[a],
                    received@[a]@,
                ) by {}
            }
            return Err(e);
        },
    }
    let ghost vals = values(received@);
    let mut xi = sh.start.shares[sh.start.my_pos];
    let ghost own = xi.value();
    let mut k: usize = 0;
    proof {
        assert(vals.take(0) =~= Seq::<nat>::empty());
        lemma_small_mod(own, group_order());
    }
    while k < m
        invariant
            m == received@.len(),
            vals == values(received@),
            k <= m,
            xi.value() == (own + nat_sum(vals.take(k as int))) % group_order(),
        decreases m - k,
    {
        let next = xi.add(&received[k]);
        proof {
            let l = group_order() as int;
            assert(vals.take(k + 1).drop_last() =~= vals.take(k as int));
            assert(vals.take(k + 1).last() == received@[k as int].value());
            lemma_add_mod_noop((own + nat_sum(vals.take(k as int))) as int, received@[k as int].value() as int, l);
            lemma_small_mod(received@[k as int].value(), group_order());
            lemma_small_mod(xi.value(), group_order());
        }
        xi = next;
        k = k + 1;
    }
    proof {
        assert(vals.take(m as int) =~= vals);
    }
    let (_, proof) = dlog_prove_with_nonce(&xi, nonce);
    Ok(KeygenProved { shared: sh, received, xi, proof })
}


/// The third step with a fresh random proof nonce.
pub fn keygen_prove(sh: KeygenShared, cts: Vec<AEAD>) -> (r: Result<KeygenProved, Error>)
    requires
        sh.wf(),
        cts@.len() == sh.start.others@.len(),
        forall|k: int| 0 <= k < cts@.len() ==> #[trigger] cts@[k].tag@.len() == 12,
    ensures
        (r is Ok) == ((forall|k: int| 0 <= k < cts@.len() ==> #[trigger] sh.decrypts(cts@, k))
            && (forall|k: int| 0 <= k < cts@.len() ==> #[trigger] sh.share_ok(cts@, k))),
        r matches Err(e) ==> ((exists|k: int|
            0 <= k < cts@.len() && e == (Error::AesDecryptFailed { peer: sh.start.others@[k] })
                && !sh.decrypts(cts@, k) && (forall|k2: int|
                0 <= k2 < k ==> #[trigger] sh.decrypts(cts@, k2))) || ((forall|k: int|
            0 <= k < cts@.len() ==> #[trigger] sh.decrypts(cts@, k)) && exists|k: int|
            0 <= k < cts@.len() && e == (Error::FeldmanVerifyFailed { peer: sh.start.others@[k] })
                && !sh.share_ok(cts@, k) && (forall|k2: int|
                0 <= k2 < k ==> #[trigger] sh.share_ok(cts@, k2)))),
        r matches Ok(p) ==> {
            &&& p.shared == sh
            &&& p.received@.len() == cts@.len()
            &&& forall|k: int|
                0 <= k < cts@.len() ==> #[trigger] p.received@[k].value() == received_share(
                    sh.aes_keys@[k]@,
                    cts@[k],
                )
            &&& p.xi.value() == (sh.start.shares@[sh.start.my_pos as int].value() + nat_sum(
                values(p.received@),
            )) % group_order()
            &&& exists|nonce: Scalar|
                p.proof.rG@ == #[trigger] basepoint_mul(nonce@) && p.proof.z.value() == (dlog_challenge(
                    p.proof.rG@,
                    basepoint_mul(p.xi@),
                ) * p.xi.value() + nonce.value()) % group_order()
            &&& honest_proof(p.proof, p.xi.value() as int)
            &&& forall|polys: Seq<Seq<nat>>|
                #[trigger] sh.honest_encryptions(cts@, polys) ==> forall|k: int|
                    0 <= k < cts@.len() ==> #[trigger] p.received@[k].value() == poly_eval(
                        id_value(sh.start.i),
                        polys[peer_slot(sh.start.my_pos, k)],
                    ) % group_order()
        },
        forall|polys: Seq<Seq<nat>>| #[trigger] sh.honest_dealing(cts@, polys) ==> r is Ok,
        forall|polys: Seq<Seq<nat>>| #[trigger] sh.honest_encryptions(cts@, polys) ==> r is Ok,
{
    let nonce = Scalar::random();
    keygen_prove_with(sh, cts, &nonce)
}

/// The chain code a keystore gets: the one given, or else the first 32 bytes
/// of the SHA-512 digest of the public key.
pub open spec fn keygen_chain_code(given: Option<[u8; 32]>, pk: Seq<u8>) -> Seq<u8> {
    match given {
        Some(c) => c@,
        None => sha512(pk).take(32),
    }
}

/// Without a given chain code, the keystore's chain code is the first 32
/// bytes of the SHA-512 digest of the public key's encoding; a given one is
/// kept.
pub proof fn lemma_keygen_chain_code(given: Option<[u8; 32]>, pk: Seq<u8>)
    ensures
        given is None ==> keygen_chain_code(given, pk) == sha512(pk).subrange(0, 32),
        given matches Some(c) ==> keygen_chain_code(given, pk) == c@,
{
}

impl KeygenProved {
    /// The proof from peer `k` verifies against `x_j·G` computed from the
    /// commitments.
    pub open spec fn proof_ok(&self, proofs: Seq<DLogProof>, k: int) -> bool {
        dlog_proof_valid(
            proofs[k],
            xi_com(self.shared.start.others@[k], scheme_coeffs(self.shared.vss_scheme@)),
        )
    }
}

/// The last step, once every peer's proof has arrived (`proofs[k]` from
/// `others[k]`): checks each against `x_j·G` (failing on the first that does
/// not verify) and assembles the keystore.
pub fn keygen_finish(p: KeygenProved, proofs: Vec<DLogProof>) -> (r: Result<Keystore, Error>)
    requires
        p.shared.wf(),
        proofs@.len() == p.shared.start.others@.len(),
    ensures
        (r is Ok) == (forall|k: int| 0 <= k < proofs@.len() ==> #[trigger] p.proof_ok(proofs@, k)),
        r matches Err(e) ==> (exists|k: int|
            0 <= k < proofs@.len() && e == (Error::DishonestPeer {
                peer: p.shared.start.others@[k],
            }) && !p.proof_ok(proofs@, k) && (forall|k2: int|
                0 <= k2 < k ==> #[trigger] p.proof_ok(proofs@, k2))),
        forall|polys: Seq<Seq<nat>>|
            #[trigger] scheme_commits_to(scheme_coeffs(p.shared.vss_scheme@), polys) && (forall|k: int|
                0 <= k < proofs@.len() ==> honest_proof(
                    #[trigger] proofs@[k],
                    (summed_value(polys, id_value(p.shared.start.others@[k])) % group_order()) as int,
                )) ==> r is Ok,
        r matches Ok(ks) ==> {
            &&& ks.wf()
            &&& ks.i == p.shared.start.i
            &&& ks.ui == p.shared.start.ui_digits
            &&& ks.xi == p.xi
            &&& ks.vss_scheme == p.shared.vss_scheme
            &&& ks.chain_code@ == keygen_chain_code(
                p.shared.start.chain_code,
                p.shared.public_key@,
            )
            &&& ks.aux@.len() == 0
        },
{
    let m = proofs.len();
    let mut k: usize = 0;
    while k < m
        invariant
            p.shared.wf(),
            m == proofs@.len(),
            m == p.shared.start.others@.len(),
            k <= m,
            forall|a: int| 0 <= a < k ==> #[trigger] p.proof_ok(proofs@, a),
        decreases m - k,
    {
        let j = p.shared.start.others[k];
        let xj_g = eval_xi_com(j, p.shared.vss_scheme.as_slice());
        if dlog_verify(&proofs[k], &xj_g).is_err() {
            proof {
                assert(!p.proof_ok(proofs@, k as int));
                assert forall|polys: Seq<Seq<nat>>|
                    #[trigger] scheme_commits_to(scheme_coeffs(p.shared.vss_scheme@), polys) implies !(
                    forall|k2: int|
                        0 <= k2 < proofs@.len() ==> honest_proof(
                            #[trigger] proofs@[k2],
                            (summed_value(polys, id_value(p.shared.start.others@[k2]))
                                % group_order()) as int,
                        )) by {
                    let x = summed_value(polys, id_value(j));
                    let w = (x % group_order()) as int;
                    assert(xj_g@ == gmul(x as int));
                    vstd::arithmetic::div_mod::lemma_mod_twice(x as int, group_order() as int);
                    assert(xj_g@ == gmul(w));
                    if honest_proof(proofs@[k as int], w) {
                        assert(false);
                    }
                }
            }
            return Err(Error::DishonestPeer { peer: j });
        }
        k = k + 1;
    }
    let chain_code: [u8; 32] = match p.shared.start.chain_code {
        Some(c) => c,
        None => {
            let pk = p.shared.public_key.to_bytes();
            let digest = sha512_digest(&pk);
            let mut c = [0u8; 32];
            let mut b: usize = 0;
            while b < 32
                invariant
                    b <= 32,
                    digest@.len() == 64,
                    forall|a: int| 0 <= a < b ==> c@[a] == digest@[a],
                decreases 32 - b,
            {
                c[b] = digest[b];
                b = b + 1;
            }
            proof {
                assert(c@ =~= digest@.take(32));
            }
            c
        },
    };
    let KeygenProved { shared, received: _, xi, proof: _ } = p;
    let KeygenShared { start, vss_scheme, public_key: _, aes_keys: _ } = shared;
    proof {
        assert(crate::collections::strictly_increasing(scheme_players(vss_scheme@)));
        assert forall|q: int| 0 <= q < vss_scheme@.len() implies #[trigger] vss_scheme@[q].coeffs@.len()
            >= 1 by {
            assert(vss_scheme@[q].coeffs@.len() == start.th);
        }
    }
    Ok(Keystore { i: start.i, ui: start.ui_digits, xi, vss_scheme, chain_code, aux: Vec::new() })
}



/// The position of the player at slot `q` among the peers of the player at
/// slot `p`.
pub open spec fn peer_index(p: int, q: int) -> int {
    if q < p {
        q
    } else {
        q - 1
    }
}

/// Honest key generation deals honestly. Let `shs[q]` be the state after
/// `keygen_share` of the player at slot `q`, and `sent[q]` the ciphertexts it
/// sent (`sent[q][k]` to its peer `k`), as `keygen_share` makes them; let
/// every scheme commit to the polynomials `polys`, `polys[q]` being the own
/// polynomial of the player at slot `q`, and let each player receive from
/// each peer just what that peer sent it (`received[q]`). Then every player
/// received honest encryptions for `polys`, so that `keygen_prove` succeeds
/// for each of them.
pub proof fn lemma_honest_keygen_dealing(
    shs: Seq<KeygenShared>,
    sent: Seq<Seq<AEAD>>,
    received: Seq<Seq<AEAD>>,
    polys: Seq<Seq<nat>>,
)
    requires
        shs.len() == polys.len(),
        sent.len() == polys.len(),
        received.len() == polys.len(),
        forall|q: int|
            #![trigger shs[q]]
            0 <= q < shs.len() ==> {
                &&& shs[q].wf()
                &&& shs[q].start.my_pos == q
                &&& shs[q].start.players@ == shs[0].start.players@
                &&& scheme_commits_to(scheme_coeffs(shs[q].vss_scheme@), polys)
                &&& polys[q] == values(shs[q].start.polynomial@)
                &&& sent[q].len() == shs[q].start.others@.len()
                &&& received[q].len() == shs[q].start.others@.len()
                &&& forall|k: int|
                    0 <= k < shs[q].start.others@.len() ==> is_encryption_of(
                        shs[q].aes_keys@[k]@,
                        shs[q].start.shares@[peer_slot(shs[q].start.my_pos, k)]@,
                        #[trigger] sent[q][k],
                    )
                &&& forall|k: int|
                    0 <= k < shs[q].start.others@.len() ==> #[trigger] shs[q].aes_keys@[k]@
                        == gmul(
                        (polys[peer_slot(shs[q].start.my_pos, k)][0] * shs[q].start.ui.value())
                            as int,
                    )
            },
        forall|q: int, k: int|
            0 <= q < shs.len() && 0 <= k < shs[q].start.others@.len() ==> #[trigger] received[q][k]
                == sent[peer_slot(shs[q].start.my_pos, k)][peer_index(
                peer_slot(shs[q].start.my_pos, k),
                q,
            )],
    ensures
        forall|q: int| 0 <= q < shs.len() ==> (#[trigger] shs[q]).honest_encryptions(received[q], polys),
{
    assert forall|q: int| 0 <= q < shs.len() implies (#[trigger] shs[q]).honest_encryptions(
        received[q],
        polys,
    ) by {
        let a = shs[q];
        assert(a.wf());
        assert forall|k: int| 0 <= k < received[q].len() implies #[trigger] a.honest_encryption(
            received[q],
            polys,
            k,
        ) by {
            let p = peer_slot(a.start.my_pos, k);
            let k2 = peer_index(p, q);
            let b = shs[p];
            assert(b.wf());
            assert(received[q][k] == sent[p][k2]);
            assert(peer_slot(b.start.my_pos, k2) == q);
            assert(is_encryption_of(b.aes_keys@[k2]@, b.start.shares@[q]@, sent[p][k2]));
            let share = b.start.shares@[q];
            share.lemma_encoding_read_back();
            assert(a.start.players@[q] == a.start.i);
            assert(share.value() == poly_eval(id_value(a.start.i), values(b.start.polynomial@))
                % group_order());
            vstd::arithmetic::div_mod::lemma_mod_twice(
                poly_eval(id_value(a.start.i), values(b.start.polynomial@)) as int,
                group_order() as int,
            );
            assert(a.aes_keys@[k]@ == gmul((polys[p][0] * a.start.ui.value()) as int));
            assert(b.aes_keys@[k2]@ == gmul((polys[q][0] * b.start.ui.value()) as int));
            assert(polys[q][0] == a.start.ui.value());
            assert(polys[p][0] == b.start.ui.value());
            assert(polys[p][0] * a.start.ui.value() == a.start.ui.value() * polys[p][0])
                by (nonlinear_arith);
            assert(is_encryption_of(a.aes_keys@[k]@, share@, received[q][k]));
        }
        assert(scheme_commits_to(scheme_coeffs(a.vss_scheme@), polys));
    }
}


/// Honest key generation proves honestly. Let `ps[q]` be the state after
/// `keygen_prove` of the player at slot `q`, all with the same players and
/// threshold, each having received, for the polynomials `polys` (`polys[q]`
/// the own polynomial of the player at slot `q`), its peers' polynomials at
/// its id, as `keygen_prove` gives them for honest encryptions; and let each
/// player receive from each peer just that peer's proof (`proofs[q]`). Then
/// every player's share is `F(i) mod l`, for `F` the sum of `polys`, and
/// every proof a player receives is an honest proof for its sender's share,
/// so that `keygen_finish` succeeds for each of them.
pub proof fn lemma_honest_keygen_proofs(
    ps: Seq<KeygenProved>,
    proofs: Seq<Seq<DLogProof>>,
    polys: Seq<Seq<nat>>,
)
    requires
        ps.len() == polys.len(),
        proofs.len() == polys.len(),
        ps.len() == ps[0].shared.start.players@.len(),
        forall|q: int|
            #![trigger ps[q]]
            0 <= q < ps.len() ==> {
                &&& ps[q].shared.wf()
                &&& ps[q].shared.start.my_pos == q
                &&& ps[q].shared.start.players@ == ps[0].shared.start.players@
                &&& ps[q].shared.start.th == ps[0].shared.start.th
                &&& polys[q] == values(ps[q].shared.start.polynomial@)
                &&& ps[q].received@.len() == ps[q].shared.start.others@.len()
                &&& forall|k: int|
                    0 <= k < ps[q].received@.len() ==> #[trigger] ps[q].received@[k].value()
                        == poly_eval(
                        id_value(ps[q].shared.start.i),
                        polys[peer_slot(ps[q].shared.start.my_pos, k)],
                    ) % group_order()
                &&& ps[q].xi.value() == (ps[q].shared.start.shares@[q].value() + nat_sum(
                    values(ps[q].received@),
                )) % group_order()
                &&& honest_proof(ps[q].proof, ps[q].xi.value() as int)
                &&& proofs[q].len() == ps[q].shared.start.others@.len()
            },
        forall|q: int, k: int|
            0 <= q < ps.len() && 0 <= k < proofs[q].len() ==> #[trigger] proofs[q][k]
                == ps[peer_slot(ps[q].shared.start.my_pos, k)].proof,
    ensures
        forall|p: int|
            0 <= p < ps.len() ==> (#[trigger] ps[p]).xi.value() == summed_value(
                polys,
                id_value(ps[p].shared.start.i),
            ) % group_order(),
        forall|q: int, k: int|
            0 <= q < ps.len() && 0 <= k < proofs[q].len() ==> honest_proof(
                #[trigger] proofs[q][k],
                (summed_value(polys, id_value(ps[q].shared.start.others@[k])) % group_order())
                    as int,
            ),
{
    if ps.len() > 0 {
        let th = ps[0].shared.start.th as nat;
        assert(ps[0].shared.wf());
        assert forall|q: int| 0 <= q < polys.len() implies #[trigger] polys[q].len() == th by {
            assert(ps[q].shared.wf());
        }
        assert forall|p: int| 0 <= p < ps.len() implies (#[trigger] ps[p]).xi.value() == summed_value(
            polys,
            id_value(ps[p].shared.start.i),
        ) % group_order() by {
            assert(ps[p].shared.wf());
            lemma_keygen_share_on_summed_polynomial(ps[p], polys);
            lemma_summed_polynomial(polys, th, id_value(ps[p].shared.start.i));
        }
        assert forall|q: int, k: int| 0 <= q < ps.len() && 0 <= k < proofs[q].len() implies honest_proof(
            #[trigger] proofs[q][k],
            (summed_value(polys, id_value(ps[q].shared.start.others@[k])) % group_order()) as int,
        ) by {
            let a = ps[q];
            assert(a.shared.wf());
            let p = peer_slot(a.shared.start.my_pos, k);
            let b = ps[p];
            assert(b.shared.wf());
            assert(a.shared.start.others@[k] == a.shared.start.players@[p]);
            assert(b.shared.start.i == b.shared.start.players@[p]);
            assert(b.xi.value() == summed_value(polys, id_value(b.shared.start.i)) % group_order());
        }
    }
}

/// A party's final share is the summed polynomial at its id. Let `polys[q]`
/// hold the coefficients of the polynomial of the player at slot `q` (this
/// party's own at its slot), and let each share it received be its sender's
/// polynomial at this party's id. Then `x_i` is `F(i)`, for `F` the
/// coefficient-wise sum of all the polynomials.
pub proof fn lemma_keygen_share_on_summed_polynomial(p: KeygenProved, polys: Seq<Seq<nat>>)
    requires
        p.shared.wf(),
        polys.len() == p.shared.start.players@.len(),
        forall|q: int| 0 <= q < polys.len() ==> #[trigger] polys[q].len() == p.shared.start.th,
        polys[p.shared.start.my_pos as int] == values(p.shared.start.polynomial@),
        p.received@.len() == p.shared.start.others@.len(),
        forall|k: int|
            0 <= k < p.received@.len() ==> #[trigger] p.received@[k].value() == poly_eval(
                id_value(p.shared.start.i),
                polys[peer_slot(p.shared.start.my_pos, k)],
            ) % group_order(),
        p.xi.value() == (p.shared.start.shares@[p.shared.start.my_pos as int].value() + nat_sum(
            values(p.received@),
        )) % group_order(),
    ensures
        p.xi.value() == poly_eval(
            id_value(p.shared.start.i),
            column_sums(polys, p.shared.start.th as nat),
        ) % group_order(),
{
    let st = p.shared.start;
    let l = group_order() as int;
    let x = id_value(st.i);
    let mp = st.my_pos as int;
    let evals = Seq::new(polys.len(), |q: int| poly_eval(x, polys[q]));
    lemma_summed_polynomial(polys, st.th as nat, x);
    lemma_nat_sum_remove(evals, mp);
    let rv = values(p.received@);
    let er = evals.remove(mp);
    assert forall|k: int| 0 <= k < rv.len() implies #[trigger] rv[k] % group_order() == er[k]
        % group_order() by {
        assert(er[k] == evals[peer_slot(st.my_pos, k)]);
        lemma_small_mod(rv[k], group_order());
    }
    lemma_nat_sum_mod(rv, er);
    let own = st.shares@[mp].value();
    assert(own == evals[mp] % group_order());
    lemma_small_mod(own, group_order());
    lemma_add_mod_noop(own as int, nat_sum(rv) as int, l);
    lemma_add_mod_noop(evals[mp] as int, nat_sum(er) as int, l);
}


/// Any `th` shares carry the key (Shamir). Let `polys[q]` hold the `th`
/// coefficients of each player's polynomial, and `xs[k]` the share of player
/// `t[k]`: the summed polynomial at its id, which is every party's `x_i` by
/// `lemma_keygen_share_on_summed_polynomial`. Then over any `t` of at least
/// `th` distinct players whose Lagrange denominators have inverses, the
/// Lagrange-weighted shares add up to the secret, the sum of the
/// contributions `u_q`, modulo the group order.
pub proof fn lemma_shares_reconstruct_secret(
    polys: Seq<Seq<nat>>,
    th: nat,
    t: Seq<usize>,
    xs: Seq<nat>,
)
    requires
        th >= 1,
        forall|q: int| 0 <= q < polys.len() ==> #[trigger] polys[q].len() == th,
        crate::collections::strictly_increasing(t),
        t.len() >= th,
        forall|k: int| 0 <= k < t.len() ==> has_inverse(#[trigger] lagrange_den(t[k], t)),
        xs.len() == t.len(),
        forall|k: int|
            0 <= k < t.len() ==> #[trigger] xs[k] == poly_eval(
                id_value(t[k]),
                column_sums(polys, th),
            ) % group_order(),
    ensures
        nat_sum(Seq::new(t.len(), |k: int| lagrange_coefficient(t[k], t) * xs[k]))
            % group_order() == nat_sum(column(polys, 0)) % group_order(),
{
    let l = group_order() as int;
    let c = column_sums(polys, th);
    lemma_summed_polynomial(polys, th, 0);
    lemma_lagrange_reconstructs(c, t);
    let ours = Seq::new(t.len(), |k: int| lagrange_coefficient(t[k], t) * xs[k]);
    let full = Seq::new(
        t.len(),
        |k: int| lagrange_coefficient(t[k], t) * poly_eval(id_value(t[k]), c),
    );
    assert forall|k: int| 0 <= k < t.len() implies #[trigger] ours[k] % group_order() == full[k]
        % group_order() by {
        vstd::arithmetic::div_mod::lemma_mul_mod_noop_right(
            lagrange_coefficient(t[k], t) as int,
            poly_eval(id_value(t[k]), c) as int,
            l,
        );
    }
    lemma_nat_sum_mod(ours, full);
}



/// Any `th` shares carry the secret and the public key: where the public
/// key is the secret of the polynomials `polys` times `G` (as `keygen_share`
/// and `Keystore::public_key` give it for commitments to `polys`), the
/// Lagrange-weighted shares of any `t` as in `lemma_shares_reconstruct_secret`
/// add up to the secret modulo the group order, and that sum times `G` is
/// the public key.
pub proof fn lemma_shares_reconstruct_public_key(
    polys: Seq<Seq<nat>>,
    th: nat,
    t: Seq<usize>,
    xs: Seq<nat>,
    pk: Seq<u8>,
)
    requires
        th >= 1,
        forall|q: int| 0 <= q < polys.len() ==> #[trigger] polys[q].len() == th,
        crate::collections::strictly_increasing(t),
        t.len() >= th,
        forall|k: int| 0 <= k < t.len() ==> has_inverse(#[trigger] lagrange_den(t[k], t)),
        xs.len() == t.len(),
        forall|k: int|
            0 <= k < t.len() ==> #[trigger] xs[k] == summed_value(polys, id_value(t[k]))
                % group_order(),
        pk == gmul(nat_sum(column(polys, 0)) as int),
    ensures
        nat_sum(Seq::new(t.len(), |k: int| lagrange_coefficient(t[k], t) * xs[k]))
            % group_order() == nat_sum(column(polys, 0)) % group_order(),
        gmul(nat_sum(Seq::new(t.len(), |k: int| lagrange_coefficient(t[k], t) * xs[k])) as int)
            == pk,
{
    assert forall|k: int| 0 <= k < t.len() implies #[trigger] xs[k] == poly_eval(
        id_value(t[k]),
        column_sums(polys, th),
    ) % group_order() by {
        lemma_summed_polynomial(polys, th, id_value(t[k]));
    }
    lemma_shares_reconstruct_secret(polys, th, t, xs);
}

/// The public key of a scheme is the sum, from the identity and in order, of
/// its constant-term commitments.
proof fn lemma_public_key_sums_constant_terms(coms: Seq<Seq<Seq<u8>>>)
    ensures
        scheme_public_key(coms) == point_sum(
            identity_encoding(),
            Seq::new(coms.len(), |q: int| coms[q][0]),
        ),
    decreases coms.len(),
{
    if coms.len() > 0 {
        lemma_public_key_sums_constant_terms(coms.drop_last());
        assert(Seq::new(coms.len(), |q: int| coms[q][0]).drop_last() =~= Seq::new(
            coms.drop_last().len(),
            |q: int| coms.drop_last()[q][0],
        ));
    }
}

/// All honest parties hold the same commitments and public key. Let
/// `starts[q]` be the first step of the player at slot `q`. Where a party
/// received every peer's own commitments, its scheme lists those of
/// `starts`, whichever party it is, and commits to their polynomials; its
/// public key is the sum, in the players' order, of their constant terms,
/// which are the `u_q·G`.
pub proof fn lemma_keygen_parties_agree(starts: Seq<KeygenStart>, sh: KeygenShared)
    requires
        sh.wf(),
        starts.len() == sh.start.players@.len(),
        forall|q: int| 0 <= q < starts.len() ==> #[trigger] starts[q].wf(),
        forall|q: int|
            0 <= q < starts.len() ==> #[trigger] sh.vss_scheme@[q].coeffs@ == starts[q].commitments@,
    ensures
        scheme_coeffs(sh.vss_scheme@) == Seq::new(
            starts.len(),
            |q: int| encodings(starts[q].commitments@),
        ),
        sh.public_key@ == scheme_public_key(
            Seq::new(starts.len(), |q: int| encodings(starts[q].commitments@)),
        ),
        forall|q: int|
            0 <= q < starts.len() ==> #[trigger] encodings(starts[q].commitments@)[0]
                == basepoint_mul(starts[q].ui@),
        sh.public_key@ == point_sum(
            identity_encoding(),
            Seq::new(starts.len(), |q: int| basepoint_mul(starts[q].ui@)),
        ),
        scheme_commits_to(
            scheme_coeffs(sh.vss_scheme@),
            Seq::new(starts.len(), |q: int| values(starts[q].polynomial@)),
        ),
{
    let target = Seq::new(starts.len(), |q: int| encodings(starts[q].commitments@));
    assert(scheme_coeffs(sh.vss_scheme@) =~= target);
    let polys = Seq::new(starts.len(), |q: int| values(starts[q].polynomial@));
    assert forall|q: int| 0 <= q < polys.len() implies #[trigger] commits_to(
        scheme_coeffs(sh.vss_scheme@)[q],
        polys[q],
    ) by {
        assert(starts[q].wf());
    }
    lemma_public_key_sums_constant_terms(target);
    assert forall|q: int| 0 <= q < starts.len() implies #[trigger] encodings(
        starts[q].commitments@,
    )[0] == basepoint_mul(starts[q].ui@) by {
        let st = starts[q];
        assert(st.wf());
        assert(1 <= st.th);
        assert(st.commitments@[0]@ == basepoint_mul(st.polynomial@[0]@));
        assert(st.polynomial@[0] == st.ui);
    }
    assert(Seq::new(target.len(), |q: int| target[q][0]) =~= Seq::new(
        starts.len(),
        |q: int| basepoint_mul(starts[q].ui@),
    ));
}

} // verus!
