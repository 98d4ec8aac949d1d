//! Sparkle threshold EdDSA, signing a batch of messages in three rounds:
//! commit to a nonce point, reveal it, answer the challenge.
//!
//! Each round is a function from the session state and what the peers sent
//! to the next state and what to send; the caller moves the messages.
use crate::collections::{position_of, remove_at, sorted_ids, strictly_increasing};
use crate::curve::{
    gmul, lemma_bytes_mod_order_reads_whole,
    basepoint_mul, bytes_mod_order, group_order, identity_encoding, scalar_enc, subgroup_add,
    subgroup_mul, Point, Scalar,
};
use crate::encoding::{concat, le_nat, u64_le_digits, u64_to_le_bytes};
use crate::error::Error;
use crate::hash::{sha512, sha512_digest};
use crate::keystore::{
    scheme_coeffs, scheme_players, scheme_public_key, Keystore, PlayerCommitments,
};
use crate::aes::bytes_eq;
use crate::polynomial::{
    commits_to, eval_xi_com, id_value, lagrange_coefficient, lagrange_den, lagrange_lambda,
    lemma_summed_polynomial, poly_eval, scheme_commits_to, summed_value, xi_com,
};
use crate::keygen::{lemma_shares_reconstruct_secret, peer_slot};
use crate::curve::has_inverse;
use crate::sums::{
    column, column_sums, lemma_nat_sum_mod, lemma_nat_sum_pointwise, lemma_nat_sum_remove,
    lemma_nat_sum_scale, nat_sum,
};
use vstd::arithmetic::div_mod::{lemma_add_mod_noop, lemma_mul_mod_noop_left, lemma_small_mod};
use std::collections::HashSet;
use vstd::prelude::*;

verus! {

/// An EdDSA signature `(R, s)`.
#[allow(non_snake_case)]
#[derive(Clone, Copy, Debug, PartialEq, Eq)]
pub struct Signature {
    pub R: Point,
    pub s: Scalar,
}

/// The EdDSA challenge `H(R || pk || m)`, the SHA-512 digest read as a scalar.
pub open spec fn eddsa_challenge(r: Seq<u8>, pk: Seq<u8>, m: Seq<u8>) -> nat {
    bytes_mod_order(sha512(r + pk + m))
}

/// The EdDSA verification equation `s·G == R + c·pk`, on encodings.
pub open spec fn eddsa_valid(r: Seq<u8>, s: Seq<u8>, pk: Seq<u8>, m: Seq<u8>) -> bool {
    basepoint_mul(s) == subgroup_add(r, subgroup_mul(pk, scalar_enc(eddsa_challenge(r, pk, m))))
}

/// The EdDSA verification equation holds for `sig` on `m` under `pk`.
pub open spec fn signature_valid(sig: Signature, pk: Seq<u8>, m: Seq<u8>) -> bool {
    eddsa_valid(sig.R@, sig.s@, pk, m)
}

/// The EdDSA challenge is RFC 8032's: for the 64-byte SHA-512 digest of
/// `R || A || M` (the nonce point, then the public key, then the message),
/// the little-endian number it holds, all 64 bytes of it, modulo the group
/// order; so a signature is valid exactly when `s·G == R + c·A` for that `c`.
pub proof fn lemma_eddsa_challenge_is_rfc8032(r: Seq<u8>, s: Seq<u8>, pk: Seq<u8>, m: Seq<u8>)
    requires
        sha512(r + pk + m).len() == 64,
    ensures
        eddsa_challenge(r, pk, m) == le_nat(sha512(r + pk + m)) % group_order(),
        eddsa_valid(r, s, pk, m) <==> basepoint_mul(s) == subgroup_add(
            r,
            subgroup_mul(pk, scalar_enc(le_nat(sha512(r + pk + m)) % group_order())),
        ),
{
    lemma_bytes_mod_order_reads_whole(sha512(r + pk + m));
}

/// The challenge of a signature: the whole 64-byte SHA-512 digest of
/// `R || pk || m` (`R` first, then the public key, then the message) read as
/// a little-endian number modulo the group order.
fn eddsa_challenge_of(r: &Point, pk: &Point, m: &[u8]) -> (c: Scalar)
    ensures
        c.value() == eddsa_challenge(r@, pk@, m@),
        sha512(r@ + pk@ + m@).len() == 64,
        c.value() == le_nat(sha512(r@ + pk@ + m@)) % group_order(),
        c@ == scalar_enc(c.value()),
{
    let rb = r.to_bytes();
    let pkb = pk.to_bytes();
    let a = concat(&rb, &pkb);
    let b = concat(a.as_slice(), m);
    let digest = sha512_digest(b.as_slice());
    Scalar::from_bytes_mod_order(digest.as_slice())
}

impl Signature {
    /// Verifies the signature on `m` under the public key `pk`: succeeds
    /// exactly when `s·G == R + c·pk`.
    pub fn verify(&self, pk: &Point, m: &[u8]) -> (r: Result<(), Error>)
        ensures
            r is Ok <==> signature_valid(*self, pk@, m@),
            r is Ok <==> basepoint_mul(self.s@) == subgroup_add(
                self.R@,
                subgroup_mul(
                    pk@,
                    scalar_enc(le_nat(sha512(self.R@ + pk@ + m@)) % group_order()),
                ),
            ),
            r matches Err(e) ==> e == Error::EdDSAVerifyFailed,
            forall|rho: int, kappa: int|
                #![trigger gmul(rho), gmul(kappa)]
                self.R@ == gmul(rho) && pk@ == gmul(kappa) && (self.s.value() as int) % (
                group_order() as int) == (rho + kappa * eddsa_challenge(self.R@, pk@, m@)) % (
                group_order() as int) ==> r is Ok,
    {
        let c = eddsa_challenge_of(&self.R, pk, m);
        let lhs = Point::base_mul(&self.s);
        let cpk = pk.mul(&c);
        let rhs = self.R.add(&cpk);
        proof {
            assert forall|rho: int, kappa: int|
                #![trigger gmul(rho), gmul(kappa)]
                self.R@ == gmul(rho) && pk@ == gmul(kappa) && (self.s.value() as int) % (
                group_order() as int) == (rho + kappa * eddsa_challenge(self.R@, pk@, m@)) % (
                group_order() as int) implies lhs@ == rhs@ by {
                assert(cpk@ == gmul(kappa * c.value()));
                assert(rhs@ == gmul(rho + kappa * c.value()));
            }
        }
        if lhs.equals(&rhs) {
            Ok(())
        } else {
            Err(Error::EdDSAVerifyFailed)
        }
    }

    /// The signature as `(R, s, v)`: the encodings of `R` and `s`, and a
    /// recovery id of `0`.
    pub fn to_rsv(&self) -> (r: (Vec<u8>, Vec<u8>, u8))
        ensures
            r.0@ == self.R@,
            r.1@ == self.s@,
            r.2 == 0,
    {
        let rb = self.R.to_bytes();
        let sb = self.s.to_bytes();
        (crate::encoding::copy_bytes(&rb), crate::encoding::copy_bytes(&sb), 0)
    }
}


/// The signer ids, each as eight little-endian bytes, one after the other.
pub open spec fn ids_le_bytes(ids: Seq<usize>) -> Seq<u8>
    decreases ids.len(),
{
    if ids.len() == 0 {
        Seq::empty()
    } else {
        ids_le_bytes(ids.drop_last()) + u64_le_digits(ids.last() as u64)
    }
}

/// The signer list `S` is the ids in order, each taking eight bytes that
/// hold it as a little-endian number.
pub proof fn lemma_ids_le_bytes(ids: Seq<usize>)
    ensures
        ids_le_bytes(ids).len() == 8 * ids.len(),
        forall|k: int|
            0 <= k < ids.len() ==> le_nat(
                #[trigger] ids_le_bytes(ids).subrange(8 * k, 8 * k + 8),
            ) == ids[k] as u64,
    decreases ids.len(),
{
    if ids.len() > 0 {
        let front = ids.drop_last();
        lemma_ids_le_bytes(front);
        let b = ids_le_bytes(ids);
        let fb = ids_le_bytes(front);
        let last = u64_le_digits(ids.last() as u64);
        crate::encoding::lemma_u64_le_digits(ids.last() as u64);
        assert forall|k: int| 0 <= k < ids.len() implies le_nat(
            #[trigger] b.subrange(8 * k, 8 * k + 8),
        ) == ids[k] as u64 by {
            if k < ids.len() - 1 {
                assert(b.subrange(8 * k, 8 * k + 8) =~= fb.subrange(8 * k, 8 * k + 8));
                assert(front[k] == ids[k]);
            } else {
                assert(b.subrange(8 * k, 8 * k + 8) =~= last);
            }
        }
    }
}

/// Encodes the ids, each as eight little-endian bytes.
pub fn encode_ids(ids: &[usize]) -> (r: Vec<u8>)
    ensures
        r@ == ids_le_bytes(ids@),
        r@.len() == 8 * ids@.len(),
        forall|k: int|
            0 <= k < ids@.len() ==> le_nat(#[trigger] r@.subrange(8 * k, 8 * k + 8))
                == ids@[k] as u64,
{
    proof {
        lemma_ids_le_bytes(ids@);
    }
    let mut r: Vec<u8> = Vec::new();
    let mut k: usize = 0;
    proof {
        assert(ids@.take(0) =~= Seq::<usize>::empty());
    }
    while k < ids.len()
        invariant
            k <= ids@.len(),
            r@ == ids_le_bytes(ids@.take(k as int)),
        decreases ids@.len() - k,
    {
        let d = u64_to_le_bytes(ids[k] as u64);
        r = concat(r.as_slice(), &d);
        proof {
            assert(ids@.take(k + 1).drop_last() =~= ids@.take(k as int));
        }
        k = k + 1;
    }
    proof {
        assert(ids@.take(ids@.len() as int) =~= ids@);
    }
    r
}

/// The commitment `H(m || S || R_i)` to a nonce point.
pub open spec fn nonce_commitment(m: Seq<u8>, s: Seq<u8>, r: Seq<u8>) -> Seq<u8> {
    sha512(m + s + r)
}

/// The nonce commitment hashes the message first, then the signer list,
/// then the nonce point: it is the SHA-512 digest of `m || S || R`.
pub proof fn lemma_nonce_commitment_order(m: Seq<u8>, s: Seq<u8>, r: Seq<u8>)
    ensures
        nonce_commitment(m, s, r) == sha512(m + s + r),
        nonce_commitment(m, s, r) == sha512(m + (s + r)),
{
    assert(m + s + r =~= m + (s + r));
}

fn commit_nonce(m: &[u8], s: &[u8], r: &Point) -> (c: Vec<u8>)
    ensures
        c@ == nonce_commitment(m@, s@, r@),
        c@ == sha512(m@ + s@ + r@),
        c@.len() == 64,
{
    let ms = concat(m, s);
    let rb = r.to_bytes();
    let msr = concat(ms.as_slice(), &rb);
    sha512_digest(msr.as_slice())
}

/// `child` is `vss` with the first commitment of its first player moved by
/// `t·G`: how a tweak of the secret by `t` shows in the commitments.
pub open spec fn is_tweaked_scheme(
    child: Seq<PlayerCommitments>,
    vss: Seq<PlayerCommitments>,
    t: Seq<u8>,
) -> bool {
    &&& vss.len() >= 1
    &&& scheme_players(child) == scheme_players(vss)
    &&& scheme_coeffs(child) == scheme_coeffs(vss).update(
        0,
        scheme_coeffs(vss)[0].update(0, subgroup_add(scheme_coeffs(vss)[0][0], basepoint_mul(t))),
    )
}

/// A copy of a list of points.
pub fn copy_points(v: &[Point]) -> (r: Vec<Point>)
    ensures
        r@ == v@,
{
    let mut r: Vec<Point> = Vec::new();
    let mut k: usize = 0;
    while k < v.len()
        invariant
            k <= v@.len(),
            r@ == v@.take(k as int),
        decreases v@.len() - k,
    {
        r.push(v[k]);
        k = k + 1;
        proof {
            assert(r@ =~= v@.take(k as int));
        }
    }
    proof {
        assert(v@.take(v@.len() as int) =~= v@);
    }
    r
}

/// The polynomials with the secret moved by `t`: the first player's constant
/// term plus `t`.
pub open spec fn tweak_polys(polys: Seq<Seq<nat>>, t: nat) -> Seq<Seq<nat>> {
    polys.update(0, polys[0].update(0, polys[0][0] + t))
}

/// The scheme of a task whose secret is tweaked by `t`.
pub fn tweak_scheme(vss: &[PlayerCommitments], t: &Scalar) -> (r: Vec<PlayerCommitments>)
    requires
        vss@.len() >= 1,
        vss@[0].coeffs@.len() >= 1,
    ensures
        is_tweaked_scheme(r@, vss@, t@),
        forall|polys: Seq<Seq<nat>>|
            #[trigger] scheme_commits_to(scheme_coeffs(vss@), polys) ==> scheme_commits_to(
                scheme_coeffs(r@),
                tweak_polys(polys, t.value()),
            ),
{
    let mut coeffs = copy_points(vss[0].coeffs.as_slice());
    let moved = coeffs[0].add_base_mul(t);
    coeffs.set(0, moved);
    let first = PlayerCommitments { player: vss[0].player, coeffs };
    let mut r: Vec<PlayerCommitments> = Vec::new();
    r.push(first);
    let mut k: usize = 1;
    while k < vss.len()
        invariant
            1 <= k <= vss@.len(),
            r@.len() == k,
            r@[0] == first,
            forall|a: int| 1 <= a < k ==> #[trigger] r@[a].player == vss@[a].player,
            forall|a: int| 1 <= a < k ==> #[trigger] r@[a].coeffs@ == vss@[a].coeffs@,
        decreases vss@.len() - k,
    {
        let c = copy_points(vss[k].coeffs.as_slice());
        assert(c@ == vss@[k as int].coeffs@);
        let e = PlayerCommitments { player: vss[k].player, coeffs: c };
        let ghost prev = r@;
        r.push(e);
        proof {
            assert(r@ == prev.push(e));
            assert(r@[k as int].coeffs@ == vss@[k as int].coeffs@);
            assert forall|a: int| 1 <= a < k implies #[trigger] r@[a].coeffs@ == vss@[a].coeffs@ by {
                assert(r@[a] == prev[a]);
            }
        }
        k = k + 1;
    }
    proof {
        assert(scheme_players(r@) =~= scheme_players(vss@));
        let target = scheme_coeffs(vss@).update(
            0,
            scheme_coeffs(vss@)[0].update(0, subgroup_add(scheme_coeffs(vss@)[0][0], basepoint_mul(t@))),
        );
        assert(scheme_coeffs(r@)[0] =~= target[0]);
        assert(scheme_coeffs(r@) =~= target);
        assert forall|polys: Seq<Seq<nat>>| #[trigger] scheme_commits_to(scheme_coeffs(vss@), polys)
            implies scheme_commits_to(scheme_coeffs(r@), tweak_polys(polys, t.value())) by {
            let tp = tweak_polys(polys, t.value());
            assert(commits_to(scheme_coeffs(vss@)[0], polys[0]));
            assert(scheme_coeffs(vss@)[0][0] == gmul(polys[0][0] as int));
            assert(moved@ == gmul(polys[0][0] + t.value() as int));
            assert forall|q: int| 0 <= q < tp.len() implies #[trigger] commits_to(
                scheme_coeffs(r@)[q],
                tp[q],
            ) by {
                assert(commits_to(scheme_coeffs(vss@)[q], polys[q]));
                if q == 0 {
                    assert forall|k: int| 0 <= k < tp[0].len() implies #[trigger] scheme_coeffs(r@)[0][k]
                        == gmul(tp[0][k] as int) by {
                        assert(scheme_coeffs(vss@)[0][k] == gmul(polys[0][k] as int));
                    }
                }
            }
        }
    }
    r
}

/// The state of one party in a signing session, filled in round by round.
pub struct SignSession {
    /// This party's id.
    pub my_id: usize,
    /// The signers, in increasing order.
    pub signers: Vec<usize>,
    /// The position of this party among the signers.
    pub my_pos: usize,
    /// The other signers, in increasing order.
    pub others: Vec<usize>,
    /// The signer ids as bytes, bound into each nonce commitment.
    pub signer_bytes: Vec<u8>,
    /// The messages, one per task.
    pub msgs: Vec<Vec<u8>>,
    /// Per task: the public key tweaked by the task's offset.
    pub child_pks: Vec<Point>,
    /// Per task: the commitments tweaked by the task's offset.
    pub child_schemes: Vec<Vec<PlayerCommitments>>,
    /// Per task: this party's share tweaked by the task's offset.
    pub child_xis: Vec<Scalar>,
    /// Per task: this party's secret nonce `r_i`.
    pub nonces: Vec<Scalar>,
    /// Per task: this party's nonce point `R_i = r_i·G`.
    pub nonce_points: Vec<Point>,
    /// Per task: this party's commitment to `R_i`.
    pub nonce_commitments: Vec<Vec<u8>>,
    /// By peer (in the order of `others`), then by task: the commitments the
    /// peers sent.
    pub peer_commitments: Vec<Vec<Vec<u8>>>,
    /// By peer, then by task: the nonce points the peers revealed.
    pub peer_points: Vec<Vec<Point>>,
    /// Per task: the aggregated nonce point `R`.
    pub aggregate_points: Vec<Point>,
    /// Per task: the challenge `c = H(R || pk || m)`.
    pub challenges: Vec<Scalar>,
    /// Per task: this party's partial signature `z_i`.
    pub responses: Vec<Scalar>,
}


/// Per task, from the peers' rows: the values of column `t`.
pub open spec fn column_values(m: Seq<Vec<Scalar>>, t: int) -> Seq<nat> {
    Seq::new(m.len(), |k: int| m[k]@[t].value())
}

/// `start + p_0 + p_1 + ...`, added in order.
pub open spec fn point_sum(start: Seq<u8>, pts: Seq<Seq<u8>>) -> Seq<u8>
    decreases pts.len(),
{
    if pts.len() == 0 {
        start
    } else {
        subgroup_add(point_sum(start, pts.drop_last()), pts.last())
    }
}

impl SignSession {
    /// The number of tasks (messages) of the session.
    pub open spec fn tasks(&self) -> nat {
        self.msgs@.len()
    }

    /// The state after the first round: the session's parameters and this
    /// party's nonces, their points and the commitments to them.
    pub open spec fn committed(&self) -> bool {
        let n = self.msgs@.len();
        &&& n >= 1
        &&& strictly_increasing(self.signers@)
        &&& self.signers@.contains(self.my_id)
        &&& self.my_pos < self.signers@.len()
        &&& self.signers@[self.my_pos as int] == self.my_id
        &&& self.others@ == self.signers@.remove(self.my_pos as int)
        &&& self.signer_bytes@ == ids_le_bytes(self.signers@)
        &&& self.child_pks@.len() == n
        &&& self.child_schemes@.len() == n
        &&& self.child_xis@.len() == n
        &&& self.nonces@.len() == n
        &&& self.nonce_points@.len() == n
        &&& self.nonce_commitments@.len() == n
        &&& forall|t: int|
            0 <= t < n ==> #[trigger] self.nonce_points@[t]@ == basepoint_mul(self.nonces@[t]@)
        &&& forall|t: int|
            0 <= t < n ==> #[trigger] self.nonce_points@[t]@ == gmul(
                self.nonces@[t].value() as int,
            )
        &&& forall|t: int|
            0 <= t < n ==> #[trigger] self.nonce_commitments@[t]@ == nonce_commitment(
                self.msgs@[t]@,
                self.signer_bytes@,
                self.nonce_points@[t]@,
            )
    }

    /// Every signer's nonce point for task `t`, in the signers' order: this
    /// party's own at its position, the peers' (`pts[k]` from `others[k]`)
    /// elsewhere.
    pub open spec fn all_points(&self, pts: Seq<Vec<Point>>, t: int) -> Seq<Seq<u8>> {
        Seq::new(
            self.signers@.len(),
            |q: int|
                if q == self.my_pos {
                    self.nonce_points@[t]@
                } else if q < self.my_pos {
                    pts[q]@[t]@
                } else {
                    pts[q - 1]@[t]@
                },
        )
    }

    /// Peer row `k` of what was received holds one entry per task.
    pub open spec fn rows_fit<T>(&self, rows: Seq<Vec<T>>) -> bool {
        &&& rows.len() == self.others@.len()
        &&& forall|k: int| 0 <= k < rows.len() ==> #[trigger] rows[k]@.len() == self.msgs@.len()
    }

    /// The commitment that peer `k` sent for task `t` matches the nonce point
    /// it revealed.
    pub open spec fn commitment_ok(
        &self,
        coms: Seq<Vec<Vec<u8>>>,
        pts: Seq<Vec<Point>>,
        k: int,
        t: int,
    ) -> bool {
        nonce_commitment(self.msgs@[t]@, self.signer_bytes@, pts[k]@[t]@) == coms[k]@[t]@
    }

    /// The state after the second round: what the peers sent, the aggregated
    /// nonce points, the challenges and this party's partial signatures.
    pub open spec fn responded(&self) -> bool {
        let n = self.msgs@.len();
        &&& self.committed()
        &&& self.rows_fit(self.peer_commitments@)
        &&& self.rows_fit(self.peer_points@)
        &&& self.aggregate_points@.len() == n
        &&& self.challenges@.len() == n
        &&& self.responses@.len() == n
        &&& forall|t: int|
            0 <= t < n ==> #[trigger] self.aggregate_points@[t]@ == point_sum(
                identity_encoding(),
                self.all_points(self.peer_points@, t),
            )
        &&& forall|t: int|
            0 <= t < n ==> #[trigger] self.challenges@[t].value() == le_nat(
                sha512(self.aggregate_points@[t]@ + self.child_pks@[t]@ + self.msgs@[t]@),
            ) % group_order()
        &&& forall|t: int|
            0 <= t < n ==> #[trigger] self.challenges@[t].value() == eddsa_challenge(
                self.aggregate_points@[t]@,
                self.child_pks@[t]@,
                self.msgs@[t]@,
            )
        &&& forall|t: int|
            0 <= t < n ==> #[trigger] self.responses@[t].value() == (self.nonces@[t].value()
                + self.challenges@[t].value() * lagrange_coefficient(self.my_id, self.signers@)
                * self.child_xis@[t].value()) % group_order()
        &&& forall|t: int, vals: Seq<nat>|
            0 <= t < n && #[trigger] commits_to(self.all_points(self.peer_points@, t), vals)
                ==> self.aggregate_points@[t]@ == gmul(nat_sum(vals) as int)
    }

    /// The partial signature of peer `k` for task `t` verifies:
    /// `z_j·G == R_j + (lambda_j·c)·X_j`.
    pub open spec fn partial_ok(&self, zs: Seq<Vec<Scalar>>, k: int, t: int) -> bool {
        basepoint_mul(zs[k]@[t]@) == subgroup_add(
            self.peer_points@[k]@[t]@,
            subgroup_mul(
                xi_com(self.others@[k], scheme_coeffs(self.child_schemes@[t]@)),
                scalar_enc(
                    (lagrange_coefficient(self.others@[k], self.signers@)
                        * self.challenges@[t].value()) % group_order(),
                ),
            ),
        )
    }

    /// Peer `k`'s partial signature for task `t` is honest: the task's scheme
    /// commits to the polynomials `polys`, the peer's nonce point is
    /// `rho·G`, and `z == rho + (lambda_j·c)·x_j` for its share `x_j`, the
    /// summed polynomial at its id.
    pub open spec fn partial_honest(
        &self,
        zs: Seq<Vec<Scalar>>,
        k: int,
        t: int,
        polys: Seq<Seq<nat>>,
        rho: int,
    ) -> bool {
        let l = group_order() as int;
        &&& scheme_commits_to(scheme_coeffs(self.child_schemes@[t]@), polys)
        &&& self.peer_points@[k]@[t]@ == gmul(rho)
        &&& (zs[k]@[t].value() as int) % l == (rho + summed_value(polys, id_value(self.others@[k]))
            * ((lagrange_coefficient(self.others@[k], self.signers@) * self.challenges@[t].value())
            % group_order())) % l
    }

    /// Peer `k`'s partial signature for task `t` is honest for some
    /// polynomials and nonce.
    pub open spec fn partial_honest_for_some(&self, zs: Seq<Vec<Scalar>>, k: int, t: int) -> bool {
        exists|polys: Seq<Seq<nat>>, rho: int| #[trigger] self.partial_honest(zs, k, t, polys, rho)
    }

    /// Every peer's partial signature is honest.
    pub open spec fn partials_honest(&self, zs: Seq<Vec<Scalar>>) -> bool {
        forall|k: int, t: int|
            0 <= k < self.others@.len() && 0 <= t < self.tasks()
                ==> #[trigger] self.partial_honest_for_some(zs, k, t)
    }

    /// The aggregate of task `t` is honest: `R == rho·G`, the task key is
    /// `kappa·G`, and `s == rho + c·kappa`.
    pub open spec fn aggregate_honest(&self, zs: Seq<Vec<Scalar>>, t: int) -> bool {
        exists|rho: int, kappa: int|
            #![trigger gmul(rho), gmul(kappa)]
            self.aggregate_points@[t]@ == gmul(rho) && self.child_pks@[t]@ == gmul(kappa) && (
            self.aggregate_s(zs, t) as int) % (group_order() as int) == (rho + kappa
                * self.challenges@[t].value()) % (group_order() as int)
    }

    /// The value of the aggregated `s` of task `t`: this party's partial
    /// signature plus the peers', modulo the group order.
    pub open spec fn aggregate_s(&self, zs: Seq<Vec<Scalar>>, t: int) -> nat {
        (self.responses@[t].value() + nat_sum(column_values(zs, t))) % group_order()
    }

    /// The aggregated signature of task `t` verifies under the task's key.
    pub open spec fn aggregate_ok(&self, zs: Seq<Vec<Scalar>>, t: int) -> bool {
        eddsa_valid(
            self.aggregate_points@[t]@,
            scalar_enc(self.aggregate_s(zs, t)),
            self.child_pks@[t]@,
            self.msgs@[t]@,
        )
    }
}


/// The first round of signing `msgs` (one task each), each under the key
/// tweaked by its offset, with the given nonces: checks the arguments, derives
/// each task's key, share and commitments, and commits to each nonce point.
/// The caller sends `nonce_commitments` to every other signer.
pub fn sign_begin_with(
    keystore: &Keystore,
    signers: &HashSet<usize>,
    offsets: &[Scalar],
    msgs: Vec<Vec<u8>>,
    nonces: &[Scalar],
) -> (r: Result<SignSession, Error>)
    requires
        keystore.wf(),
        signers@.contains(keystore.i) && msgs@.len() != 0 && offsets@.len() == msgs@.len()
            ==> keystore.vss_scheme@.len() >= 1,
        nonces@.len() == msgs@.len(),
    ensures
        !signers@.contains(keystore.i) ==> r == Err::<SignSession, Error>(Error::NotASigner),
        signers@.contains(keystore.i) && msgs@.len() == 0 ==> r == Err::<SignSession, Error>(
            Error::EmptyBatch,
        ),
        signers@.contains(keystore.i) && msgs@.len() != 0 && offsets@.len() != msgs@.len() ==> r
            == Err::<SignSession, Error>(Error::LenMismatch),
        r is Ok <==> (signers@.contains(keystore.i) && msgs@.len() != 0 && offsets@.len()
            == msgs@.len()),
        r matches Ok(sess) ==> {
            &&& sess.committed()
            &&& sess.my_id == keystore.i
            &&& sess.signers@.to_set() == signers@
            &&& sess.msgs == msgs
            &&& sess.nonces@ == nonces@
            &&& forall|t: int|
                0 <= t < msgs@.len() ==> #[trigger] sess.child_pks@[t]@ == subgroup_add(
                    scheme_public_key(scheme_coeffs(keystore.vss_scheme@)),
                    basepoint_mul(offsets@[t]@),
                )
            &&& forall|t: int|
                0 <= t < msgs@.len() ==> is_tweaked_scheme(
                    #[trigger] sess.child_schemes@[t]@,
                    keystore.vss_scheme@,
                    offsets@[t]@,
                )
            &&& forall|t: int|
                0 <= t < msgs@.len() ==> #[trigger] sess.child_xis@[t].value() == (
                keystore.xi.value() + offsets@[t].value()) % group_order()
            &&& forall|polys: Seq<Seq<nat>>, t: int|
                #![trigger scheme_commits_to(scheme_coeffs(keystore.vss_scheme@), polys), sess.child_pks@[t]]
                0 <= t < msgs@.len() && scheme_commits_to(
                    scheme_coeffs(keystore.vss_scheme@),
                    polys,
                ) ==> sess.child_pks@[t]@ == gmul(
                    nat_sum(column(polys, 0)) + offsets@[t].value() as int,
                ) && scheme_commits_to(
                    scheme_coeffs(sess.child_schemes@[t]@),
                    tweak_polys(polys, offsets@[t].value()),
                )
            &&& sess.peer_commitments@.len() == 0
            &&& sess.peer_points@.len() == 0
            &&& sess.aggregate_points@.len() == 0
            &&& sess.challenges@.len() == 0
            &&& sess.responses@.len() == 0
        },
{
    broadcast use vstd::std_specs::hash::group_hash_axioms;
    let base_pk = keystore.public_key();
    let my_id = keystore.i;
    if !signers.contains(&my_id) {
        return Err(Error::NotASigner);
    }
    let ntask = msgs.len();
    if ntask < 1 {
        return Err(Error::EmptyBatch);
    }
    if offsets.len() != ntask {
        return Err(Error::LenMismatch);
    }
    let sorted = sorted_ids(signers);
    proof {
        assert(sorted@.to_set().contains(my_id));
    }
    let my_pos = match position_of(sorted.as_slice(), my_id) {
        Some(p) => p,
        None => {
            proof {
                assert(sorted@.to_set().contains(my_id) ==> sorted@.contains(my_id));
            }
            return Err(Error::NotASigner);
        },
    };
    let others = remove_at(sorted.as_slice(), my_pos);
    let signer_bytes = encode_ids(sorted.as_slice());
    let mut child_pks: Vec<Point> = Vec::new();
    let mut child_schemes: Vec<Vec<PlayerCommitments>> = Vec::new();
    let mut child_xis: Vec<Scalar> = Vec::new();
    let mut nonce_scalars: Vec<Scalar> = Vec::new();
    let mut nonce_points: Vec<Point> = Vec::new();
    let mut nonce_commitments: Vec<Vec<u8>> = Vec::new();
    let mut t: usize = 0;
    while t < ntask
        invariant
            ntask == msgs@.len(),
            ntask == offsets@.len(),
            ntask == nonces@.len(),
            t <= ntask,
            keystore.wf(),
            keystore.vss_scheme@.len() >= 1,
            base_pk@ == scheme_public_key(scheme_coeffs(keystore.vss_scheme@)),
            child_pks@.len() == t,
            child_schemes@.len() == t,
            child_xis@.len() == t,
            nonce_scalars@.len() == t,
            nonce_points@.len() == t,
            nonce_commitments@.len() == t,
            forall|a: int|
                0 <= a < t ==> #[trigger] child_pks@[a]@ == subgroup_add(
                    base_pk@,
                    basepoint_mul(offsets@[a]@),
                ),
            forall|a: int|
                0 <= a < t ==> is_tweaked_scheme(
                    #[trigger] child_schemes@[a]@,
                    keystore.vss_scheme@,
                    offsets@[a]@,
                ),
            forall|a: int|
                0 <= a < t ==> #[trigger] child_xis@[a].value() == (keystore.xi.value()
                    + offsets@[a].value()) % group_order(),
            forall|a: int| 0 <= a < t ==> #[trigger] nonce_scalars@[a] == nonces@[a],
            forall|polys: Seq<Seq<nat>>|
                #[trigger] scheme_commits_to(scheme_coeffs(keystore.vss_scheme@), polys)
                    ==> base_pk@ == gmul(nat_sum(column(polys, 0)) as int),
            forall|polys: Seq<Seq<nat>>, a: int|
                #![trigger scheme_commits_to(scheme_coeffs(keystore.vss_scheme@), polys), child_pks@[a]]
                0 <= a < t && scheme_commits_to(
                    scheme_coeffs(keystore.vss_scheme@),
                    polys,
                ) ==> child_pks@[a]@ == gmul(nat_sum(column(polys, 0)) + offsets@[a].value() as int)
                    && scheme_commits_to(
                    scheme_coeffs(child_schemes@[a]@),
                    tweak_polys(polys, offsets@[a].value()),
                ),
            forall|a: int|
                0 <= a < t ==> #[trigger] nonce_points@[a]@ == basepoint_mul(nonces@[a]@),
            forall|a: int|
                0 <= a < t ==> #[trigger] nonce_points@[a]@ == gmul(nonces@[a].value() as int),
            forall|a: int|
                0 <= a < t ==> #[trigger] nonce_commitments@[a]@ == nonce_commitment(
                    msgs@[a]@,
                    signer_bytes@,
                    nonce_points@[a]@,
                ),
        decreases ntask - t,
    {
        let tweak = &offsets[t];
        child_pks.push(base_pk.add_base_mul(tweak));
        proof {
            assert(keystore.vss_scheme@[0].coeffs@.len() >= 1);
        }
        child_schemes.push(tweak_scheme(keystore.vss_scheme.as_slice(), tweak));
        child_xis.push(keystore.xi.add(tweak));
        let nonce = nonces[t];
        let point = Point::base_mul(&nonce);
        let com = commit_nonce(msgs[t].as_slice(), signer_bytes.as_slice(), &point);
        nonce_scalars.push(nonce);
        nonce_points.push(point);
        nonce_commitments.push(com);
        t = t + 1;
    }
    proof {
        assert(nonce_scalars@ =~= nonces@);
    }
    Ok(SignSession {
        my_id,
        signers: sorted,
        my_pos,
        others,
        signer_bytes,
        msgs,
        child_pks,
        child_schemes,
        child_xis,
        nonces: nonce_scalars,
        nonce_points,
        nonce_commitments,
        peer_commitments: Vec::new(),
        peer_points: Vec::new(),
        aggregate_points: Vec::new(),
        challenges: Vec::new(),
        responses: Vec::new(),
    })
}

/// The first round of signing, with a fresh random nonce per task.
pub fn sign_begin(
    keystore: &Keystore,
    signers: &HashSet<usize>,
    offsets: &[Scalar],
    msgs: Vec<Vec<u8>>,
) -> (r: Result<SignSession, Error>)
    requires
        keystore.wf(),
        signers@.contains(keystore.i) && msgs@.len() != 0 && offsets@.len() == msgs@.len()
            ==> keystore.vss_scheme@.len() >= 1,
    ensures
        !signers@.contains(keystore.i) ==> r == Err::<SignSession, Error>(Error::NotASigner),
        signers@.contains(keystore.i) && msgs@.len() == 0 ==> r == Err::<SignSession, Error>(
            Error::EmptyBatch,
        ),
        signers@.contains(keystore.i) && msgs@.len() != 0 && offsets@.len() != msgs@.len() ==> r
            == Err::<SignSession, Error>(Error::LenMismatch),
        r is Ok <==> (signers@.contains(keystore.i) && msgs@.len() != 0 && offsets@.len()
            == msgs@.len()),
        r matches Ok(sess) ==> {
            &&& sess.committed()
            &&& sess.my_id == keystore.i
            &&& sess.signers@.to_set() == signers@
            &&& sess.msgs == msgs
            &&& forall|t: int|
                0 <= t < msgs@.len() ==> #[trigger] sess.child_pks@[t]@ == subgroup_add(
                    scheme_public_key(scheme_coeffs(keystore.vss_scheme@)),
                    basepoint_mul(offsets@[t]@),
                )
            &&& forall|t: int|
                0 <= t < msgs@.len() ==> is_tweaked_scheme(
                    #[trigger] sess.child_schemes@[t]@,
                    keystore.vss_scheme@,
                    offsets@[t]@,
                )
            &&& forall|t: int|
                0 <= t < msgs@.len() ==> #[trigger] sess.child_xis@[t].value() == (
                keystore.xi.value() + offsets@[t].value()) % group_order()
            &&& forall|polys: Seq<Seq<nat>>, t: int|
                #![trigger scheme_commits_to(scheme_coeffs(keystore.vss_scheme@), polys), sess.child_pks@[t]]
                0 <= t < msgs@.len() && scheme_commits_to(
                    scheme_coeffs(keystore.vss_scheme@),
                    polys,
                ) ==> sess.child_pks@[t]@ == gmul(
                    nat_sum(column(polys, 0)) + offsets@[t].value() as int,
                ) && scheme_commits_to(
                    scheme_coeffs(sess.child_schemes@[t]@),
                    tweak_polys(polys, offsets@[t].value()),
                )
            &&& sess.peer_commitments@.len() == 0
            &&& sess.peer_points@.len() == 0
            &&& sess.aggregate_points@.len() == 0
            &&& sess.challenges@.len() == 0
            &&& sess.responses@.len() == 0
        },
{
    let mut nonces: Vec<Scalar> = Vec::new();
    let mut t: usize = 0;
    while t < msgs.len()
        invariant
            t <= msgs@.len(),
            nonces@.len() == t,
        decreases msgs@.len() - t,
    {
        nonces.push(Scalar::random());
        t = t + 1;
    }
    sign_begin_with(keystore, signers, offsets, msgs, nonces.as_slice())
}


/// The partial signature `z_i = r_i + c·lambda_i·x_i`.
fn partial_signature(r: &Scalar, c: &Scalar, lambda: &Scalar, x: &Scalar) -> (z: Scalar)
    ensures
        z.value() == (r.value() + c.value() * lambda.value() * x.value()) % group_order(),
{
    let cl = c.mul(lambda);
    let clx = cl.mul(x);
    let z = r.add(&clx);
    proof {
        let l = group_order() as int;
        lemma_mul_mod_noop_left((c.value() * lambda.value()) as int, x.value() as int, l);
        lemma_add_mod_noop(r.value() as int, (c.value() * lambda.value() * x.value()) as int, l);
        lemma_small_mod(r.value(), group_order());
    }
    z
}

/// The second round, once every other signer's commitments and then its
/// nonce points have arrived (`peer_commitments[k][t]` and `peer_points[k][t]`
/// from `others[k]` for task `t`): checks each revealed point against its
/// commitment, aggregates the nonce points, computes each challenge and this
/// party's partial signature. The caller sends `responses` to every other
/// signer. Fails on the first mismatch, by task and then by peer.
pub fn sign_respond(
    sess: SignSession,
    peer_commitments: Vec<Vec<Vec<u8>>>,
    peer_points: Vec<Vec<Point>>,
) -> (r: Result<SignSession, Error>)
    requires
        sess.committed(),
        sess.rows_fit(peer_commitments@),
        sess.rows_fit(peer_points@),
    ensures
        (r is Ok) == (forall|t: int, k: int|
            0 <= t < sess.tasks() && 0 <= k < sess.others@.len() ==> sess.commitment_ok(
                peer_commitments@,
                peer_points@,
                k,
                t,
            )),
        r matches Err(e) ==> (exists|t: int, k: int|
            0 <= t < sess.tasks() && 0 <= k < sess.others@.len() && e
                == (Error::InvalidCommitment { peer: sess.others@[k], seq: t as usize })
                && !sess.commitment_ok(peer_commitments@, peer_points@, k, t) && (forall|
                t2: int,
                k2: int,
            |
                0 <= t2 < sess.tasks() && 0 <= k2 < sess.others@.len() && (t2 < t || (t2 == t
                    && k2 < k)) ==> sess.commitment_ok(
                    peer_commitments@,
                    peer_points@,
                    k2,
                    t2,
                ))),
        r matches Ok(next) ==> {
            &&& next.responded()
            &&& next.my_id == sess.my_id
            &&& next.signers == sess.signers
            &&& next.others == sess.others
            &&& next.signer_bytes == sess.signer_bytes
            &&& next.msgs == sess.msgs
            &&& next.child_pks == sess.child_pks
            &&& next.child_schemes == sess.child_schemes
            &&& next.child_xis == sess.child_xis
            &&& next.nonces == sess.nonces
            &&& next.nonce_points == sess.nonce_points
            &&& next.nonce_commitments == sess.nonce_commitments
            &&& next.peer_commitments == peer_commitments
            &&& next.peer_points == peer_points
        },
{
    let n = sess.msgs.len();
    let m = sess.others.len();
    let mut t: usize = 0;
    while t < n
        invariant
            sess.committed(),
            sess.rows_fit(peer_commitments@),
            sess.rows_fit(peer_points@),
            n == sess.tasks(),
            m == sess.others@.len(),
            t <= n,
            forall|t2: int, k2: int|
                0 <= t2 < t && 0 <= k2 < m ==> sess.commitment_ok(
                    peer_commitments@,
                    peer_points@,
                    k2,
                    t2,
                ),
        decreases n - t,
    {
        let mut k: usize = 0;
        while k < m
            invariant
                sess.committed(),
                sess.rows_fit(peer_commitments@),
                sess.rows_fit(peer_points@),
                n == sess.tasks(),
                m == sess.others@.len(),
                t < n,
                k <= m,
                forall|t2: int, k2: int|
                    0 <= t2 < sess.tasks() && 0 <= k2 < m && (t2 < t || (t2 == t && k2 < k))
                        ==> sess.commitment_ok(peer_commitments@, peer_points@, k2, t2),
            decreases m - k,
        {
            let expected = commit_nonce(
                sess.msgs[t].as_slice(),
                sess.signer_bytes.as_slice(),
                &peer_points[k][t],
            );
            if !bytes_eq(expected.as_slice(), peer_commitments[k][t].as_slice()) {
                proof {
                    assert(!sess.commitment_ok(peer_commitments@, peer_points@, k as int, t as int));
                    assert((t as int) as usize == t);
                }
                return Err(Error::InvalidCommitment { peer: sess.others[k], seq: t });
            }
            k = k + 1;
        }
        t = t + 1;
    }
    let lambda = lagrange_lambda(sess.my_id, sess.signers.as_slice());
    let mut aggregate_points: Vec<Point> = Vec::new();
    let mut challenges: Vec<Scalar> = Vec::new();
    let mut responses: Vec<Scalar> = Vec::new();
    let mut t: usize = 0;
    while t < n
        invariant
            sess.committed(),
            sess.rows_fit(peer_points@),
            n == sess.tasks(),
            m == sess.others@.len(),
            t <= n,
            lambda.value() == lagrange_coefficient(sess.my_id, sess.signers@),
            aggregate_points@.len() == t,
            challenges@.len() == t,
            responses@.len() == t,
            forall|a: int|
                0 <= a < t ==> #[trigger] aggregate_points@[a]@ == point_sum(
                    identity_encoding(),
                    sess.all_points(peer_points@, a),
                ),
            forall|a: int|
                0 <= a < t ==> #[trigger] challenges@[a].value() == le_nat(
                    sha512(aggregate_points@[a]@ + sess.child_pks@[a]@ + sess.msgs@[a]@),
                ) % group_order(),
            forall|a: int|
                0 <= a < t ==> #[trigger] challenges@[a].value() == eddsa_challenge(
                    aggregate_points@[a]@,
                    sess.child_pks@[a]@,
                    sess.msgs@[a]@,
                ),
            forall|a: int|
                0 <= a < t ==> #[trigger] responses@[a].value() == (sess.nonces@[a].value()
                    + challenges@[a].value() * lagrange_coefficient(sess.my_id, sess.signers@)
                    * sess.child_xis@[a].value()) % group_order(),
            forall|a: int, vals: Seq<nat>|
                0 <= a < t && #[trigger] commits_to(sess.all_points(peer_points@, a), vals)
                    ==> aggregate_points@[a]@ == gmul(nat_sum(vals) as int),
        decreases n - t,
    {
        let ghost col = sess.all_points(peer_points@, t as int);
        let ns = sess.signers.len();
        let mut agg = Point::identity();
        let mut q: usize = 0;
        proof {
            assert(col.take(0) =~= Seq::<Seq<u8>>::empty());
        }
        while q < ns
            invariant
                sess.committed(),
                sess.rows_fit(peer_points@),
                n == sess.tasks(),
                m == sess.others@.len(),
                ns == sess.signers@.len(),
                t < n,
                q <= ns,
                col == sess.all_points(peer_points@, t as int),
                agg@ == point_sum(identity_encoding(), col.take(q as int)),
                forall|vals: Seq<nat>|
                    #[trigger] commits_to(col, vals) ==> agg@ == gmul(
                        nat_sum(vals.take(q as int)) as int,
                    ),
            decreases ns - q,
        {
            let pt = if q == sess.my_pos {
                sess.nonce_points[t]
            } else if q < sess.my_pos {
                peer_points[q][t]
            } else {
                peer_points[q - 1][t]
            };
            let next = agg.add(&pt);
            proof {
                assert(col.take(q + 1).drop_last() =~= col.take(q as int));
                assert(col.take(q + 1).last() == pt@);
                assert forall|vals: Seq<nat>| #[trigger] commits_to(col, vals) implies next@ == gmul(
                    nat_sum(vals.take(q + 1)) as int,
                ) by {
                    assert(pt@ == col[q as int]);
                    assert(col[q as int] == gmul(vals[q as int] as int));
                    assert(vals.take(q + 1).drop_last() =~= vals.take(q as int));
                }
            }
            agg = next;
            q = q + 1;
        }
        proof {
            assert(col.take(ns as int) =~= col);
            assert forall|vals: Seq<nat>| #[trigger] commits_to(col, vals) implies agg@ == gmul(
                nat_sum(vals) as int,
            ) by {
                assert(vals.take(ns as int) =~= vals);
            }
        }
        let c = eddsa_challenge_of(&agg, &sess.child_pks[t], sess.msgs[t].as_slice());
        let z = partial_signature(&sess.nonces[t], &c, &lambda, &sess.child_xis[t]);
        aggregate_points.push(agg);
        challenges.push(c);
        responses.push(z);
        t = t + 1;
    }
    Ok(SignSession { peer_commitments, peer_points, aggregate_points, challenges, responses, ..sess })
}


/// The last round, once every other signer's partial signatures have arrived
/// (`peer_responses[k][t]` from `others[k]` for task `t`): checks each of
/// them, `z_j·G == R_j + (lambda_j·c)·X_j` (by peer and then by task, failing
/// on the first that does not hold), aggregates `s = z_i + sum z_j` per task
/// and checks the resulting signature `(R, s)` under the task's key.
pub fn sign_finish(sess: &SignSession, peer_responses: Vec<Vec<Scalar>>) -> (r: Result<
    Vec<Signature>,
    Error,
>)
    requires
        sess.responded(),
        sess.rows_fit(peer_responses@),
    ensures
        (r is Ok) == ((forall|k: int, t: int|
            0 <= k < sess.others@.len() && 0 <= t < sess.tasks() ==> sess.partial_ok(
                peer_responses@,
                k,
                t,
            )) && (forall|t: int|
            0 <= t < sess.tasks() ==> sess.aggregate_ok(peer_responses@, t))),
        r matches Err(e) ==> ((exists|k: int, t: int|
            0 <= k < sess.others@.len() && 0 <= t < sess.tasks() && e
                == (Error::InvalidPartialSignature { peer: sess.others@[k], seq: t as usize })
                && !sess.partial_ok(peer_responses@, k, t) && (forall|k2: int, t2: int|
                0 <= k2 < sess.others@.len() && 0 <= t2 < sess.tasks() && (k2 < k || (k2 == k
                    && t2 < t)) ==> sess.partial_ok(peer_responses@, k2, t2))) || ((forall|
            k: int,
            t: int,
        |
            0 <= k < sess.others@.len() && 0 <= t < sess.tasks() ==> sess.partial_ok(
                peer_responses@,
                k,
                t,
            )) && exists|t: int|
            0 <= t < sess.tasks() && e == (Error::AggregateVerifyFailed { seq: t as usize })
                && !sess.aggregate_ok(peer_responses@, t) && (forall|t2: int|
                0 <= t2 < t ==> sess.aggregate_ok(peer_responses@, t2)))),
        sess.partials_honest(peer_responses@) ==> forall|k: int, t: int|
            0 <= k < sess.others@.len() && 0 <= t < sess.tasks() ==> sess.partial_ok(
                peer_responses@,
                k,
                t,
            ),
        sess.partials_honest(peer_responses@) && (forall|t: int|
            0 <= t < sess.tasks() ==> #[trigger] sess.aggregate_honest(peer_responses@, t)) ==> r is Ok,
        r matches Ok(sigs) ==> {
            &&& sigs@.len() == sess.tasks()
            &&& forall|t: int|
                0 <= t < sess.tasks() ==> #[trigger] sigs@[t].R == sess.aggregate_points@[t]
            &&& forall|t: int|
                0 <= t < sess.tasks() ==> #[trigger] sigs@[t].s.value() == sess.aggregate_s(
                    peer_responses@,
                    t,
                )
            &&& forall|t: int|
                0 <= t < sess.tasks() ==> signature_valid(
                    #[trigger] sigs@[t],
                    sess.child_pks@[t]@,
                    sess.msgs@[t]@,
                )
            &&& forall|t: int|
                0 <= t < sess.tasks() ==> basepoint_mul((#[trigger] sigs@[t]).s@) == subgroup_add(
                    sigs@[t].R@,
                    subgroup_mul(
                        sess.child_pks@[t]@,
                        scalar_enc(
                            le_nat(sha512(sigs@[t].R@ + sess.child_pks@[t]@ + sess.msgs@[t]@))
                                % group_order(),
                        ),
                    ),
                )
        },
{
    let n = sess.msgs.len();
    let m = sess.others.len();
    let mut k: usize = 0;
    while k < m
        invariant
            sess.responded(),
            sess.rows_fit(peer_responses@),
            n == sess.tasks(),
            m == sess.others@.len(),
            k <= m,
            forall|k2: int, t2: int|
                0 <= k2 < k && 0 <= t2 < n ==> sess.partial_ok(peer_responses@, k2, t2),
        decreases m - k,
    {
        let j = sess.others[k];
        let lambda_j = lagrange_lambda(j, sess.signers.as_slice());
        let mut t: usize = 0;
        while t < n
            invariant
                sess.responded(),
                sess.rows_fit(peer_responses@),
                n == sess.tasks(),
                m == sess.others@.len(),
                k < m,
                t <= n,
                j == sess.others@[k as int],
                lambda_j.value() == lagrange_coefficient(j, sess.signers@),
                forall|k2: int, t2: int|
                    0 <= k2 < m && 0 <= t2 < n && (k2 < k || (k2 == k && t2 < t))
                        ==> sess.partial_ok(peer_responses@, k2, t2),
            decreases n - t,
        {
            let zj_g = Point::base_mul(&peer_responses[k][t]);
            let xj = eval_xi_com(j, sess.child_schemes[t].as_slice());
            let lc = lambda_j.mul(&sess.challenges[t]);
            let xl = xj.mul(&lc);
            let rhs = sess.peer_points[k][t].add(&xl);
            if !zj_g.equals(&rhs) {
                proof {
                    assert(!sess.partial_ok(peer_responses@, k as int, t as int));
                    assert((t as int) as usize == t);
                    if sess.partials_honest(peer_responses@) {
                        assert(sess.partial_honest_for_some(peer_responses@, k as int, t as int));
                        let (polys, rho) = choose|polys: Seq<Seq<nat>>, rho: int|
                            #[trigger] sess.partial_honest(
                                peer_responses@,
                                k as int,
                                t as int,
                                polys,
                                rho,
                            );
                        let x = summed_value(polys, id_value(j)) as int;
                        assert(xj@ == gmul(x));
                        assert(xl@ == gmul(x * lc.value()));
                        assert(rhs@ == gmul(rho + x * lc.value()));
                        assert(zj_g@ == gmul(peer_responses@[k as int]@[t as int].value() as int));
                        assert(rho + x * lc.value() == rho + lc.value() * x) by (nonlinear_arith);
                        assert(zj_g@ == rhs@);
                    }
                }
                return Err(Error::InvalidPartialSignature { peer: j, seq: t });
            }
            t = t + 1;
        }
        k = k + 1;
    }
    let mut sigs: Vec<Signature> = Vec::new();
    let mut t: usize = 0;
    while t < n
        invariant
            sess.responded(),
            sess.rows_fit(peer_responses@),
            n == sess.tasks(),
            m == sess.others@.len(),
            t <= n,
            forall|k2: int, t2: int|
                0 <= k2 < m && 0 <= t2 < n ==> sess.partial_ok(peer_responses@, k2, t2),
            sigs@.len() == t,
            forall|a: int| 0 <= a < t ==> #[trigger] sigs@[a].R == sess.aggregate_points@[a],
            forall|a: int|
                0 <= a < t ==> #[trigger] sigs@[a].s.value() == sess.aggregate_s(
                    peer_responses@,
                    a,
                ),
            forall|a: int|
                0 <= a < t ==> signature_valid(
                    #[trigger] sigs@[a],
                    sess.child_pks@[a]@,
                    sess.msgs@[a]@,
                ),
            forall|a: int| 0 <= a < t ==> sess.aggregate_ok(peer_responses@, a),
        decreases n - t,
    {
        let ghost col = column_values(peer_responses@, t as int);
        let ghost zi = sess.responses@[t as int].value();
        let mut acc = sess.responses[t];
        let mut k: usize = 0;
        proof {
            assert(col.take(0) =~= Seq::<nat>::empty());
            lemma_small_mod(zi, group_order());
        }
        while k < m
            invariant
                sess.responded(),
                sess.rows_fit(peer_responses@),
                n == sess.tasks(),
                m == sess.others@.len(),
                t < n,
                k <= m,
                col == column_values(peer_responses@, t as int),
                acc.value() == (zi + nat_sum(col.take(k as int))) % group_order(),
                acc@ == scalar_enc(acc.value()) || k == 0,
                k == 0 ==> acc == sess.responses@[t as int],
            decreases m - k,
        {
            let z = peer_responses[k][t];
            let next = acc.add(&z);
            proof {
                let l = group_order() as int;
                assert(col.take(k + 1).drop_last() =~= col.take(k as int));
                assert(col.take(k + 1).last() == z.value());
                lemma_add_mod_noop((zi + nat_sum(col.take(k as int))) as int, z.value() as int, l);
                lemma_small_mod(z.value(), group_order());
                lemma_small_mod(acc.value(), group_order());
            }
            acc = next;
            k = k + 1;
        }
        proof {
            assert(col.take(m as int) =~= col);
        }
        let sig = Signature { R: sess.aggregate_points[t], s: acc };
        let checked = sig.verify(&sess.child_pks[t], sess.msgs[t].as_slice());
        acc.reduced();
        if checked.is_err() {
            proof {
                assert(!sess.aggregate_ok(peer_responses@, t as int));
                assert((t as int) as usize == t);
                if sess.aggregate_honest(peer_responses@, t as int) {
                    let (rho, kappa) = choose|rho: int, kappa: int|
                        #![trigger gmul(rho), gmul(kappa)]
                        sess.aggregate_points@[t as int]@ == gmul(rho) && sess.child_pks@[t as int]@
                            == gmul(kappa) && (sess.aggregate_s(peer_responses@, t as int) as int) % (
                        group_order() as int) == (rho + kappa * sess.challenges@[t as int].value()) % (
                        group_order() as int);
                    assert(sig.R@ == gmul(rho));
                    assert(sess.child_pks@[t as int]@ == gmul(kappa));
                    assert(eddsa_challenge(sig.R@, sess.child_pks@[t as int]@, sess.msgs@[t as int]@)
                        == sess.challenges@[t as int].value());
                    assert(sig.s.value() == sess.aggregate_s(peer_responses@, t as int));
                    assert(checked is Ok);
                }
            }
            return Err(Error::AggregateVerifyFailed { seq: t });
        }
        sigs.push(sig);
        t = t + 1;
    }
    proof {
        assert forall|t: int| 0 <= t < sess.tasks() implies basepoint_mul(
            (#[trigger] sigs@[t]).s@,
        ) == subgroup_add(
            sigs@[t].R@,
            subgroup_mul(
                sess.child_pks@[t]@,
                scalar_enc(
                    le_nat(sha512(sigs@[t].R@ + sess.child_pks@[t]@ + sess.msgs@[t]@))
                        % group_order(),
                ),
            ),
        ) by {
            assert(sigs@[t].R == sess.aggregate_points@[t]);
            assert(signature_valid(sigs@[t], sess.child_pks@[t]@, sess.msgs@[t]@));
            assert(sess.challenges@[t].value() == le_nat(
                sha512(sess.aggregate_points@[t]@ + sess.child_pks@[t]@ + sess.msgs@[t]@),
            ) % group_order());
            assert(sess.challenges@[t].value() == eddsa_challenge(
                sess.aggregate_points@[t]@,
                sess.child_pks@[t]@,
                sess.msgs@[t]@,
            ));
        }
    }
    Ok(sigs)
}


/// The `s` a signer aggregates for task `t` is the sum of every signer's
/// partial signature: where `col` lists them in the signers' order, this
/// party's own at its position and its peers' elsewhere.
pub proof fn lemma_aggregate_s_sums_column(sess: SignSession, zs: Seq<Vec<Scalar>>, t: int, col: Seq<nat>)
    requires
        sess.responded(),
        sess.rows_fit(zs),
        0 <= t < sess.tasks(),
        col.len() == sess.signers@.len(),
        col[sess.my_pos as int] == sess.responses@[t].value(),
        col.remove(sess.my_pos as int) == column_values(zs, t),
    ensures
        sess.aggregate_s(zs, t) == nat_sum(col) % group_order(),
{
    lemma_nat_sum_remove(col, sess.my_pos as int);
}

/// All signers output the same signature. Two signers whose sessions hold,
/// for task `t`, the same key and message, and the same nonce points `pts`
/// and partial signatures `col` of all signers (in the signers' order),
/// aggregate the same `R`, answer the same challenge and aggregate the same
/// `s`.
pub proof fn lemma_signers_agree(
    a: SignSession,
    za: Seq<Vec<Scalar>>,
    b: SignSession,
    zb: Seq<Vec<Scalar>>,
    t: int,
    pts: Seq<Seq<u8>>,
    col: Seq<nat>,
)
    requires
        a.responded(),
        a.rows_fit(za),
        0 <= t < a.tasks(),
        b.responded(),
        b.rows_fit(zb),
        0 <= t < b.tasks(),
        a.child_pks@[t]@ == b.child_pks@[t]@,
        a.msgs@[t]@ == b.msgs@[t]@,
        a.all_points(a.peer_points@, t) == pts,
        b.all_points(b.peer_points@, t) == pts,
        col.len() == a.signers@.len(),
        col.len() == b.signers@.len(),
        col[a.my_pos as int] == a.responses@[t].value(),
        col.remove(a.my_pos as int) == column_values(za, t),
        col[b.my_pos as int] == b.responses@[t].value(),
        col.remove(b.my_pos as int) == column_values(zb, t),
    ensures
        a.aggregate_points@[t]@ == b.aggregate_points@[t]@,
        a.challenges@[t].value() == b.challenges@[t].value(),
        a.aggregate_s(za, t) == b.aggregate_s(zb, t),
{
    lemma_aggregate_s_sums_column(a, za, t, col);
    lemma_aggregate_s_sums_column(b, zb, t, col);
}

/// The aggregated `s` splits into nonces and challenge: where every signer
/// answered the same challenge `c` with `z_j = r_j + c·w_j` (`w_j` its
/// Lagrange-weighted share `lambda_j·x_j`), the sum of the `z_j` is
/// `sum r_j + c·sum w_j`, modulo the group order.
pub proof fn lemma_aggregate_s_splits(nonces: Seq<nat>, weighted: Seq<nat>, zs: Seq<nat>, c: nat)
    requires
        nonces.len() == zs.len(),
        weighted.len() == zs.len(),
        forall|j: int|
            0 <= j < zs.len() ==> #[trigger] zs[j] == (nonces[j] + c * weighted[j])
                % group_order(),
    ensures
        nat_sum(zs) % group_order() == (nat_sum(nonces) + c * nat_sum(weighted)) % group_order(),
{
    let n = zs.len();
    let scaled = Seq::new(n, |j: int| c * weighted[j]);
    let unreduced = Seq::new(n, |j: int| nonces[j] + scaled[j]);
    assert forall|j: int| 0 <= j < n implies #[trigger] zs[j] % group_order() == unreduced[j]
        % group_order() by {
        vstd::arithmetic::div_mod::lemma_mod_twice((nonces[j] + c * weighted[j]) as int, group_order() as int);
    }
    lemma_nat_sum_mod(zs, unreduced);
    lemma_nat_sum_pointwise(nonces, scaled, unreduced);
    lemma_nat_sum_scale(weighted, c, scaled);
}


/// Threshold signing signs with the key: let every signer `t[k]` (at least
/// `th` distinct players whose Lagrange denominators have inverses) answer
/// the challenge `c` with `z_k = r_k + c·lambda_k·x_k`, its share `x_k` being
/// the summed key-generation polynomial at its id. Then the aggregated `s`,
/// the sum of the `z_k`, is `sum r_k + c·secret` modulo the group order, the
/// secret being the sum of the contributions `u_q`: the Schnorr equation of
/// the joint key.
pub proof fn lemma_aggregate_s_signs_with_secret(
    polys: Seq<Seq<nat>>,
    th: nat,
    t: Seq<usize>,
    xs: Seq<nat>,
    nonces: Seq<nat>,
    zs: Seq<nat>,
    c: nat,
)
    requires
        th >= 1,
        forall|q: int| 0 <= q < polys.len() ==> #[trigger] polys[q].len() == th,
        strictly_increasing(t),
        t.len() >= th,
        forall|k: int| 0 <= k < t.len() ==> has_inverse(#[trigger] lagrange_den(t[k], t)),
        xs.len() == t.len(),
        forall|k: int|
            0 <= k < t.len() ==> #[trigger] xs[k] == poly_eval(
                id_value(t[k]),
                column_sums(polys, th),
            ) % group_order(),
        nonces.len() == t.len(),
        zs.len() == t.len(),
        forall|k: int|
            0 <= k < t.len() ==> #[trigger] zs[k] == (nonces[k] + c * lagrange_coefficient(t[k], t)
                * xs[k]) % group_order(),
    ensures
        nat_sum(zs) % group_order() == (nat_sum(nonces) + c * nat_sum(column(polys, 0)))
            % group_order(),
{
    let l = group_order() as int;
    let weighted = Seq::new(t.len(), |k: int| lagrange_coefficient(t[k], t) * xs[k]);
    assert forall|j: int| 0 <= j < zs.len() implies #[trigger] zs[j] == (nonces[j] + c
        * weighted[j]) % group_order() by {
        assert(c * lagrange_coefficient(t[j], t) * xs[j] == c * (lagrange_coefficient(t[j], t)
            * xs[j])) by (nonlinear_arith);
    }
    lemma_aggregate_s_splits(nonces, weighted, zs, c);
    lemma_shares_reconstruct_secret(polys, th, t, xs);
    let sw = nat_sum(weighted);
    let secret = nat_sum(column(polys, 0));
    vstd::arithmetic::div_mod::lemma_mul_mod_noop_right(c as int, sw as int, l);
    vstd::arithmetic::div_mod::lemma_mul_mod_noop_right(c as int, secret as int, l);
    vstd::arithmetic::div_mod::lemma_add_mod_noop_right(nat_sum(nonces) as int, (c * sw) as int, l);
    vstd::arithmetic::div_mod::lemma_add_mod_noop_right(
        nat_sum(nonces) as int,
        (c * secret) as int,
        l,
    );
}


/// Tweaking the polynomials by `off` moves every summed value, and the
/// secret, by `off`.
pub proof fn lemma_tweak_polys(polys: Seq<Seq<nat>>, off: nat, x: nat)
    requires
        polys.len() >= 1,
        polys[0].len() >= 1,
    ensures
        summed_value(tweak_polys(polys, off), x) == summed_value(polys, x) + off,
        nat_sum(column(tweak_polys(polys, off), 0)) == nat_sum(column(polys, 0)) + off,
{
    let tp = tweak_polys(polys, off);
    let p0 = polys[0];
    let q0 = tp[0];
    assert(q0.drop_first() =~= p0.drop_first());
    assert(poly_eval(x, q0) == poly_eval(x, p0) + off);
    let evals = Seq::new(polys.len(), |q: int| poly_eval(x, polys[q]));
    let tevals = Seq::new(tp.len(), |q: int| poly_eval(x, tp[q]));
    lemma_nat_sum_remove(evals, 0);
    lemma_nat_sum_remove(tevals, 0);
    assert(tevals.remove(0) =~= evals.remove(0));
    let c0 = column(polys, 0);
    let tc0 = column(tp, 0);
    lemma_nat_sum_remove(c0, 0);
    lemma_nat_sum_remove(tc0, 0);
    assert(tc0.remove(0) =~= c0.remove(0));
}

/// `n + c·lambda·u` and `n + v·(lambda·c mod l)` agree modulo `l` where `u`
/// and `v` do.
proof fn lemma_response_congruent(n: int, c: int, lam: int, u: int, v: int, l: int)
    requires
        l > 0,
        u % l == v % l,
    ensures
        (n + c * lam * u) % l == (n + v * ((lam * c) % l)) % l,
{
    vstd::arithmetic::div_mod::lemma_add_mod_noop_right(n, c * lam * u, l);
    vstd::arithmetic::div_mod::lemma_mul_mod_noop_right(c * lam, u, l);
    vstd::arithmetic::div_mod::lemma_mul_mod_noop_right(c * lam, v, l);
    vstd::arithmetic::div_mod::lemma_mul_mod_noop_right(v, lam * c, l);
    vstd::arithmetic::div_mod::lemma_add_mod_noop_right(n, v * ((lam * c) % l), l);
    assert((c * lam) * v == v * (lam * c)) by (nonlinear_arith);
    assert(c * lam * u == (c * lam) * u);
}

/// An honest signer's partial signature is honest where it arrives. Let
/// signer `b` have answered its session and let session `a` hold, from `b`
/// (its peer `k`), `b`'s nonce point and partial signature for task `t`. Let
/// both have answered the same challenge, `b`'s task share be its share
/// `x == F(b) mod l` of the summed key-generation polynomials `polys` moved by
/// the task's offset `off`, and `a`'s task scheme commit to `polys` moved by
/// `off`. Then the partial signature is honest for those polynomials and
/// `b`'s nonce.
pub proof fn lemma_honest_partial(
    a: SignSession,
    zs: Seq<Vec<Scalar>>,
    b: SignSession,
    k: int,
    t: int,
    polys: Seq<Seq<nat>>,
    x: nat,
    off: nat,
)
    requires
        a.responded(),
        a.rows_fit(zs),
        b.responded(),
        0 <= k < a.others@.len(),
        0 <= t < a.tasks(),
        t < b.tasks(),
        a.others@[k] == b.my_id,
        a.signers@ == b.signers@,
        a.peer_points@[k]@[t] == b.nonce_points@[t],
        zs[k]@[t].value() == b.responses@[t].value(),
        a.challenges@[t].value() == b.challenges@[t].value(),
        polys.len() >= 1,
        polys[0].len() >= 1,
        scheme_commits_to(scheme_coeffs(a.child_schemes@[t]@), tweak_polys(polys, off)),
        x == summed_value(polys, id_value(b.my_id)) % group_order(),
        b.child_xis@[t].value() == (x + off) % group_order(),
    ensures
        a.partial_honest(zs, k, t, tweak_polys(polys, off), b.nonces@[t].value() as int),
{
    let id = id_value(b.my_id);
    lemma_tweak_polys(polys, off, id);
    lemma_partial_arith(
        b.nonces@[t].value() as int,
        a.challenges@[t].value() as int,
        lagrange_coefficient(b.my_id, b.signers@) as int,
        b.child_xis@[t].value() as int,
        x as int,
        off as int,
        summed_value(polys, id) as int,
    );
}

/// The arithmetic of an honest partial signature: `z = n + c·lam·cx` for the
/// task share `cx == (sv mod l + off) mod l` agrees with
/// `n + (sv + off)·(lam·c mod l)` modulo `l`.
proof fn lemma_partial_arith(n: int, c: int, lam: int, cx: int, x: int, off: int, sv: int)
    requires
        sv >= 0,
        off >= 0,
        x == sv % (group_order() as int),
        cx == (x + off) % (group_order() as int),
    ensures
        ((n + c * lam * cx) % (group_order() as int)) % (group_order() as int) == (n + (sv + off)
            * ((lam * c) % (group_order() as int))) % (group_order() as int),
{
    let l = group_order() as int;
    vstd::arithmetic::div_mod::lemma_mod_twice(x + off, l);
    vstd::arithmetic::div_mod::lemma_add_mod_noop(sv, off, l);
    vstd::arithmetic::div_mod::lemma_mod_twice(sv, l);
    vstd::arithmetic::div_mod::lemma_small_mod((off % l) as nat, l as nat);
    assert(cx % l == (sv + off) % l);
    lemma_response_congruent(n, c, lam, cx, sv + off, l);
    vstd::arithmetic::div_mod::lemma_mod_twice(n + c * lam * cx, l);
}


/// Honest signers aggregate an honest signature. Let session `a` have
/// answered task `t`; let signer `signers[q]` hold the nonce `nonces[q]` and
/// the task share `xs[q] == F(signers[q]) mod l`, `F` the sum of the
/// polynomials `polys` (of `th` coefficients each, already moved by the
/// task's offset, and `th` at most the number of signers, whose Lagrange
/// denominators have inverses); and let each peer's partial signature be
/// `r + c·lambda·x` for `a`'s challenge `c`. Where the aggregated nonce
/// point is `(sum of the nonces)·G` and the task key is
/// `(sum of the constant terms)·G`, the aggregate is honest.
pub proof fn lemma_honest_aggregate(
    a: SignSession,
    zs: Seq<Vec<Scalar>>,
    t: int,
    polys: Seq<Seq<nat>>,
    th: nat,
    nonces: Seq<nat>,
    xs: Seq<nat>,
)
    requires
        a.responded(),
        a.rows_fit(zs),
        0 <= t < a.tasks(),
        th >= 1,
        forall|q: int| 0 <= q < polys.len() ==> #[trigger] polys[q].len() == th,
        a.signers@.len() >= th,
        forall|q: int|
            0 <= q < a.signers@.len() ==> has_inverse(
                #[trigger] lagrange_den(a.signers@[q], a.signers@),
            ),
        nonces.len() == a.signers@.len(),
        xs.len() == a.signers@.len(),
        forall|q: int|
            0 <= q < xs.len() ==> #[trigger] xs[q] == summed_value(
                polys,
                id_value(a.signers@[q]),
            ) % group_order(),
        nonces[a.my_pos as int] == a.nonces@[t].value(),
        xs[a.my_pos as int] == a.child_xis@[t].value(),
        forall|k: int|
            0 <= k < a.others@.len() ==> #[trigger] zs[k]@[t].value() == (nonces[peer_slot(
                a.my_pos,
                k,
            )] + a.challenges@[t].value() * lagrange_coefficient(a.others@[k], a.signers@)
                * xs[peer_slot(a.my_pos, k)]) % group_order(),
        a.aggregate_points@[t]@ == gmul(nat_sum(nonces) as int),
        a.child_pks@[t]@ == gmul(nat_sum(column(polys, 0)) as int),
    ensures
        a.aggregate_honest(zs, t),
{
    let n = a.signers@.len();
    let mp = a.my_pos as int;
    let c = a.challenges@[t].value();
    let col = Seq::new(
        n,
        |q: int|
            if q == mp {
                a.responses@[t].value()
            } else if q < mp {
                zs[q]@[t].value()
            } else {
                zs[q - 1]@[t].value()
            },
    );
    assert(col.remove(mp) =~= column_values(zs, t));
    lemma_aggregate_s_sums_column(a, zs, t, col);
    assert forall|q: int| 0 <= q < n implies #[trigger] xs[q] == poly_eval(
        id_value(a.signers@[q]),
        column_sums(polys, th),
    ) % group_order() by {
        lemma_summed_polynomial(polys, th, id_value(a.signers@[q]));
    }
    assert forall|q: int| 0 <= q < n implies #[trigger] col[q] == (nonces[q] + c
        * lagrange_coefficient(a.signers@[q], a.signers@) * xs[q]) % group_order() by {
        if q < mp {
            assert(a.others@[q] == a.signers@[q]);
            assert(peer_slot(a.my_pos, q) == q);
        } else if q > mp {
            assert(a.others@[q - 1] == a.signers@[q]);
            assert(peer_slot(a.my_pos, q - 1) == q);
        }
    }
    lemma_aggregate_s_signs_with_secret(polys, th, a.signers@, xs, nonces, col, c);
    let rho = nat_sum(nonces) as int;
    let kappa = nat_sum(column(polys, 0)) as int;
    let l = group_order() as int;
    assert(kappa * c == c * kappa) by (nonlinear_arith);
    vstd::arithmetic::div_mod::lemma_mod_twice(nat_sum(col) as int, l);
    assert(a.aggregate_points@[t]@ == gmul(rho) && a.child_pks@[t]@ == gmul(kappa) && (
    a.aggregate_s(zs, t) as int) % l == (rho + kappa * c) % l);
}


/// Every signer's nonce for task `t`, in the signers' order.
pub open spec fn task_nonces(sess: Seq<SignSession>, t: int) -> Seq<nat> {
    Seq::new(sess.len(), |p: int| sess[p].nonces@[t].value())
}

/// Every signer's nonce point for task `t`, in the signers' order.
pub open spec fn task_points(sess: Seq<SignSession>, t: int) -> Seq<Seq<u8>> {
    Seq::new(sess.len(), |p: int| sess[p].nonce_points@[t]@)
}

/// Every signer's partial signature for task `t`, in the signers' order.
pub open spec fn task_responses(sess: Seq<SignSession>, t: int) -> Seq<nat> {
    Seq::new(sess.len(), |p: int| sess[p].responses@[t].value())
}

/// Every signer's share of task `t`, in the signers' order.
pub open spec fn task_shares(sess: Seq<SignSession>, t: int) -> Seq<nat> {
    Seq::new(sess.len(), |p: int| sess[p].child_xis@[t].value())
}

/// A session that holds the nonce points `pts == nonces·G` of all signers
/// aggregates `(sum of the nonces)·G`.
proof fn lemma_aggregate_of_points(a: SignSession, t: int, pts: Seq<Seq<u8>>, nonces: Seq<nat>)
    requires
        a.responded(),
        0 <= t < a.tasks(),
        a.all_points(a.peer_points@, t) == pts,
        pts.len() == nonces.len(),
        forall|p: int| 0 <= p < pts.len() ==> #[trigger] pts[p] == gmul(nonces[p] as int),
    ensures
        a.aggregate_points@[t]@ == gmul(nat_sum(nonces) as int),
{
    assert(commits_to(a.all_points(a.peer_points@, t), nonces));
}

/// What a committed session holds of its own nonce for task `t`.
proof fn lemma_own_nonce(b: SignSession, t: int)
    requires
        b.committed(),
        0 <= t < b.tasks(),
    ensures
        b.nonce_points@[t]@ == gmul(b.nonces@[t].value() as int),
        b.signers@[b.my_pos as int] == b.my_id,
{
}

/// Two answered sessions with the same aggregated point, key and message for
/// task `t` answer the same challenge.
proof fn lemma_same_challenge(a: SignSession, b: SignSession, t: int)
    requires
        a.responded(),
        b.responded(),
        0 <= t < a.tasks(),
        0 <= t < b.tasks(),
        a.aggregate_points@[t]@ == b.aggregate_points@[t]@,
        a.child_pks@[t]@ == b.child_pks@[t]@,
        a.msgs@[t]@ == b.msgs@[t]@,
    ensures
        a.challenges@[t].value() == b.challenges@[t].value(),
{
}

/// An answered session's partial signature for task `t`.
proof fn lemma_own_response(b: SignSession, t: int)
    requires
        b.responded(),
        0 <= t < b.tasks(),
    ensures
        b.responses@[t].value() == (b.nonces@[t].value() + b.challenges@[t].value()
            * lagrange_coefficient(b.my_id, b.signers@) * b.child_xis@[t].value())
            % group_order(),
{
}

/// Honest commitments open. Let `sess[q]` be the committed session of
/// signer `signers[q]`, at its own position, all on the same signers and
/// messages, and let each have received from each peer just the commitments
/// (`coms[q]`) and nonce points (`pts[q]`) that the peer's session holds.
/// Then every commitment matches its point, so that `sign_respond` succeeds
/// for each of them.
pub proof fn lemma_honest_commitments(
    sess: Seq<SignSession>,
    coms: Seq<Seq<Vec<Vec<u8>>>>,
    pts: Seq<Seq<Vec<Point>>>,
    signers: Seq<usize>,
)
    requires
        sess.len() == signers.len(),
        coms.len() == signers.len(),
        pts.len() == signers.len(),
        forall|q: int|
            #![trigger sess[q]]
            0 <= q < sess.len() ==> {
                &&& sess[q].committed()
                &&& sess[q].signers@ == signers
                &&& sess[q].my_pos == q
                &&& sess[q].msgs@.len() == sess[0].msgs@.len()
                &&& sess[q].rows_fit(coms[q])
                &&& sess[q].rows_fit(pts[q])
            },
        forall|q: int, t: int|
            0 <= q < sess.len() && 0 <= t < sess[0].msgs@.len() ==> #[trigger] sess[q].msgs@[t]@
                == sess[0].msgs@[t]@,
        forall|q: int, k: int, t: int|
            #![trigger coms[q][k]@[t]]
            0 <= q < sess.len() && 0 <= k < sess.len() - 1 && 0 <= t < sess[0].msgs@.len() ==> {
                &&& coms[q][k]@[t] == sess[peer_slot(sess[q].my_pos, k)].nonce_commitments@[t]
                &&& pts[q][k]@[t] == sess[peer_slot(sess[q].my_pos, k)].nonce_points@[t]
            },
    ensures
        forall|q: int, t: int, k: int|
            0 <= q < sess.len() && 0 <= t < sess[q].tasks() && 0 <= k < sess[q].others@.len()
                ==> #[trigger] sess[q].commitment_ok(coms[q], pts[q], k, t),
{
    assert forall|q: int, t: int, k: int|
        0 <= q < sess.len() && 0 <= t < sess[q].tasks() && 0 <= k < sess[q].others@.len()
            implies #[trigger] sess[q].commitment_ok(coms[q], pts[q], k, t) by {
        let a = sess[q];
        assert(a.committed());
        assert(sess[0].committed());
        let p = peer_slot(a.my_pos, k);
        let b = sess[p];
        assert(b.committed());
        assert(coms[q][k]@[t] == b.nonce_commitments@[t]);
        assert(b.msgs@[t]@ == sess[0].msgs@[t]@);
        assert(a.msgs@[t]@ == sess[0].msgs@[t]@);
    }
}

/// The sessions `sess[q]` of the signers `signers[q]`, all answered, on the
/// same signers and the tasks `offs`, each at its own position, with peer
/// rows `zs[q]`.
pub open spec fn signing_sessions(
    sess: Seq<SignSession>,
    zs: Seq<Seq<Vec<Scalar>>>,
    signers: Seq<usize>,
    offs: Seq<nat>,
) -> bool {
    &&& sess.len() == signers.len()
    &&& zs.len() == signers.len()
    &&& forall|q: int|
        #![trigger sess[q]]
        0 <= q < sess.len() ==> {
            &&& sess[q].responded()
            &&& sess[q].rows_fit(zs[q])
            &&& sess[q].signers@ == signers
            &&& sess[q].my_pos == q
            &&& sess[q].tasks() == offs.len()
        }
}

/// Each signer received from each peer just the nonce points and partial
/// signatures that the peer's session holds.
pub open spec fn signing_exchanged(sess: Seq<SignSession>, zs: Seq<Seq<Vec<Scalar>>>, tasks: nat) -> bool {
    forall|q: int, k: int, t: int|
        #![trigger sess[q].peer_points@[k]@[t]]
        0 <= q < sess.len() && 0 <= k < sess.len() - 1 && 0 <= t < tasks ==> {
            &&& sess[q].peer_points@[k]@[t] == sess[peer_slot(sess[q].my_pos, k)].nonce_points@[t]
            &&& zs[q][k]@[t].value() == sess[peer_slot(
                sess[q].my_pos,
                k,
            )].responses@[t].value()
        }
}

/// Task `t` of every session signs the message of the first session's task
/// `t` under the key of the polynomials `polys` moved by `offs[t]`: the task
/// scheme commits to them, the task key is their secret times `G`, and
/// signer `q`'s task share is `xis[q] == F(signers[q]) mod l` moved by
/// `offs[t]`.
pub open spec fn signing_keyed(
    sess: Seq<SignSession>,
    signers: Seq<usize>,
    polys: Seq<Seq<nat>>,
    offs: Seq<nat>,
    xis: Seq<nat>,
) -> bool {
    &&& xis.len() == sess.len()
    &&& forall|q: int|
        0 <= q < xis.len() ==> #[trigger] xis[q] == summed_value(polys, id_value(signers[q]))
            % group_order()
    &&& forall|q: int, t: int|
        #![trigger sess[q].child_xis@[t]]
        0 <= q < sess.len() && 0 <= t < offs.len() ==> {
            &&& sess[q].msgs@[t]@ == sess[0].msgs@[t]@
            &&& scheme_commits_to(
                scheme_coeffs(sess[q].child_schemes@[t]@),
                tweak_polys(polys, offs[t]),
            )
            &&& sess[q].child_pks@[t]@ == gmul(nat_sum(column(polys, 0)) + offs[t] as int)
            &&& sess[q].child_xis@[t].value() == (xis[q] + offs[t]) % group_order()
        }
}

/// One session of `signing_sessions`.
proof fn lemma_session_at(
    sess: Seq<SignSession>,
    zs: Seq<Seq<Vec<Scalar>>>,
    signers: Seq<usize>,
    offs: Seq<nat>,
    q: int,
)
    requires
        signing_sessions(sess, zs, signers, offs),
        0 <= q < sess.len(),
    ensures
        sess[q].responded(),
        sess[q].rows_fit(zs[q]),
        sess[q].signers@ == signers,
        sess[q].my_pos == q,
        sess[q].tasks() == offs.len(),
{
    assert(sess[q].responded());
}

/// One exchange of `signing_exchanged`.
proof fn lemma_exchanged_at(
    sess: Seq<SignSession>,
    zs: Seq<Seq<Vec<Scalar>>>,
    tasks: nat,
    q: int,
    k: int,
    t: int,
)
    requires
        signing_exchanged(sess, zs, tasks),
        0 <= q < sess.len(),
        0 <= k < sess.len() - 1,
        0 <= t < tasks,
    ensures
        sess[q].peer_points@[k]@[t] == sess[peer_slot(sess[q].my_pos, k)].nonce_points@[t],
        zs[q][k]@[t].value() == sess[peer_slot(sess[q].my_pos, k)].responses@[t].value(),
{
    assert(sess[q].peer_points@[k]@[t] == sess[peer_slot(sess[q].my_pos, k)].nonce_points@[t]);
}

/// One task of one session of `signing_keyed`.
proof fn lemma_keyed_at(
    sess: Seq<SignSession>,
    signers: Seq<usize>,
    polys: Seq<Seq<nat>>,
    offs: Seq<nat>,
    xis: Seq<nat>,
    q: int,
    t: int,
)
    requires
        signing_keyed(sess, signers, polys, offs, xis),
        0 <= q < sess.len(),
        0 <= t < offs.len(),
    ensures
        sess[q].msgs@[t]@ == sess[0].msgs@[t]@,
        scheme_commits_to(scheme_coeffs(sess[q].child_schemes@[t]@), tweak_polys(polys, offs[t])),
        sess[q].child_pks@[t]@ == gmul(nat_sum(column(polys, 0)) + offs[t] as int),
        sess[q].child_xis@[t].value() == (xis[q] + offs[t]) % group_order(),
        xis[q] == summed_value(polys, id_value(signers[q])) % group_order(),
{
    assert(sess[q].child_xis@[t].value() == (xis[q] + offs[t]) % group_order());
}

/// Honest signers output the same signatures: in honest sessions (as in
/// `lemma_honest_signing`) every signer aggregates `(sum of the nonces)·G`,
/// answers the same challenge and aggregates the same `s` from what it
/// received.
pub proof fn lemma_honest_sessions_agree(
    sess: Seq<SignSession>,
    zs: Seq<Seq<Vec<Scalar>>>,
    signers: Seq<usize>,
    polys: Seq<Seq<nat>>,
    offs: Seq<nat>,
    xis: Seq<nat>,
)
    requires
        signing_sessions(sess, zs, signers, offs),
        signing_exchanged(sess, zs, offs.len()),
        signing_keyed(sess, signers, polys, offs, xis),
        sess.len() >= 1,
    ensures
        forall|q: int, t: int|
            0 <= q < sess.len() && 0 <= t < offs.len() ==> #[trigger] sess[q].aggregate_points@[t]@
                == gmul(nat_sum(task_nonces(sess, t)) as int),
        forall|q: int, t: int|
            0 <= q < sess.len() && 0 <= t < offs.len() ==> #[trigger] sess[q].challenges@[t].value()
                == sess[0].challenges@[t].value(),
        forall|q: int, t: int|
            0 <= q < sess.len() && 0 <= t < offs.len() ==> #[trigger] sess[q].aggregate_s(zs[q], t)
                == sess[0].aggregate_s(zs[0], t),
{
    let n = sess.len();
    assert forall|q: int, t: int| 0 <= q < n && 0 <= t < offs.len() implies #[trigger] sess[
        q
    ].aggregate_s(zs[q], t) == nat_sum(task_responses(sess, t)) % group_order() by {
        lemma_session_at(sess, zs, signers, offs, q);
        let a = sess[q];
        let col = task_responses(sess, t);
        assert forall|k: int| 0 <= k < n - 1 implies #[trigger] col.remove(q)[k] == column_values(
            zs[q],
            t,
        )[k] by {
            lemma_exchanged_at(sess, zs, offs.len(), q, k, t);
        }
        assert(col.remove(q) =~= column_values(zs[q], t));
        lemma_aggregate_s_sums_column(a, zs[q], t, col);
    }
    assert forall|q: int, t: int| 0 <= q < n && 0 <= t < offs.len() implies #[trigger] sess[
        q
    ].aggregate_points@[t]@ == gmul(nat_sum(task_nonces(sess, t)) as int) by {
        lemma_session_at(sess, zs, signers, offs, q);
        let a = sess[q];
        let pts = task_points(sess, t);
        assert forall|p: int| 0 <= p < n implies #[trigger] a.all_points(a.peer_points@, t)[p]
            == pts[p] && pts[p] == gmul(task_nonces(sess, t)[p] as int) by {
            lemma_session_at(sess, zs, signers, offs, p);
            lemma_own_nonce(sess[p], t);
            if p < q {
                lemma_exchanged_at(sess, zs, offs.len(), q, p, t);
                assert(peer_slot(a.my_pos, p) == p);
            } else if p > q {
                lemma_exchanged_at(sess, zs, offs.len(), q, p - 1, t);
                assert(peer_slot(a.my_pos, p - 1) == p);
            }
        }
        assert(a.all_points(a.peer_points@, t) =~= pts);
        lemma_aggregate_of_points(a, t, pts, task_nonces(sess, t));
    }
    assert forall|q: int, t: int| 0 <= q < n && 0 <= t < offs.len() implies #[trigger] sess[
        q
    ].challenges@[t].value() == sess[0].challenges@[t].value() by {
        lemma_session_at(sess, zs, signers, offs, q);
        lemma_session_at(sess, zs, signers, offs, 0);
        lemma_keyed_at(sess, signers, polys, offs, xis, q, t);
        lemma_keyed_at(sess, signers, polys, offs, xis, 0, t);
        assert(sess[q].aggregate_points@[t]@ == gmul(nat_sum(task_nonces(sess, t)) as int));
        assert(sess[0].aggregate_points@[t]@ == gmul(nat_sum(task_nonces(sess, t)) as int));
        lemma_same_challenge(sess[q], sess[0], t);
    }
}


/// In honest sessions every partial signature is honest where it arrives.
proof fn lemma_honest_partials(
    sess: Seq<SignSession>,
    zs: Seq<Seq<Vec<Scalar>>>,
    signers: Seq<usize>,
    polys: Seq<Seq<nat>>,
    offs: Seq<nat>,
    xis: Seq<nat>,
)
    requires
        signing_sessions(sess, zs, signers, offs),
        signing_exchanged(sess, zs, offs.len()),
        signing_keyed(sess, signers, polys, offs, xis),
        sess.len() >= 1,
        polys.len() >= 1,
        polys[0].len() >= 1,
        forall|q: int, t: int|
            0 <= q < sess.len() && 0 <= t < offs.len() ==> #[trigger] sess[q].challenges@[t].value()
                == sess[0].challenges@[t].value(),
    ensures
        forall|q: int| 0 <= q < sess.len() ==> (#[trigger] sess[q]).partials_honest(zs[q]),
{
    assert forall|q: int| 0 <= q < sess.len() implies (#[trigger] sess[q]).partials_honest(zs[q]) by {
        lemma_session_at(sess, zs, signers, offs, q);
        let a = sess[q];
        assert forall|k: int, t: int|
            0 <= k < a.others@.len() && 0 <= t < a.tasks() implies #[trigger] a.partial_honest_for_some(
            zs[q],
            k,
            t,
        ) by {
            let p = peer_slot(a.my_pos, k);
            lemma_session_at(sess, zs, signers, offs, p);
            lemma_exchanged_at(sess, zs, offs.len(), q, k, t);
            lemma_keyed_at(sess, signers, polys, offs, xis, q, t);
            lemma_keyed_at(sess, signers, polys, offs, xis, p, t);
            let b = sess[p];
            lemma_own_nonce(b, t);
            assert(sess[q].challenges@[t].value() == sess[0].challenges@[t].value());
            assert(sess[p].challenges@[t].value() == sess[0].challenges@[t].value());
            assert(a.others@[k] == signers[p]);
            lemma_honest_partial(a, zs[q], b, k, t, polys, xis[p], offs[t]);
        }
    }
}


/// In honest sessions every aggregate is honest.
/// In honest sessions, the partial signature that signer `q` received from
/// its peer `k` for task `t` is that peer's `r + c·lambda·x`.
proof fn lemma_peer_response_at(
    sess: Seq<SignSession>,
    zs: Seq<Seq<Vec<Scalar>>>,
    signers: Seq<usize>,
    offs: Seq<nat>,
    q: int,
    k: int,
    t: int,
)
    requires
        signing_sessions(sess, zs, signers, offs),
        signing_exchanged(sess, zs, offs.len()),
        sess.len() >= 1,
        forall|q2: int, t2: int|
            0 <= q2 < sess.len() && 0 <= t2 < offs.len() ==> #[trigger] sess[q2].challenges@[t2].value()
                == sess[0].challenges@[t2].value(),
        0 <= q < sess.len(),
        0 <= t < offs.len(),
        0 <= k < sess[q].others@.len(),
    ensures
        zs[q][k]@[t].value() == (task_nonces(sess, t)[peer_slot(sess[q].my_pos, k)]
            + sess[q].challenges@[t].value() * lagrange_coefficient(
            sess[q].others@[k],
            sess[q].signers@,
        ) * task_shares(sess, t)[peer_slot(sess[q].my_pos, k)]) % group_order(),
{
    lemma_session_at(sess, zs, signers, offs, q);
    let a = sess[q];
    let p = peer_slot(a.my_pos, k);
    lemma_session_at(sess, zs, signers, offs, p);
    lemma_exchanged_at(sess, zs, offs.len(), q, k, t);
    let b = sess[p];
    lemma_own_response(b, t);
    lemma_own_nonce(b, t);
    assert(sess[q].challenges@[t].value() == sess[0].challenges@[t].value());
    assert(sess[p].challenges@[t].value() == sess[0].challenges@[t].value());
    assert(a.others@[k] == signers[p]);
}

/// Every signer's share of task `t` is its share of the polynomials moved by
/// the task's offset.
proof fn lemma_task_shares_tweaked(
    sess: Seq<SignSession>,
    signers: Seq<usize>,
    polys: Seq<Seq<nat>>,
    offs: Seq<nat>,
    xis: Seq<nat>,
    t: int,
)
    requires
        signing_keyed(sess, signers, polys, offs, xis),
        sess.len() == signers.len(),
        polys.len() >= 1,
        polys[0].len() >= 1,
        0 <= t < offs.len(),
    ensures
        forall|p: int|
            0 <= p < sess.len() ==> #[trigger] task_shares(sess, t)[p] == summed_value(
                tweak_polys(polys, offs[t]),
                id_value(signers[p]),
            ) % group_order(),
{
    let l = group_order() as int;
    assert forall|p: int| 0 <= p < sess.len() implies #[trigger] task_shares(sess, t)[p]
        == summed_value(tweak_polys(polys, offs[t]), id_value(signers[p])) % group_order() by {
        let id = id_value(signers[p]);
        lemma_keyed_at(sess, signers, polys, offs, xis, p, t);
        lemma_tweak_polys(polys, offs[t], id);
        let sv = summed_value(polys, id) as int;
        vstd::arithmetic::div_mod::lemma_add_mod_noop(sv, offs[t] as int, l);
        vstd::arithmetic::div_mod::lemma_mod_twice(sv, l);
        vstd::arithmetic::div_mod::lemma_small_mod(offs[t] % group_order(), group_order());
    }
}

/// In honest sessions the aggregate of signer `q` for task `t` is honest.
#[verifier::rlimit(40)]
proof fn lemma_honest_aggregate_at(
    sess: Seq<SignSession>,
    zs: Seq<Seq<Vec<Scalar>>>,
    signers: Seq<usize>,
    polys: Seq<Seq<nat>>,
    th: nat,
    offs: Seq<nat>,
    xis: Seq<nat>,
    q: int,
    t: int,
)
    requires
        signing_sessions(sess, zs, signers, offs),
        signing_exchanged(sess, zs, offs.len()),
        signing_keyed(sess, signers, polys, offs, xis),
        sess.len() >= 1,
        th >= 1,
        signers.len() >= th,
        polys.len() >= 1,
        forall|p: int| 0 <= p < polys.len() ==> #[trigger] polys[p].len() == th,
        forall|p: int|
            0 <= p < signers.len() ==> has_inverse(#[trigger] lagrange_den(signers[p], signers)),
        forall|q2: int, t2: int|
            0 <= q2 < sess.len() && 0 <= t2 < offs.len() ==> #[trigger] sess[q2].aggregate_points@[t2]@
                == gmul(nat_sum(task_nonces(sess, t2)) as int),
        forall|q2: int, t2: int|
            0 <= q2 < sess.len() && 0 <= t2 < offs.len() ==> #[trigger] sess[q2].challenges@[t2].value()
                == sess[0].challenges@[t2].value(),
        0 <= q < sess.len(),
        0 <= t < offs.len(),
    ensures
        sess[q].aggregate_honest(zs[q], t),
{
    lemma_session_at(sess, zs, signers, offs, q);
    lemma_keyed_at(sess, signers, polys, offs, xis, q, t);
    let a = sess[q];
    let tp = tweak_polys(polys, offs[t]);
    let xv = task_shares(sess, t);
    assert forall|p: int| 0 <= p < tp.len() implies #[trigger] tp[p].len() == th by {
        assert(polys[p].len() == th);
    }
    lemma_task_shares_tweaked(sess, signers, polys, offs, xis, t);
    assert forall|k: int| 0 <= k < a.others@.len() implies #[trigger] zs[q][k]@[t].value() == (
    task_nonces(sess, t)[peer_slot(a.my_pos, k)] + a.challenges@[t].value()
        * lagrange_coefficient(a.others@[k], a.signers@) * xv[peer_slot(a.my_pos, k)])
        % group_order() by {
        lemma_peer_response_at(sess, zs, signers, offs, q, k, t);
    }
    lemma_tweak_polys(polys, offs[t], 0);
    lemma_own_nonce(a, t);
    lemma_honest_aggregate(a, zs[q], t, tp, th, task_nonces(sess, t), xv);
}

/// In honest sessions every aggregate is honest.
proof fn lemma_honest_aggregates(
    sess: Seq<SignSession>,
    zs: Seq<Seq<Vec<Scalar>>>,
    signers: Seq<usize>,
    polys: Seq<Seq<nat>>,
    th: nat,
    offs: Seq<nat>,
    xis: Seq<nat>,
)
    requires
        signing_sessions(sess, zs, signers, offs),
        signing_exchanged(sess, zs, offs.len()),
        signing_keyed(sess, signers, polys, offs, xis),
        sess.len() >= 1,
        th >= 1,
        signers.len() >= th,
        polys.len() >= 1,
        forall|p: int| 0 <= p < polys.len() ==> #[trigger] polys[p].len() == th,
        forall|q: int|
            0 <= q < signers.len() ==> has_inverse(#[trigger] lagrange_den(signers[q], signers)),
        forall|q: int, t: int|
            0 <= q < sess.len() && 0 <= t < offs.len() ==> #[trigger] sess[q].aggregate_points@[t]@
                == gmul(nat_sum(task_nonces(sess, t)) as int),
        forall|q: int, t: int|
            0 <= q < sess.len() && 0 <= t < offs.len() ==> #[trigger] sess[q].challenges@[t].value()
                == sess[0].challenges@[t].value(),
    ensures
        forall|q: int, t: int|
            0 <= q < sess.len() && 0 <= t < offs.len() ==> #[trigger] sess[q].aggregate_honest(
                zs[q],
                t,
            ),
{
    assert forall|q: int, t: int| 0 <= q < sess.len() && 0 <= t < offs.len() implies #[trigger] sess[
        q
    ].aggregate_honest(zs[q], t) by {
        lemma_honest_aggregate_at(sess, zs, signers, polys, th, offs, xis, q, t);
    }
}


/// Honest signing succeeds. Let `sess[q]` be the answered session of signer
/// `signers[q]` (`signing_sessions`), each having received from its peers
/// just what their sessions hold (`signing_exchanged`), and let task `t` be
/// signed under the key of the summed key-generation polynomials `polys`
/// moved by `offs[t]` (`signing_keyed`). With `th` coefficients per
/// polynomial, at most as many as there are signers, whose Lagrange
/// denominators have inverses, every signer finds every partial signature
/// and every aggregate honest, so that `sign_finish` succeeds for each of
/// them.
pub proof fn lemma_honest_signing(
    sess: Seq<SignSession>,
    zs: Seq<Seq<Vec<Scalar>>>,
    signers: Seq<usize>,
    polys: Seq<Seq<nat>>,
    th: nat,
    offs: Seq<nat>,
    xis: Seq<nat>,
)
    requires
        signing_sessions(sess, zs, signers, offs),
        signing_exchanged(sess, zs, offs.len()),
        signing_keyed(sess, signers, polys, offs, xis),
        th >= 1,
        signers.len() >= th,
        polys.len() >= 1,
        forall|p: int| 0 <= p < polys.len() ==> #[trigger] polys[p].len() == th,
        forall|q: int|
            0 <= q < signers.len() ==> has_inverse(#[trigger] lagrange_den(signers[q], signers)),
    ensures
        forall|q: int| 0 <= q < sess.len() ==> (#[trigger] sess[q]).partials_honest(zs[q]),
        forall|q: int, t: int|
            0 <= q < sess.len() && 0 <= t < offs.len() ==> #[trigger] sess[q].aggregate_honest(
                zs[q],
                t,
            ),
{
    assert(polys[0].len() == th);
    lemma_honest_sessions_agree(sess, zs, signers, polys, offs, xis);
    lemma_honest_partials(sess, zs, signers, polys, offs, xis);
    lemma_honest_aggregates(sess, zs, signers, polys, th, offs, xis);
}

} // verus!
