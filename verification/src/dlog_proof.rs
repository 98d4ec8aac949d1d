//! Schnorr proof of knowledge of a discrete logarithm: that the prover knows
//! `w` with `S = w·G`.
use crate::curve::{
    basepoint_encoding, basepoint_mul, bytes_mod_order, gmul, group_order,
    lemma_bytes_mod_order_reads_whole, lemma_mod_undo,
    scalar_enc, subgroup_mul, subgroup_sub, Point, Scalar,
};
use crate::encoding::{concat, le_nat};
use crate::error::Error;
use crate::hash::{blake2b512, blake2b512_digest};
use vstd::prelude::*;

verus! {

/// A proof that its maker knows the discrete logarithm of some point:
/// the nonce commitment `rG` and the response `z`.
#[allow(non_snake_case)]
#[derive(Clone, Copy, Debug, PartialEq, Eq)]
pub struct DLogProof {
    pub rG: Point,
    pub z: Scalar,
}

/// The Fiat-Shamir challenge `H(G || R || S)`, the BLAKE2b-512 digest of the
/// three encodings read as a scalar.
pub open spec fn dlog_challenge(r: Seq<u8>, s: Seq<u8>) -> nat {
    bytes_mod_order(blake2b512(basepoint_encoding() + r + s))
}

/// The check that `dlog_verify` makes: `R == z·G - c·S`.
pub open spec fn dlog_proof_valid(proof: DLogProof, s: Seq<u8>) -> bool {
    proof.rG@ == subgroup_sub(
        basepoint_mul(proof.z@),
        subgroup_mul(s, scalar_enc(dlog_challenge(proof.rG@, s))),
    )
}

/// `proof` is an honest proof for the discrete logarithm `w`: made with some
/// nonce `n` as `(n·G, c·w + n)`, `c` being the challenge on `n·G` and `w·G`.
pub open spec fn honest_proof(proof: DLogProof, w: int) -> bool {
    exists|n: int|
        proof.rG@ == #[trigger] gmul(n) && proof.z.value() as int == (dlog_challenge(
            proof.rG@,
            gmul(w),
        ) * w + n) % (group_order() as int)
}

/// The challenge is Fiat-Shamir on `G || R || S` in that order (the
/// basepoint, then the nonce commitment, then the statement): the whole
/// 64-byte BLAKE2b-512 digest read as a little-endian number modulo the group
/// order; so a proof is valid exactly when `R == z·G - c·S` for that `c`.
pub proof fn lemma_dlog_challenge_is_fiat_shamir(proof: DLogProof, s: Seq<u8>)
    requires
        blake2b512(basepoint_encoding() + proof.rG@ + s).len() == 64,
    ensures
        dlog_challenge(proof.rG@, s) == le_nat(blake2b512(basepoint_encoding() + proof.rG@ + s))
            % group_order(),
        dlog_proof_valid(proof, s) <==> proof.rG@ == subgroup_sub(
            basepoint_mul(proof.z@),
            subgroup_mul(
                s,
                scalar_enc(
                    le_nat(blake2b512(basepoint_encoding() + proof.rG@ + s)) % group_order(),
                ),
            ),
        ),
{
    lemma_bytes_mod_order_reads_whole(blake2b512(basepoint_encoding() + proof.rG@ + s));
}

fn challenge(r: &Point, s: &Point) -> (c: Scalar)
    ensures
        c.value() == dlog_challenge(r@, s@),
        blake2b512(basepoint_encoding() + r@ + s@).len() == 64,
        c.value() == le_nat(blake2b512(basepoint_encoding() + r@ + s@)) % group_order(),
        c@ == scalar_enc(c.value()),
{
    let g = Point::generator().to_bytes();
    let rb = r.to_bytes();
    let sb = s.to_bytes();
    let gr = concat(&g, &rb);
    let grs = concat(gr.as_slice(), &sb);
    let digest = blake2b512_digest(grs.as_slice());
    Scalar::from_bytes_mod_order(digest.as_slice())
}

/// Proves knowledge of `w` with the nonce `r`: returns `S = w·G` and the proof
/// `(r·G, c·w + r)` where `c` is the challenge on `r·G` and `S`.
pub fn dlog_prove_with_nonce(w: &Scalar, r: &Scalar) -> (res: (Point, DLogProof))
    ensures
        res.0@ == basepoint_mul(w@),
        res.1.rG@ == basepoint_mul(r@),
        res.0@ == gmul(w.value() as int),
        res.1.rG@ == gmul(r.value() as int),
        honest_proof(res.1, w.value() as int),
        res.1.z.value() == (dlog_challenge(res.1.rG@, res.0@) * w.value() + r.value())
            % group_order(),
        res.1.z.value() == ((le_nat(blake2b512(basepoint_encoding() + res.1.rG@ + res.0@))
            % group_order()) * w.value() + r.value()) % group_order(),
{
    let wg = Point::base_mul(w);
    let rg = Point::base_mul(r);
    let c = challenge(&rg, &wg);
    let cw = c.mul(w);
    let z = cw.add(r);
    proof {
        vstd::arithmetic::div_mod::lemma_add_mod_noop(
            (c.value() * w.value()) as int,
            r.value() as int,
            group_order() as int,
        );
        vstd::arithmetic::div_mod::lemma_small_mod(r.value(), group_order());
    }
    (wg, DLogProof { rG: rg, z })
}

/// Proves knowledge of `w` with a fresh random nonce: returns `S = w·G` and a
/// proof made as `dlog_prove_with_nonce` makes it, for some nonce.
pub fn dlog_prove(w: &Scalar) -> (res: (Point, DLogProof))
    ensures
        res.0@ == basepoint_mul(w@),
        res.0@ == gmul(w.value() as int),
        honest_proof(res.1, w.value() as int),
        exists|r: Scalar|
            res.1.rG@ == basepoint_mul(r@) && res.1.rG@ == gmul(r.value() as int)
                && res.1.z.value() == (dlog_challenge(
                res.1.rG@,
                res.0@,
            ) * w.value() + r.value()) % group_order(),
{
    let r = Scalar::random();
    dlog_prove_with_nonce(w, &r)
}

/// Verifies a proof of knowledge of the discrete logarithm of `s`: succeeds
/// exactly when `rG == z·G - c·S`.
#[allow(non_snake_case)]
pub fn dlog_verify(proof: &DLogProof, s: &Point) -> (r: Result<(), Error>)
    ensures
        r is Ok <==> dlog_proof_valid(*proof, s@),
        r is Ok <==> proof.rG@ == subgroup_sub(
            basepoint_mul(proof.z@),
            subgroup_mul(
                s@,
                scalar_enc(
                    le_nat(blake2b512(basepoint_encoding() + proof.rG@ + s@)) % group_order(),
                ),
            ),
        ),
        r matches Err(e) ==> e == Error::InvalidDLogProof,
        forall|w: int| s@ == #[trigger] gmul(w) && honest_proof(*proof, w) ==> r is Ok,
{
    let c = challenge(&proof.rG, s);
    let zg = Point::base_mul(&proof.z);
    let cs = s.mul(&c);
    let rhs = zg.sub(&cs);
    proof {
        assert forall|w: int| s@ == #[trigger] gmul(w) && honest_proof(*proof, w) implies rhs@
            == proof.rG@ by {
            let n = choose|n: int|
                proof.rG@ == #[trigger] gmul(n) && proof.z.value() as int == (dlog_challenge(
                    proof.rG@,
                    gmul(w),
                ) * w + n) % (group_order() as int);
            let cv = c.value() as int;
            assert(cs@ == gmul(w * cv));
            assert(rhs@ == gmul(proof.z.value() as int - w * cv));
            lemma_mod_undo(proof.z.value() as int, cv, w, n);
        }
    }
    if proof.rG.equals(&rhs) {
        Ok(())
    } else {
        Err(Error::InvalidDLogProof)
    }
}

} // verus!
