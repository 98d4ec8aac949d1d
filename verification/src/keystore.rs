//! The key share that keygen leaves with one party.
use crate::curve::{gmul, identity_encoding, subgroup_add, Point, Scalar};
use crate::collections::strictly_increasing;
use crate::polynomial::{commits_to, encodings, scheme_commits_to};
use crate::sums::{column, nat_sum};
use vstd::prelude::*;

verus! {

/// The Feldman commitments `F_j(X)` of one player `j`: `coeffs[k]` commits to
/// the coefficient of `X^k` of `j`'s polynomial.
#[derive(Clone, Debug, PartialEq, Eq)]
pub struct PlayerCommitments {
    pub player: usize,
    pub coeffs: Vec<Point>,
}

/// The players of a scheme, in its order.
pub open spec fn scheme_players(vss: Seq<PlayerCommitments>) -> Seq<usize> {
    vss.map_values(|e: PlayerCommitments| e.player)
}

/// A scheme lists each player once, in increasing order, each with at least
/// one commitment.
pub open spec fn scheme_wf(vss: Seq<PlayerCommitments>) -> bool {
    &&& strictly_increasing(scheme_players(vss))
    &&& forall|k: int| 0 <= k < vss.len() ==> #[trigger] vss[k].coeffs@.len() >= 1
}

/// The commitments of a scheme as point encodings, by player in the
/// scheme's order.
pub open spec fn scheme_coeffs(vss: Seq<PlayerCommitments>) -> Seq<Seq<Seq<u8>>> {
    vss.map_values(|e: PlayerCommitments| encodings(e.coeffs@))
}

/// The sum of the constant-term commitments, from the identity and in order:
/// the public key.
pub open spec fn scheme_public_key(coms: Seq<Seq<Seq<u8>>>) -> Seq<u8>
    decreases coms.len(),
{
    if coms.len() == 0 {
        identity_encoding()
    } else {
        subgroup_add(scheme_public_key(coms.drop_last()), coms.last()[0])
    }
}

/// One party's key share.
#[derive(Clone, Debug, PartialEq, Eq)]
pub struct Keystore {
    /// The party's id.
    pub i: usize,
    /// The party's additive contribution `u_i` to the secret, as the
    /// big-endian digits of an integer.
    pub ui: Vec<u8>,
    /// The party's share `x_i` of the secret.
    pub xi: Scalar,
    /// The commitments of every player, by player.
    pub vss_scheme: Vec<PlayerCommitments>,
    pub chain_code: [u8; 32],
    pub aux: Vec<u8>,
}

impl Keystore {
    /// The commitments list each player once, in increasing order, each with
    /// at least one commitment.
    pub open spec fn wf(&self) -> bool {
        scheme_wf(self.vss_scheme@)
    }

    /// Whether `wf` holds.
    pub fn is_well_formed(&self) -> (r: bool)
        ensures
            r == self.wf(),
    {
        scheme_is_well_formed(&self.vss_scheme)
    }

    /// The public key: the sum of every player's constant-term commitment.
    pub fn public_key(&self) -> (r: Point)
        requires
            self.wf(),
        ensures
            r@ == scheme_public_key(scheme_coeffs(self.vss_scheme@)),
            forall|polys: Seq<Seq<nat>>|
                #[trigger] scheme_commits_to(scheme_coeffs(self.vss_scheme@), polys) ==> r@ == gmul(
                    nat_sum(column(polys, 0)) as int,
                ),
    {
        scheme_sum_constant_terms(&self.vss_scheme)
    }
}

/// Whether a scheme is well formed.
pub fn scheme_is_well_formed(vss: &Vec<PlayerCommitments>) -> (r: bool)
    ensures
        r == scheme_wf(vss@),
{
    let n = vss.len();
    let mut k: usize = 0;
    while k < n
        invariant
            n == vss@.len(),
            k <= n,
            forall|a: int| 0 <= a < k ==> #[trigger] vss@[a].coeffs@.len() >= 1,
            forall|a: int, b: int|
                0 <= a < b < k ==> #[trigger] scheme_players(vss@)[a] < #[trigger] scheme_players(
                    vss@,
                )[b],
        decreases n - k,
    {
        if vss[k].coeffs.len() == 0 {
            return false;
        }
        if k > 0 && vss[k - 1].player >= vss[k].player {
            proof {
                assert(scheme_players(vss@)[k - 1] == vss@[k - 1].player);
                assert(scheme_players(vss@)[k as int] == vss@[k as int].player);
            }
            return false;
        }
        proof {
            assert forall|a: int, b: int|
                0 <= a < b < k + 1 implies #[trigger] scheme_players(vss@)[a]
                < #[trigger] scheme_players(vss@)[b] by {
                if b == k && a < k - 1 {
                    assert(scheme_players(vss@)[a] < scheme_players(vss@)[k - 1]);
                }
            }
        }
        k = k + 1;
    }
    true
}

/// The sum, from the identity and in order, of the constant-term commitments.
pub fn scheme_sum_constant_terms(vss: &Vec<PlayerCommitments>) -> (r: Point)
    requires
        forall|k: int| 0 <= k < vss@.len() ==> #[trigger] vss@[k].coeffs@.len() >= 1,
    ensures
        r@ == scheme_public_key(scheme_coeffs(vss@)),
        forall|polys: Seq<Seq<nat>>|
            #[trigger] scheme_commits_to(scheme_coeffs(vss@), polys) ==> r@ == gmul(
                nat_sum(column(polys, 0)) as int,
            ),
{
    let mut acc = Point::identity();
    let n = vss.len();
    let mut k: usize = 0;
    proof {
        assert(vss@.take(0) =~= Seq::<PlayerCommitments>::empty());
    }
    while k < n
        invariant
            n == vss@.len(),
            k <= n,
            forall|a: int| 0 <= a < vss@.len() ==> #[trigger] vss@[a].coeffs@.len() >= 1,
            acc@ == scheme_public_key(scheme_coeffs(vss@.take(k as int))),
            forall|polys: Seq<Seq<nat>>|
                #[trigger] scheme_commits_to(scheme_coeffs(vss@), polys) ==> acc@ == gmul(
                    nat_sum(column(polys.take(k as int), 0)) as int,
                ),
        decreases n - k,
    {
        let next = acc.add(&vss[k].coeffs[0]);
        proof {
            assert(scheme_coeffs(vss@.take(k + 1)).drop_last() =~= scheme_coeffs(vss@.take(k as int)));
            assert forall|polys: Seq<Seq<nat>>| #[trigger] scheme_commits_to(
                scheme_coeffs(vss@),
                polys,
            ) implies next@ == gmul(nat_sum(column(polys.take(k + 1), 0)) as int) by {
                assert(commits_to(scheme_coeffs(vss@)[k as int], polys[k as int]));
                assert(scheme_coeffs(vss@)[k as int] == encodings(vss@[k as int].coeffs@));
                assert(encodings(vss@[k as int].coeffs@)[0] == vss@[k as int].coeffs@[0]@);
                assert(vss@[k as int].coeffs@[0]@ == gmul(polys[k as int][0] as int));
                assert(column(polys.take(k + 1), 0).drop_last() =~= column(polys.take(k as int), 0));
            }
        }
        acc = next;
        k = k + 1;
    }
    proof {
        assert(vss@.take(n as int) =~= vss@);
        assert forall|polys: Seq<Seq<nat>>| #[trigger] scheme_commits_to(scheme_coeffs(vss@), polys)
            implies acc@ == gmul(nat_sum(column(polys, 0)) as int) by {
            assert(polys.take(n as int) =~= polys);
        }
    }
    acc
}

} // verus!
