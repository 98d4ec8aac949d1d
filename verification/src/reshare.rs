//! Threshold EdDSA share rotation (reshare), one party's side. The player
//! set and the threshold stay as they are.
//!
//! * Round 0a (broadcast): every party announces whether it holds a share;
//!   a holder also announces the public key and chain code of its keystore.
//! * Round 0b (peer to peer): every holder splits `lambda_i·x_i` at random
//!   into one additive piece per player and sends each its piece.
//! * Each party then runs key generation with the sum of the pieces it
//!   received as its contribution and the agreed chain code, and checks
//!   that the new public key is the announced one.
//!
//! A party that does not announce a share has lost it.
use crate::aes::bytes_eq;
use crate::collections::{
    lemma_increasing_no_duplicates, lemma_increasing_set_eq, position_of, remove_at, sorted_ids,
    strictly_increasing, without,
};
use crate::curve::{gmul, group_order, Point, Scalar};
use crate::encoding::be_nat;
use crate::error::Error;
use crate::keygen::{keygen_begin, keygen_chain_code, KeygenShared, KeygenStart};
use crate::keystore::{scheme_coeffs, scheme_players, scheme_public_key, Keystore, PlayerCommitments};
use crate::polynomial::{
    id_value, lagrange_coefficient, lagrange_den, lagrange_lambda, scheme_commits_to, summed_value,
    values,
};
use crate::curve::has_inverse;
use crate::keygen::lemma_shares_reconstruct_public_key;
use crate::sums::{
    column, column_sums, lemma_nat_sum_mod, lemma_nat_sum_remove, lemma_sum_interchange, nat_sum,
    row_sums,
};
use std::collections::HashSet;
use vstd::arithmetic::div_mod::{lemma_add_mod_noop, lemma_small_mod, lemma_sub_mod_noop};
use vstd::prelude::*;

verus! {

/// What a party announces in round 0a.
#[derive(Clone, Copy, Debug, PartialEq, Eq)]
pub struct AliveAnnounce {
    /// The party holds a share.
    pub has_share: bool,
    /// A holder's public key and chain code.
    pub pk_and_cc: Option<(Point, [u8; 32])>,
}

/// Splits `s` into `randoms@.len() + 1` additive pieces: the random values
/// and, last, `s` minus their sum. The pieces add up to `s`.
pub fn split_additively(s: &Scalar, randoms: &[Scalar]) -> (pieces: Vec<Scalar>)
    ensures
        pieces@.len() == randoms@.len() + 1,
        forall|k: int| 0 <= k < randoms@.len() ==> #[trigger] pieces@[k] == randoms@[k],
        nat_sum(values(pieces@)) % group_order() == s.value(),
{
    let mut pieces: Vec<Scalar> = Vec::new();
    let mut running = *s;
    let ghost sv = s.value();
    let n = randoms.len();
    let mut k: usize = 0;
    s.reduced();
    proof {
        lemma_small_mod(sv, group_order());
        assert(values(pieces@) =~= Seq::<nat>::empty());
    }
    while k < n
        invariant
            k <= n,
            n == randoms@.len(),
            sv < group_order(),
            pieces@.len() == k,
            forall|a: int| 0 <= a < k ==> #[trigger] pieces@[a] == randoms@[a],
            running.value() == (sv - nat_sum(values(pieces@))) % (group_order() as int),
            running.value() < group_order(),
        decreases n - k,
    {
        let r = randoms[k];
        let next = running.sub(&r);
        let ghost before = values(pieces@);
        pieces.push(r);
        proof {
            let l = group_order() as int;
            assert(values(pieces@).drop_last() =~= before);
            assert(values(pieces@).last() == r.value());
            lemma_sub_mod_noop(sv - nat_sum(before), r.value() as int, l);
            lemma_small_mod(r.value(), group_order());
            lemma_small_mod(running.value(), group_order());
            assert((sv - nat_sum(before)) - r.value() == sv - nat_sum(values(pieces@)));
        }
        running = next;
        k = k + 1;
    }
    let ghost before = values(pieces@);
    pieces.push(running);
    proof {
        let l = group_order() as int;
        assert(values(pieces@).drop_last() =~= before);
        assert(values(pieces@).last() == running.value());
        lemma_add_mod_noop(nat_sum(before) as int, sv - nat_sum(before), l);
        lemma_small_mod(nat_sum(before) % group_order(), group_order());
        vstd::arithmetic::div_mod::lemma_add_mod_noop_right(nat_sum(before) as int, sv - nat_sum(before), l);
        assert(nat_sum(before) + (sv - nat_sum(before)) == sv);
        lemma_small_mod(sv, group_order());
    }
    pieces
}

/// One party's reshare after round 0a is prepared.
pub struct ReshareStart {
    /// This party's id.
    pub i: usize,
    /// The threshold, unchanged by the reshare.
    pub th: usize,
    /// The players, in increasing order.
    pub players: Vec<usize>,
    /// The position of this party among the players.
    pub my_pos: usize,
    /// The other players, in increasing order.
    pub others: Vec<usize>,
    /// This party's old share `x_i`, where it still holds one.
    pub old_share: Option<Scalar>,
    /// What this party announces in round 0a.
    pub announce: AliveAnnounce,
}

impl ReshareStart {
    /// The players are listed once each, in increasing order, with this party
    /// at `my_pos`; the announcement claims a share, with a public key and
    /// chain code, exactly when this party holds one.
    pub open spec fn wf(&self) -> bool {
        &&& strictly_increasing(self.players@)
        &&& self.my_pos < self.players@.len()
        &&& self.players@[self.my_pos as int] == self.i
        &&& self.others@ == self.players@.remove(self.my_pos as int)
        &&& 1 <= self.th
        &&& self.announce.has_share == (self.old_share is Some)
        &&& (self.announce.pk_and_cc is Some) == (self.old_share is Some)
    }
}

/// Whether the scheme lists exactly the players `ids`, in their order.
fn scheme_lists(vss: &Vec<PlayerCommitments>, ids: &[usize]) -> (r: bool)
    ensures
        r == (scheme_players(vss@) == ids@),
{
    if vss.len() != ids.len() {
        proof {
            assert(scheme_players(vss@).len() != ids@.len());
        }
        return false;
    }
    let n = vss.len();
    let mut k: usize = 0;
    while k < n
        invariant
            n == vss@.len(),
            n == ids@.len(),
            k <= n,
            forall|a: int| 0 <= a < k ==> #[trigger] scheme_players(vss@)[a] == ids@[a],
        decreases n - k,
    {
        if vss[k].player != ids[k] {
            proof {
                assert(scheme_players(vss@)[k as int] != ids@[k as int]);
            }
            return false;
        }
        k = k + 1;
    }
    proof {
        assert(scheme_players(vss@) =~= ids@);
    }
    true
}

/// Whether every player of the scheme committed to exactly `th`
/// coefficients.
fn commits_to(vss: &Vec<PlayerCommitments>, th: usize) -> (r: bool)
    ensures
        r == (forall|q: int| 0 <= q < vss@.len() ==> #[trigger] vss@[q].coeffs@.len() == th),
{
    let n = vss.len();
    let mut q: usize = 0;
    while q < n
        invariant
            n == vss@.len(),
            q <= n,
            forall|a: int| 0 <= a < q ==> #[trigger] vss@[a].coeffs@.len() == th,
        decreases n - q,
    {
        if vss[q].coeffs.len() != th {
            return false;
        }
        q = q + 1;
    }
    true
}

/// A holder's keystore fits a reshare among `new_players` with threshold
/// `th`: its players are `new_players` and each committed to `th`
/// coefficients, so that the player set and the threshold stay as they are.
pub open spec fn keystore_fits(ks: &Keystore, new_players: Set<usize>, th: usize) -> bool {
    &&& scheme_players(ks.vss_scheme@).to_set() == new_players
    &&& forall|q: int|
        0 <= q < ks.vss_scheme@.len() ==> #[trigger] ks.vss_scheme@[q].coeffs@.len() == th
}

/// Round 0a for party `i` among `new_players` with threshold `th`, holding
/// `old_keystore` where it still has its share: checks the arguments and
/// prepares the announcement, which the caller sends to every other player.
/// Fails when `i` is not a player, or when the keystore's players are not
/// `new_players` or its commitments are not of `th` coefficients each.
pub fn reshare_begin(
    new_players: &HashSet<usize>,
    i: usize,
    th: usize,
    old_keystore: Option<&Keystore>,
) -> (r: Result<ReshareStart, Error>)
    requires
        old_keystore matches Some(ks) ==> strictly_increasing(scheme_players(ks.vss_scheme@)),
        new_players@.contains(i) && (old_keystore matches Some(ks) ==> keystore_fits(
            ks,
            new_players@,
            th,
        )) ==> 1 <= th,
    ensures
        (r is Err) == (!new_players@.contains(i) || (old_keystore matches Some(ks)
            && !keystore_fits(ks, new_players@, th))),
        r matches Err(e) ==> e == Error::InvalidArgument,
        r matches Ok(st) ==> {
            &&& st.wf()
            &&& st.i == i
            &&& st.th == th
            &&& st.players@.to_set() == new_players@
            &&& match old_keystore {
                None => !st.announce.has_share && st.old_share is None,
                Some(ks) => {
                    &&& st.old_share == Some(ks.xi)
                    &&& st.announce.pk_and_cc matches Some(pc)
                    &&& pc.0@ == scheme_public_key(scheme_coeffs(ks.vss_scheme@))
                    &&& pc.1 == ks.chain_code
                },
            }
        },
{
    broadcast use vstd::std_specs::hash::group_hash_axioms;

    if !new_players.contains(&i) {
        return Err(Error::InvalidArgument);
    }
    let sorted = sorted_ids(new_players);
    if let Some(ks) = old_keystore {
        let same = scheme_lists(&ks.vss_scheme, sorted.as_slice());
        proof {
            if scheme_players(ks.vss_scheme@).to_set() == new_players@ {
                lemma_increasing_set_eq(scheme_players(ks.vss_scheme@), sorted@);
            }
        }
        if !same {
            return Err(Error::InvalidArgument);
        }
        if !commits_to(&ks.vss_scheme, th) {
            return Err(Error::InvalidArgument);
        }
    }
    proof {
        assert(sorted@.to_set().contains(i));
    }
    let my_pos = match position_of(sorted.as_slice(), i) {
        Some(p) => p,
        None => {
            proof {
                assert(sorted@.to_set().contains(i) ==> sorted@.contains(i));
            }
            return Err(Error::InvalidArgument);
        },
    };
    let others = remove_at(sorted.as_slice(), my_pos);
    let (old_share, announce) = match old_keystore {
        Some(ks) => {
            proof {
                assert forall|q: int| 0 <= q < ks.vss_scheme@.len() implies #[trigger] ks.vss_scheme@[q].coeffs@.len() >= 1 by {
                    assert(ks.vss_scheme@[q].coeffs@.len() == th);
                }
            }
            let pk = ks.public_key();
            (Some(ks.xi), AliveAnnounce { has_share: true, pk_and_cc: Some((pk, ks.chain_code)) })
        },
        None => (None, AliveAnnounce { has_share: false, pk_and_cc: None }),
    };
    Ok(ReshareStart { i, th, players: sorted, my_pos, others, old_share, announce })
}

impl ReshareStart {
    /// Every player's announcement, in the players' order: this party's own
    /// and, at the other slots, what the peers sent (`peers[k]` from
    /// `others[k]`).
    pub open spec fn all_announces(&self, peers: Seq<AliveAnnounce>) -> Seq<AliveAnnounce> {
        Seq::new(
            self.players@.len(),
            |q: int|
                if q == self.my_pos {
                    self.announce
                } else if q < self.my_pos {
                    peers[q]
                } else {
                    peers[q - 1]
                },
        )
    }

    /// The players that announced a share: the active producers, in
    /// increasing order.
    pub open spec fn producer_ids(&self, peers: Seq<AliveAnnounce>) -> Seq<usize> {
        producers(self.players@, self.all_announces(peers), self.players@.len())
    }

    /// The producers' announcements, in the same order.
    pub open spec fn producer_anns(&self, peers: Seq<AliveAnnounce>) -> Seq<AliveAnnounce> {
        producer_announces(self.all_announces(peers), self.players@.len())
    }

    /// Every producer announced a public key and chain code, and all agree.
    pub open spec fn consensus(&self, peers: Seq<AliveAnnounce>) -> bool {
        forall|t: int|
            0 <= t < self.producer_ids(peers).len() ==> #[trigger] announce_agrees(
                self.producer_anns(peers),
                t,
            )
    }

    /// `e` is the error that round 0b starts with: too few producers, or
    /// else the first producer whose announcement lacks the public key and
    /// chain code or disagrees with the first producer's.
    pub open spec fn split_error(&self, peers: Seq<AliveAnnounce>, e: Error) -> bool {
        let ids = self.producer_ids(peers);
        let pa = self.producer_anns(peers);
        if ids.len() < self.th {
            e == Error::InsufficientActiveProducers
        } else {
            exists|t: int|
                0 <= t < ids.len() && !announce_agrees(pa, t) && (forall|t2: int|
                    0 <= t2 < t ==> #[trigger] announce_agrees(pa, t2)) && e == (if pa[t].pk_and_cc
                    is None {
                    Error::MalformedReshareAnnounce { peer: ids[t] }
                } else {
                    Error::InconsistentReshareAnnounce { peer: ids[t] }
                })
        }
    }
}

/// The players among the first `k` whose announcement claims a share, in
/// order.
pub open spec fn producers(players: Seq<usize>, anns: Seq<AliveAnnounce>, k: nat) -> Seq<usize>
    decreases k,
{
    if k == 0 {
        Seq::empty()
    } else {
        let rest = producers(players, anns, (k - 1) as nat);
        if anns[k - 1].has_share {
            rest.push(players[k - 1])
        } else {
            rest
        }
    }
}

/// The announcements among the first `k` that claim a share, in order.
pub open spec fn producer_announces(anns: Seq<AliveAnnounce>, k: nat) -> Seq<AliveAnnounce>
    decreases k,
{
    if k == 0 {
        Seq::empty()
    } else {
        let rest = producer_announces(anns, (k - 1) as nat);
        if anns[k - 1].has_share {
            rest.push(anns[k - 1])
        } else {
            rest
        }
    }
}

/// Whether two announced (public key, chain code) pairs agree.
pub open spec fn same_pk_and_cc(a: (Point, [u8; 32]), b: (Point, [u8; 32])) -> bool {
    a.0@ == b.0@ && a.1@ == b.1@
}

/// The `t`-th producer announced a public key and chain code, and they agree
/// with the first producer's.
pub open spec fn announce_agrees(pa: Seq<AliveAnnounce>, t: int) -> bool {
    &&& pa[t].pk_and_cc is Some
    &&& pa[0].pk_and_cc is Some
    &&& same_pk_and_cc(pa[t].pk_and_cc->0, pa[0].pk_and_cc->0)
}

/// There are no more producers than players looked at, and the producers'
/// ids and announcements run in step.
proof fn lemma_producers_len(players: Seq<usize>, anns: Seq<AliveAnnounce>, k: nat)
    ensures
        producers(players, anns, k).len() <= k,
        producers(players, anns, k).len() == producer_announces(anns, k).len(),
    decreases k,
{
    if k > 0 {
        lemma_producers_len(players, anns, (k - 1) as nat);
    }
}

/// Every announcement among the first `k` that claims a share carries the
/// public key `pk` and the chain code `cc`, so every producer's does.
proof fn lemma_producer_announces_carry(anns: Seq<AliveAnnounce>, k: nat, pk: Seq<u8>, cc: Seq<u8>)
    requires
        k <= anns.len(),
        forall|q: int|
            0 <= q < k && (#[trigger] anns[q]).has_share ==> anns[q].pk_and_cc is Some && (
            anns[q].pk_and_cc->0).0@ == pk && (anns[q].pk_and_cc->0).1@ == cc,
    ensures
        forall|t: int|
            0 <= t < producer_announces(anns, k).len() ==> (#[trigger] producer_announces(
                anns,
                k,
            )[t]).pk_and_cc is Some && (producer_announces(anns, k)[t].pk_and_cc->0).0@ == pk && (
            producer_announces(anns, k)[t].pk_and_cc->0).1@ == cc,
    decreases k,
{
    if k > 0 {
        lemma_producer_announces_carry(anns, (k - 1) as nat, pk, cc);
    }
}

/// Honest holders agree: where every announcement that claims a share
/// carries the same public key `pk` and chain code `cc` (as the keystores of
/// one key generation do), the producers reach consensus, so that
/// `reshare_split` goes on whenever there are at least `th` of them.
pub proof fn lemma_honest_announcements_agree(
    st: ReshareStart,
    peers: Seq<AliveAnnounce>,
    pk: Seq<u8>,
    cc: Seq<u8>,
)
    requires
        forall|q: int|
            0 <= q < st.players@.len() && (#[trigger] st.all_announces(peers)[q]).has_share
                ==> st.all_announces(peers)[q].pk_and_cc is Some && (st.all_announces(
                peers,
            )[q].pk_and_cc->0).0@ == pk && (st.all_announces(peers)[q].pk_and_cc->0).1@ == cc,
    ensures
        st.consensus(peers),
{
    let anns = st.all_announces(peers);
    let n = st.players@.len();
    lemma_producer_announces_carry(anns, n, pk, cc);
    lemma_producers_len(st.players@, anns, n);
    let pa = st.producer_anns(peers);
    assert forall|t: int| 0 <= t < st.producer_ids(peers).len() implies #[trigger] announce_agrees(
        pa,
        t,
    ) by {
        assert(pa[t] == producer_announces(anns, n)[t]);
        assert(pa[0] == producer_announces(anns, n)[0]);
    }
}

/// One party's reshare after round 0b.
pub struct ReshareSplit {
    pub start: ReshareStart,
    /// The active producers, in increasing order.
    pub producers: Vec<usize>,
    /// The producers other than this party, in increasing order: those whose
    /// pieces this party receives.
    pub senders: Vec<usize>,
    /// The public key the producers agree on.
    pub expected_pk: Point,
    /// The chain code the producers agree on.
    pub chain_code: [u8; 32],
    /// A producer's additive pieces of `lambda_i·x_i`, one per player in the
    /// players' order; empty where this party holds no share.
    pub pieces: Vec<Scalar>,
}

impl ReshareSplit {
    /// There are at least `th` producers; the senders are the producers other
    /// than this party; a party that holds a share is a producer and has one
    /// piece per player, the pieces adding up to `lambda_i·x_i`.
    pub open spec fn wf(&self) -> bool {
        let st = self.start;
        &&& st.wf()
        &&& st.th <= self.producers@.len() <= st.players@.len()
        &&& self.senders@ == self.producers@.filter(|j: usize| j != st.i)
        &&& st.old_share is None ==> self.pieces@.len() == 0
        &&& st.old_share matches Some(x) ==> {
            &&& self.producers@.contains(st.i)
            &&& self.pieces@.len() == st.players@.len()
            &&& nat_sum(values(self.pieces@)) % group_order() == (lagrange_coefficient(
                st.i,
                self.producers@,
            ) * x.value()) % group_order()
        }
    }
}

/// Round 0b with the random pieces `randoms`, once every peer's announcement
/// has arrived (`peer_announces[k]` from `others[k]`): collects the active
/// producers, fails when there are fewer than `th` or when their
/// announcements do not agree (on the first in increasing order that does
/// not), and, where this party holds a share, splits `lambda_i·x_i` over the
/// players. The caller sends `pieces[q]` to the player at slot `q`.
pub fn reshare_split_with(
    st: ReshareStart,
    peer_announces: Vec<AliveAnnounce>,
    randoms: &[Scalar],
) -> (r: Result<ReshareSplit, Error>)
    requires
        st.wf(),
        peer_announces@.len() == st.others@.len(),
        st.old_share is Some ==> randoms@.len() + 1 == st.players@.len(),
    ensures
        (r is Ok) == (st.producer_ids(peer_announces@).len() >= st.th && st.consensus(
            peer_announces@,
        )),
        r matches Err(e) ==> st.split_error(peer_announces@, e),
        r matches Ok(sp) ==> {
            let pa = st.producer_anns(peer_announces@);
            &&& sp.wf()
            &&& sp.start == st
            &&& sp.producers@ == st.producer_ids(peer_announces@)
            &&& sp.expected_pk@ == (pa[0].pk_and_cc->0).0@
            &&& sp.chain_code == (pa[0].pk_and_cc->0).1
            &&& st.old_share is Some ==> forall|k: int|
                0 <= k < randoms@.len() ==> #[trigger] sp.pieces@[k] == randoms@[k]
        },
{
    let n = st.players.len();
    let ghost anns = st.all_announces(peer_announces@);
    let mut prods: Vec<usize> = Vec::new();
    let mut prod_anns: Vec<AliveAnnounce> = Vec::new();
    let mut q: usize = 0;
    while q < n
        invariant
            st.wf(),
            n == st.players@.len(),
            peer_announces@.len() == st.others@.len(),
            anns == st.all_announces(peer_announces@),
            q <= n,
            prods@ == producers(st.players@, anns, q as nat),
            prod_anns@ == producer_announces(anns, q as nat),
            st.announce.has_share && q > st.my_pos ==> prods@.contains(st.i),
        decreases n - q,
    {
        let a = if q == st.my_pos {
            st.announce
        } else if q < st.my_pos {
            peer_announces[q]
        } else {
            peer_announces[q - 1]
        };
        proof {
            assert(a == anns[q as int]);
        }
        let ghost before = prods@;
        if a.has_share {
            prods.push(st.players[q]);
            prod_anns.push(a);
            proof {
                assert(prods@[prods@.len() - 1] == st.players@[q as int]);
                if st.announce.has_share && q > st.my_pos {
                    let w = choose|w: int| 0 <= w < before.len() && before[w] == st.i;
                    assert(prods@[w] == st.i);
                }
            }
        }
        q = q + 1;
    }
    proof {
        lemma_producers_len(st.players@, anns, n as nat);
    }
    if prods.len() < st.th {
        return Err(Error::InsufficientActiveProducers);
    }
    let m = prods.len();
    let first = match prod_anns[0].pk_and_cc {
        Some(pc) => pc,
        None => {
            proof {
                assert(!announce_agrees(prod_anns@, 0));
            }
            return Err(Error::MalformedReshareAnnounce { peer: prods[0] });
        },
    };
    let mut t: usize = 0;
    while t < m
        invariant
            m == prods@.len(),
            m == prod_anns@.len(),
            m >= 1,
            m >= st.th,
            prods@ == st.producer_ids(peer_announces@),
            prod_anns@ == st.producer_anns(peer_announces@),
            prod_anns@[0].pk_and_cc == Some(first),
            t <= m,
            forall|t2: int| 0 <= t2 < t ==> #[trigger] announce_agrees(prod_anns@, t2),
        decreases m - t,
    {
        match prod_anns[t].pk_and_cc {
            None => {
                proof {
                    assert(!announce_agrees(prod_anns@, t as int));
                }
                return Err(Error::MalformedReshareAnnounce { peer: prods[t] });
            },
            Some(pc) => {
                let same = pc.0.equals(&first.0) && bytes_eq(&pc.1, &first.1);
                if !same {
                    proof {
                        assert(!announce_agrees(prod_anns@, t as int));
                    }
                    return Err(Error::InconsistentReshareAnnounce { peer: prods[t] });
                }
            },
        }
        t = t + 1;
    }
    let pieces = match st.old_share {
        Some(x) => {
            let lambda = lagrange_lambda(st.i, prods.as_slice());
            let share = lambda.mul(&x);
            split_additively(&share, randoms)
        },
        None => Vec::new(),
    };
    let senders = without(prods.as_slice(), st.i);
    Ok(ReshareSplit { start: st, producers: prods, senders, expected_pk: first.0, chain_code: first.1, pieces })
}

/// Round 0b with fresh random pieces.
pub fn reshare_split(st: ReshareStart, peer_announces: Vec<AliveAnnounce>) -> (r: Result<
    ReshareSplit,
    Error,
>)
    requires
        st.wf(),
        peer_announces@.len() == st.others@.len(),
    ensures
        (r is Ok) == (st.producer_ids(peer_announces@).len() >= st.th && st.consensus(
            peer_announces@,
        )),
        r matches Err(e) ==> st.split_error(peer_announces@, e),
        r matches Ok(sp) ==> {
            let pa = st.producer_anns(peer_announces@);
            &&& sp.wf()
            &&& sp.start == st
            &&& sp.producers@ == st.producer_ids(peer_announces@)
            &&& sp.expected_pk@ == (pa[0].pk_and_cc->0).0@
            &&& sp.chain_code == (pa[0].pk_and_cc->0).1
        },
{
    let mut randoms: Vec<Scalar> = Vec::new();
    if st.old_share.is_some() {
        let n = st.players.len();
        let mut k: usize = 1;
        while k < n
            invariant
                1 <= k <= n,
                n == st.players@.len(),
                randoms@.len() + 1 == k,
            decreases n - k,
        {
            randoms.push(Scalar::random());
            k = k + 1;
        }
    }
    reshare_split_with(st, peer_announces, randoms.as_slice())
}

/// The contribution `u_i` that this party brings to key generation: its own
/// piece, where it split a share, plus the pieces received, modulo the group
/// order.
pub open spec fn reshare_ui(sp: &ReshareSplit, received: Seq<Scalar>) -> nat {
    let own: nat = if sp.start.old_share is Some {
        sp.pieces@[sp.start.my_pos as int].value()
    } else {
        0
    };
    (own + nat_sum(values(received))) % group_order()
}

/// Once every sender's piece has arrived (`received[k]` from `senders[k]`):
/// adds the pieces up to `u_i` and starts key generation with it and the
/// agreed chain code. `players` is the set of players the reshare began
/// with.
pub fn reshare_keygen_begin(
    sp: &ReshareSplit,
    players: &HashSet<usize>,
    received: &[Scalar],
) -> (r: Result<KeygenStart, Error>)
    requires
        sp.wf(),
        players@ == sp.start.players@.to_set(),
        received@.len() == sp.senders@.len(),
    ensures
        r matches Ok(ks) && {
            &&& ks.wf()
            &&& ks.i == sp.start.i
            &&& ks.th == sp.start.th
            &&& ks.players@ == sp.start.players@
            &&& be_nat(ks.ui_digits@) == reshare_ui(sp, received@)
            &&& ks.ui.value() == reshare_ui(sp, received@)
            &&& ks.chain_code == Some(sp.chain_code)
        },
{
    let ghost vals = values(received@);
    let mut ui = match sp.start.old_share {
        Some(_) => sp.pieces[sp.start.my_pos],
        None => Scalar::zero(),
    };
    let ghost own = ui.value();
    proof {
        assert(vals.take(0) =~= Seq::<nat>::empty());
    }
    ui.reduced();
    proof {
        lemma_small_mod(own, group_order());
    }
    let m = received.len();
    let mut k: usize = 0;
    while k < m
        invariant
            m == received@.len(),
            vals == values(received@),
            k <= m,
            ui.value() == (own + nat_sum(vals.take(k as int))) % group_order(),
        decreases m - k,
    {
        let next = ui.add(&received[k]);
        proof {
            let l = group_order() as int;
            assert(vals.take(k + 1).drop_last() =~= vals.take(k as int));
            assert(vals.take(k + 1).last() == received@[k as int].value());
            lemma_add_mod_noop(
                (own + nat_sum(vals.take(k as int))) as int,
                received@[k as int].value() as int,
                l,
            );
            lemma_small_mod(received@[k as int].value(), group_order());
            lemma_small_mod(ui.value(), group_order());
        }
        ui = next;
        k = k + 1;
    }
    proof {
        assert(vals.take(m as int) =~= vals);
        lemma_increasing_no_duplicates(sp.start.players@);
        sp.start.players@.unique_seq_to_set();
        assert(sp.start.players@.contains(sp.start.i));
    }
    let digits = ui.to_be_digits();
    let r = keygen_begin(players, sp.start.i, sp.start.th, Some(digits), Some(sp.chain_code));
    proof {
        if r is Ok {
            lemma_increasing_set_eq(r->Ok_0.players@, sp.start.players@);
            lemma_small_mod(ui.value(), group_order());
        }
    }
    r
}

/// The last step, once key generation has produced `ks`: the reshare
/// succeeds when the new public key is the one the producers announced.
pub fn reshare_finish(sp: &ReshareSplit, ks: Keystore) -> (r: Result<Keystore, Error>)
    requires
        ks.wf(),
    ensures
        (r is Ok) == (scheme_public_key(scheme_coeffs(ks.vss_scheme@)) == sp.expected_pk@),
        r matches Ok(k) ==> k == ks,
        r matches Err(e) ==> e == Error::InvalidKeyRefresh,
        forall|polys: Seq<Seq<nat>>, sigma: int|
            #![trigger scheme_commits_to(scheme_coeffs(ks.vss_scheme@), polys), gmul(sigma)]
            scheme_commits_to(scheme_coeffs(ks.vss_scheme@), polys) && sp.expected_pk@ == gmul(
                sigma,
            ) && (nat_sum(column(polys, 0)) as int) % (group_order() as int) == sigma % (
            group_order() as int) ==> r is Ok,
{
    let pk = ks.public_key();
    if pk.equals(&sp.expected_pk) {
        Ok(ks)
    } else {
        Err(Error::InvalidKeyRefresh)
    }
}

/// A reshare that goes through keeps the public key: once the producers
/// agree, a new keystore that `reshare_finish` accepts has the public key
/// that every producer announced.
pub proof fn lemma_reshare_keeps_public_key(
    st: ReshareStart,
    peers: Seq<AliveAnnounce>,
    sp: ReshareSplit,
    new_pk: Seq<u8>,
)
    requires
        st.consensus(peers),
        sp.producers@ == st.producer_ids(peers),
        sp.expected_pk@ == (st.producer_anns(peers)[0].pk_and_cc->0).0@,
        new_pk == sp.expected_pk@,
    ensures
        forall|t: int|
            0 <= t < sp.producers@.len() ==> (#[trigger] st.producer_anns(peers)[t].pk_and_cc->0).0@
                == new_pk,
{
    assert forall|t: int| 0 <= t < sp.producers@.len() implies (
    #[trigger] st.producer_anns(peers)[t].pk_and_cc->0).0@ == new_pk by {
        assert(announce_agrees(st.producer_anns(peers), t));
    }
}

/// Resharing keeps the chain code: key generation started with the agreed
/// chain code gives the new keystore that chain code, whatever its public
/// key.
pub proof fn lemma_reshare_keeps_chain_code(sp: ReshareSplit, start: KeygenStart, pk: Seq<u8>)
    requires
        start.chain_code == Some(sp.chain_code),
    ensures
        keygen_chain_code(start.chain_code, pk) == sp.chain_code@,
{
}

/// A player's `u_k` is the sum of the column of pieces addressed to it:
/// where `col` lists, in the producers' order, what each producer handed this
/// player (its own piece at `t` where it is a producer itself, the pieces
/// received elsewhere), `reshare_ui` is the sum of `col`.
pub proof fn lemma_reshare_ui_sums_column(
    sp: ReshareSplit,
    received: Seq<Scalar>,
    col: Seq<nat>,
    t: int,
)
    requires
        sp.wf(),
        sp.start.old_share is Some ==> {
            &&& 0 <= t < col.len()
            &&& col[t] == sp.pieces@[sp.start.my_pos as int].value()
            &&& col.remove(t) == values(received)
        },
        sp.start.old_share is None ==> col == values(received),
    ensures
        reshare_ui(&sp, received) == nat_sum(col) % group_order(),
{
    if sp.start.old_share is Some {
        lemma_nat_sum_remove(col, t);
    }
}

/// Resharing keeps the secret. Let `pieces[p][k]` be what producer `p`
/// hands the player at slot `k`, each producer's pieces adding up to its
/// share `shares[p]` (its `lambda_p·x_p`), and let each player's `u_k` be
/// the sum of the pieces it was handed, all modulo the group order. Then the
/// players' `u_k` add up to the sum of the producers' shares.
pub proof fn lemma_reshare_keeps_secret(pieces: Seq<Seq<nat>>, shares: Seq<nat>, uis: Seq<nat>)
    requires
        pieces.len() == shares.len(),
        forall|p: int| 0 <= p < pieces.len() ==> #[trigger] pieces[p].len() == uis.len(),
        forall|p: int|
            0 <= p < pieces.len() ==> nat_sum(#[trigger] pieces[p]) % group_order() == shares[p]
                % group_order(),
        forall|k: int|
            0 <= k < uis.len() ==> #[trigger] uis[k] % group_order() == nat_sum(column(pieces, k))
                % group_order(),
    ensures
        nat_sum(uis) % group_order() == nat_sum(shares) % group_order(),
{
    let n = uis.len();
    lemma_sum_interchange(pieces, n);
    assert forall|k: int| 0 <= k < n implies #[trigger] uis[k] % group_order() == column_sums(
        pieces,
        n,
    )[k] % group_order() by {}
    lemma_nat_sum_mod(uis, column_sums(pieces, n));
    assert forall|p: int| 0 <= p < pieces.len() implies #[trigger] row_sums(pieces)[p]
        % group_order() == shares[p] % group_order() by {}
    lemma_nat_sum_mod(row_sums(pieces), shares);
}



/// An honest reshare passes the public-key check. Let the old keystores
/// come from key generation on the polynomials `old_polys` (`th`
/// coefficients each), so that the announced public key is their secret
/// times `G` (`Keystore::public_key`); let the producers `t` (at least `th`
/// distinct players whose Lagrange denominators have inverses) with shares
/// `xs` split their weighted shares `lambda_p·x_p` into the pieces
/// `pieces[p]`; let each new player's contribution `uis[k]` be the sum of the
/// pieces handed to it, and the new polynomials `new_polys` have these
/// contributions as their constant terms. Then the new secret is the old one
/// modulo the group order, and the announced key is that secret times `G`:
/// just what `reshare_finish` needs to succeed.
pub proof fn lemma_honest_reshare_key(
    old_polys: Seq<Seq<nat>>,
    th: nat,
    t: Seq<usize>,
    xs: Seq<nat>,
    pieces: Seq<Seq<nat>>,
    uis: Seq<nat>,
    new_polys: Seq<Seq<nat>>,
    expected_pk: Seq<u8>,
)
    requires
        th >= 1,
        forall|q: int| 0 <= q < old_polys.len() ==> #[trigger] old_polys[q].len() == th,
        strictly_increasing(t),
        t.len() >= th,
        forall|k: int| 0 <= k < t.len() ==> has_inverse(#[trigger] lagrange_den(t[k], t)),
        xs.len() == t.len(),
        forall|k: int|
            0 <= k < t.len() ==> #[trigger] xs[k] == summed_value(old_polys, id_value(t[k]))
                % group_order(),
        expected_pk == gmul(nat_sum(column(old_polys, 0)) as int),
        pieces.len() == t.len(),
        forall|p: int| 0 <= p < pieces.len() ==> #[trigger] pieces[p].len() == uis.len(),
        forall|p: int|
            0 <= p < pieces.len() ==> nat_sum(#[trigger] pieces[p]) % group_order() == (
            lagrange_coefficient(t[p], t) * xs[p]) % group_order(),
        forall|k: int|
            0 <= k < uis.len() ==> #[trigger] uis[k] % group_order() == nat_sum(column(pieces, k))
                % group_order(),
        column(new_polys, 0) == uis,
    ensures
        (nat_sum(column(new_polys, 0)) as int) % (group_order() as int) == (nat_sum(
            column(old_polys, 0),
        ) as int) % (group_order() as int),
        expected_pk == gmul(nat_sum(column(old_polys, 0)) as int),
{
    let shares = Seq::new(t.len(), |k: int| lagrange_coefficient(t[k], t) * xs[k]);
    lemma_reshare_keeps_secret(pieces, shares, uis);
    lemma_shares_reconstruct_public_key(old_polys, th, t, xs, expected_pk);
}

/// Resharing keeps the player set and the threshold: key generation that
/// `reshare_keygen_begin` started, once it has gathered the commitments,
/// gives a keystore that fits the reshare just as each holder's old one had
/// to: its players are the reshare's players, each committing to `th`
/// coefficients.
pub proof fn lemma_reshare_keeps_threshold(
    sp: ReshareSplit,
    shared: KeygenShared,
    ks: Keystore,
    new_players: Set<usize>,
)
    requires
        sp.wf(),
        shared.wf(),
        shared.start.th == sp.start.th,
        shared.start.players@ == sp.start.players@,
        sp.start.players@.to_set() == new_players,
        ks.vss_scheme == shared.vss_scheme,
    ensures
        keystore_fits(&ks, new_players, sp.start.th),
{
}

} // verus!
