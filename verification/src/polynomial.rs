//! Shamir secret sharing with Feldman commitments, and Lagrange coefficients,
//! over the scalars of Curve25519.
use crate::curve::{
    basepoint_mul, gmul, group_order, has_inverse, identity_encoding, inverse_of, scalar_enc,
    subgroup_add,
    subgroup_mul, Point, Scalar,
};
use crate::encoding::le_nat;
use crate::error::Error;
use crate::keystore::{scheme_coeffs, PlayerCommitments};
use crate::sums::{column, column_sums, nat_sum};
use vstd::arithmetic::div_mod::{
    lemma_add_mod_noop, lemma_mul_mod_noop_left, lemma_mul_mod_noop_right, lemma_small_mod,
};
use vstd::arithmetic::mul::lemma_mul_is_associative;
use vstd::prelude::*;

verus! {

/// The scalar value of a player id read as a 64-bit signed integer (ids past
/// `i64::MAX` wrap to negative numbers), modulo the group order.
pub open spec fn id_value(j: usize) -> nat {
    if j as int <= 0x7fff_ffff_ffff_ffff {
        j as nat
    } else {
        ((j as int - 0x1_0000_0000_0000_0000) % (group_order() as int)) as nat
    }
}

/// The scalar for player id `j`.
pub fn id_scalar(j: usize) -> (r: Scalar)
    ensures
        r.value() == id_value(j),
        r@ == scalar_enc(r.value()),
{
    let ju = j as u64;
    if ju <= 0x7fff_ffff_ffff_ffff {
        let s = Scalar::from_u64(ju);
        let z = Scalar::zero();
        let r = s.add(&z);
        proof {
            lemma_small_mod(s.value(), group_order());
        }
        r
    } else {
        let m = Scalar::from_u64(u64::MAX - ju + 1);
        let z = Scalar::zero();
        z.sub(&m)
    }
}

/// The values of a sequence of scalars.
pub open spec fn values(s: Seq<Scalar>) -> Seq<nat> {
    s.map_values(|x: Scalar| x.value())
}

/// The encodings of a sequence of points.
pub open spec fn encodings(s: Seq<Point>) -> Seq<Seq<u8>> {
    s.map_values(|p: Point| p@)
}

/// `c[0] + c[1]·x + c[2]·x^2 + ...`
pub open spec fn poly_eval(x: nat, c: Seq<nat>) -> nat
    decreases c.len(),
{
    if c.len() == 0 {
        0
    } else {
        c[0] + x * poly_eval(x, c.drop_first())
    }
}

/// `F(x) = A_0 + x·(A_1 + x·(A_2 + ...))` on point encodings, by Horner's rule
/// from the identity.
pub open spec fn polycom_eval(x: Seq<u8>, coms: Seq<Seq<u8>>) -> Seq<u8>
    decreases coms.len(),
{
    if coms.len() == 0 {
        identity_encoding()
    } else {
        subgroup_add(subgroup_mul(polycom_eval(x, coms.drop_first()), x), coms[0])
    }
}

/// `coms` commits to the coefficients `c`: `coms[k] == c[k]·G`.
pub open spec fn commits_to(coms: Seq<Seq<u8>>, c: Seq<nat>) -> bool {
    &&& coms.len() == c.len()
    &&& forall|k: int| 0 <= k < c.len() ==> #[trigger] coms[k] == gmul(c[k] as int)
}

/// Every player's commitments in `coms` commit to its polynomial in `polys`.
pub open spec fn scheme_commits_to(coms: Seq<Seq<Seq<u8>>>, polys: Seq<Seq<nat>>) -> bool {
    &&& coms.len() == polys.len()
    &&& forall|q: int| 0 <= q < polys.len() ==> #[trigger] commits_to(coms[q], polys[q])
}

/// The values of the polynomials `polys` at `x`, summed: `x_i` for `x` the
/// id of `i`.
pub open spec fn summed_value(polys: Seq<Seq<nat>>, x: nat) -> nat {
    nat_sum(Seq::new(polys.len(), |q: int| poly_eval(x, polys[q])))
}

/// Evaluates the polynomial with coefficients `poly` (constant term first) at
/// `x`, modulo the group order, by Horner's rule.
pub fn eval_poly(x: &Scalar, poly: &[Scalar]) -> (r: Scalar)
    ensures
        r.value() == poly_eval(x.value(), values(poly@)) % group_order(),
{
    let n = poly.len();
    let ghost c = values(poly@);
    let mut res = Scalar::zero();
    let mut k: usize = n;
    proof {
        assert(c.subrange(n as int, n as int) =~= Seq::<nat>::empty());
    }
    while k > 0
        invariant
            n == poly@.len(),
            c == values(poly@),
            k <= n,
            res.value() == poly_eval(x.value(), c.subrange(k as int, n as int)) % group_order(),
        decreases k,
    {
        k = k - 1;
        let ghost p = poly_eval(x.value(), c.subrange(k + 1, n as int));
        let rx = res.mul(x);
        let next = rx.add(&poly[k]);
        proof {
            let tail = c.subrange(k as int, n as int);
            assert(tail.drop_first() =~= c.subrange(k + 1, n as int));
            assert(tail[0] == poly@[k as int].value());
            let a = poly@[k as int].value();
            lemma_mul_mod_noop_left(p as int, x.value() as int, group_order() as int);
            lemma_add_mod_noop((p * x.value()) as int, a as int, group_order() as int);
            lemma_small_mod(a, group_order());
            assert(p * x.value() == x.value() * p) by (nonlinear_arith);
            assert(poly_eval(x.value(), tail) == a + x.value() * p);
        }
        res = next;
    }
    proof {
        assert(c.subrange(0, n as int) =~= c);
    }
    res
}

/// Evaluates the commitment polynomial `polycom` (constant term first) at `x`
/// by Horner's rule, from the identity.
pub fn eval_polycom(x: &Scalar, polycom: &[Point]) -> (r: Point)
    ensures
        r@ == polycom_eval(x@, encodings(polycom@)),
        forall|c: Seq<nat>|
            #[trigger] commits_to(encodings(polycom@), c) ==> r@ == gmul(
                poly_eval(x.value(), c) as int,
            ),
{
    let n = polycom.len();
    let ghost c = encodings(polycom@);
    let mut res = Point::identity();
    let mut k: usize = n;
    proof {
        assert(c.subrange(n as int, n as int) =~= Seq::<Seq<u8>>::empty());
    }
    while k > 0
        invariant
            n == polycom@.len(),
            c == encodings(polycom@),
            k <= n,
            res@ == polycom_eval(x@, c.subrange(k as int, n as int)),
            forall|cs: Seq<nat>|
                #[trigger] commits_to(encodings(polycom@), cs) ==> res@ == gmul(
                    poly_eval(x.value(), cs.subrange(k as int, n as int)) as int,
                ),
        decreases k,
    {
        k = k - 1;
        let rx = res.mul(x);
        let next = rx.add(&polycom[k]);
        proof {
            let tail = c.subrange(k as int, n as int);
            assert(tail.drop_first() =~= c.subrange(k + 1, n as int));
            assert(tail[0] == polycom@[k as int]@);
            assert forall|cs: Seq<nat>| #[trigger] commits_to(encodings(polycom@), cs) implies next@
                == gmul(poly_eval(x.value(), cs.subrange(k as int, n as int)) as int) by {
                let ctail = cs.subrange(k as int, n as int);
                assert(ctail.drop_first() =~= cs.subrange(k + 1, n as int));
                let pv = poly_eval(x.value(), cs.subrange(k + 1, n as int)) as int;
                assert(encodings(polycom@)[k as int] == gmul(cs[k as int] as int));
                assert(rx@ == gmul(pv * x.value()));
                assert(next@ == gmul(pv * x.value() + cs[k as int]));
                assert(pv * x.value() + cs[k as int] == cs[k as int] + x.value() * pv)
                    by (nonlinear_arith);
            }
        }
        res = next;
    }
    proof {
        assert(c.subrange(0, n as int) =~= c);
        assert forall|cs: Seq<nat>| #[trigger] commits_to(encodings(polycom@), cs) implies res@
            == gmul(poly_eval(x.value(), cs) as int) by {
            assert(cs.subrange(0, n as int) =~= cs);
        }
    }
    res
}

/// The shares of a polynomial with constant term `ui` and higher
/// coefficients `tail`: the coefficients, their commitments `a·G`, and the
/// polynomial's value at each player's id, in the order of `players`.
pub fn generate_shares_with(ui: &Scalar, players: &[usize], tail: &[Scalar]) -> (res: (
    Vec<Scalar>,
    Vec<Point>,
    Vec<Scalar>,
))
    ensures
        res.0@ == seq![*ui] + tail@,
        res.1@.len() == res.0@.len(),
        forall|k: int| 0 <= k < res.1@.len() ==> #[trigger] res.1@[k]@ == basepoint_mul(res.0@[k]@),
        commits_to(encodings(res.1@), values(res.0@)),
        res.2@.len() == players@.len(),
        forall|k: int|
            0 <= k < players@.len() ==> #[trigger] res.2@[k].value() == poly_eval(
                id_value(players@[k]),
                values(res.0@),
            ) % group_order(),
{
    let mut coeffs: Vec<Scalar> = Vec::new();
    coeffs.push(*ui);
    let mut k: usize = 0;
    while k < tail.len()
        invariant
            k <= tail@.len(),
            coeffs@ == seq![*ui] + tail@.take(k as int),
        decreases tail@.len() - k,
    {
        coeffs.push(tail[k]);
        k = k + 1;
        proof {
            assert(coeffs@ =~= seq![*ui] + tail@.take(k as int));
        }
    }
    proof {
        assert(tail@.take(tail@.len() as int) =~= tail@);
    }
    let mut commits: Vec<Point> = Vec::new();
    let mut k: usize = 0;
    while k < coeffs.len()
        invariant
            k <= coeffs@.len(),
            commits@.len() == k,
            forall|a: int| 0 <= a < k ==> #[trigger] commits@[a]@ == basepoint_mul(coeffs@[a]@),
            forall|a: int| 0 <= a < k ==> #[trigger] commits@[a]@ == gmul(coeffs@[a].value() as int),
        decreases coeffs@.len() - k,
    {
        commits.push(Point::base_mul(&coeffs[k]));
        k = k + 1;
    }
    proof {
        assert forall|a: int| 0 <= a < values(coeffs@).len() implies #[trigger] encodings(commits@)[a]
            == gmul(values(coeffs@)[a] as int) by {
            assert(commits@[a]@ == gmul(coeffs@[a].value() as int));
        }
    }
    let mut shares: Vec<Scalar> = Vec::new();
    let mut k: usize = 0;
    while k < players.len()
        invariant
            k <= players@.len(),
            shares@.len() == k,
            forall|a: int|
                0 <= a < k ==> #[trigger] shares@[a].value() == poly_eval(
                    id_value(players@[a]),
                    values(coeffs@),
                ) % group_order(),
        decreases players@.len() - k,
    {
        let x = id_scalar(players[k]);
        shares.push(eval_poly(&x, coeffs.as_slice()));
        k = k + 1;
    }
    (coeffs, commits, shares)
}

/// The numerator of the Lagrange coefficient of `i` at zero over the ids `s`:
/// the product, modulo the group order and in order, of the ids other than `i`.
pub open spec fn lagrange_num(i: usize, s: Seq<usize>) -> nat
    decreases s.len(),
{
    if s.len() == 0 {
        1
    } else if s.last() == i {
        lagrange_num(i, s.drop_last())
    } else {
        (lagrange_num(i, s.drop_last()) * id_value(s.last())) % group_order()
    }
}

/// The denominator of the Lagrange coefficient of `i` at zero over the ids
/// `s`: the product, modulo the group order, of `j - i` for the ids `j != i`.
pub open spec fn lagrange_den(i: usize, s: Seq<usize>) -> nat
    decreases s.len(),
{
    if s.len() == 0 {
        1
    } else if s.last() == i {
        lagrange_den(i, s.drop_last())
    } else {
        (lagrange_den(i, s.drop_last()) * (((id_value(s.last()) - id_value(i)) % (
        group_order() as int)) as nat)) % group_order()
    }
}

/// The Lagrange coefficient of `i` at zero over `s`: `num · den^-1` modulo
/// the group order, and zero where `den` is zero.
pub open spec fn lagrange_coefficient(i: usize, s: Seq<usize>) -> nat {
    if lagrange_den(i, s) == 0 {
        0
    } else {
        (lagrange_num(i, s) * inverse_of(lagrange_den(i, s))) % group_order()
    }
}

/// `lambda` solves `lambda · den == num` modulo the group order (and is zero
/// where `den` is zero).
pub open spec fn is_lagrange_coefficient(lambda: nat, i: usize, s: Seq<usize>) -> bool {
    &&& lambda < group_order()
    &&& lagrange_den(i, s) == 0 ==> lambda == 0
    &&& lagrange_den(i, s) != 0 ==> (lambda * lagrange_den(i, s)) % group_order() == lagrange_num(
        i,
        s,
    )
}

/// The Lagrange coefficient `lambda_i` of player `i` at zero over the
/// `signers`, such that the secret is the sum of `lambda_i x_i` over them:
/// the product of `j / (j - i)` over the signers `j` other than `i`.
pub fn lagrange_lambda(i: usize, signers: &[usize]) -> (r: Scalar)
    ensures
        r.value() == lagrange_coefficient(i, signers@),
        is_lagrange_coefficient(r.value(), i, signers@),
        lagrange_den(i, signers@) != 0 ==> has_inverse(lagrange_den(i, signers@)),
        r@ == scalar_enc(r.value()),
{
    let i_scalar = id_scalar(i);
    let mut num = Scalar::one();
    let mut den = Scalar::one();
    let n = signers.len();
    let mut k: usize = 0;
    proof {
        assert(signers@.take(0) =~= Seq::<usize>::empty());
    }
    while k < n
        invariant
            n == signers@.len(),
            k <= n,
            i_scalar.value() == id_value(i),
            num.value() == lagrange_num(i, signers@.take(k as int)),
            den.value() == lagrange_den(i, signers@.take(k as int)),
            den@ == scalar_enc(den.value()),
        decreases n - k,
    {
        let j = signers[k];
        proof {
            assert(signers@.take(k + 1).drop_last() =~= signers@.take(k as int));
            assert(signers@.take(k + 1).last() == j);
        }
        if i != j {
            let j_scalar = id_scalar(j);
            num = num.mul(&j_scalar);
            let diff = j_scalar.sub(&i_scalar);
            den = den.mul(&diff);
        }
        k = k + 1;
    }
    proof {
        assert(signers@.take(n as int) =~= signers@);
    }
    let inv = den.invert();
    let r = num.mul(&inv);
    proof {
        let l = group_order() as int;
        let nv = num.value() as int;
        let dv = den.value() as int;
        let iv = inv.value() as int;
        if dv == 0 {
            assert(r.value() == 0);
        } else {
            lemma_mul_mod_noop_left(nv * iv, dv, l);
            lemma_mul_is_associative(nv, iv, dv);
            lemma_mul_mod_noop_right(nv, iv * dv, l);
            assert(iv * dv == dv * iv) by (nonlinear_arith);
            lemma_small_mod(num.value(), group_order());
        }
    }
    r
}

/// Looks up the commitments of player `j` in a scheme.
pub fn find_commitments(vss: &[PlayerCommitments], j: usize) -> (r: Option<usize>)
    ensures
        r matches Some(k) ==> k < vss@.len() && vss@[k as int].player == j,
        r is None ==> forall|k: int| 0 <= k < vss@.len() ==> #[trigger] vss@[k].player != j,
{
    let mut k: usize = 0;
    while k < vss.len()
        invariant
            k <= vss@.len(),
            forall|a: int| 0 <= a < k ==> #[trigger] vss@[a].player != j,
        decreases vss@.len() - k,
    {
        if vss[k].player == j {
            return Some(k);
        }
        k = k + 1;
    }
    None
}

/// Whether the scheme holds commitments of `j` whose value at `i` commits to
/// the scalar encoded by `fji`: `fji·G == F_j(i)`.
pub open spec fn share_matches(
    vss: Seq<PlayerCommitments>,
    i: usize,
    j: usize,
    fji: Seq<u8>,
) -> bool {
    exists|k: int|
        0 <= k < vss.len() && #[trigger] vss[k].player == j && basepoint_mul(fji)
            == polycom_eval(scalar_enc(id_value(i)), encodings(vss[k].coeffs@))
}

/// The shares `xji` (from `others`) are honest for the polynomials `polys`:
/// the scheme commits to `polys`, holds every sender, and each share is its
/// sender's polynomial at the id of `i`.
pub open spec fn honest_shares(
    vss: Seq<PlayerCommitments>,
    i: usize,
    others: Seq<usize>,
    xji: Seq<Scalar>,
    polys: Seq<Seq<nat>>,
) -> bool {
    &&& scheme_commits_to(scheme_coeffs(vss), polys)
    &&& forall|k: int|
        0 <= k < others.len() ==> exists|q: int|
            0 <= q < vss.len() && #[trigger] vss[q].player == #[trigger] others[k]
    &&& forall|k: int, q: int|
        0 <= k < others.len() && 0 <= q < vss.len() && #[trigger] vss[q].player
            == #[trigger] others[k] ==> xji[k].value() == poly_eval(id_value(i), polys[q])
            % group_order()
}

/// Verifies that every peer `others[k]` evaluated its polynomial honestly at
/// `i`: `f_j(i)·G == F_j(i)` for the share `xji[k]` it sent. Fails, naming
/// the first peer in the order of `others` for which this does not hold.
pub fn verify_fj_at_i(
    i: usize,
    others: &[usize],
    xji: &[Scalar],
    vss: &[PlayerCommitments],
) -> (r: Result<(), Error>)
    requires
        xji@.len() == others@.len(),
        forall|a: int, b: int|
            0 <= a < b < vss@.len() ==> #[trigger] vss@[a].player != #[trigger] vss@[b].player,
    ensures
        (r is Ok) == (forall|k: int|
            0 <= k < others@.len() ==> share_matches(vss@, i, #[trigger] others@[k], xji@[k]@)),
        r matches Err(e) ==> (exists|k: int|
            0 <= k < others@.len() && e == (Error::FeldmanVerifyFailed { peer: others@[k] })
                && !share_matches(vss@, i, others@[k], xji@[k]@) && (forall|k2: int|
                0 <= k2 < k ==> share_matches(vss@, i, #[trigger] others@[k2], xji@[k2]@))),
        forall|polys: Seq<Seq<nat>>|
            #[trigger] honest_shares(vss@, i, others@, xji@, polys) ==> r is Ok,
{
    let i_scalar = id_scalar(i);
    let mut k: usize = 0;
    while k < others.len()
        invariant
            k <= others@.len(),
            xji@.len() == others@.len(),
            i_scalar.value() == id_value(i),
            i_scalar@ == scalar_enc(id_value(i)),
            forall|a: int, b: int|
                0 <= a < b < vss@.len() ==> #[trigger] vss@[a].player != #[trigger] vss@[b].player,
            forall|a: int| 0 <= a < k ==> share_matches(vss@, i, #[trigger] others@[a], xji@[a]@),
        decreases others@.len() - k,
    {
        let j = others[k];
        match find_commitments(vss, j) {
            None => {
                proof {
                    assert forall|polys: Seq<Seq<nat>>| !#[trigger] honest_shares(
                        vss@,
                        i,
                        others@,
                        xji@,
                        polys,
                    ) by {
                        if honest_shares(vss@, i, others@, xji@, polys) {
                            assert(others@[k as int] == j);
                            let q = choose|q: int|
                                0 <= q < vss@.len() && #[trigger] vss@[q].player == others@[k as int];
                            assert(vss@[q].player != j);
                        }
                    }
                }
                return Err(Error::FeldmanVerifyFailed { peer: j });
            },
            Some(e) => {
                let lhs = Point::base_mul(&xji[k]);
                let rhs = eval_polycom(&i_scalar, vss[e].coeffs.as_slice());
                if !lhs.equals(&rhs) {
                    proof {
                        assert forall|polys: Seq<Seq<nat>>| !#[trigger] honest_shares(
                            vss@,
                            i,
                            others@,
                            xji@,
                            polys,
                        ) by {
                            if honest_shares(vss@, i, others@, xji@, polys) {
                                assert(others@[k as int] == j);
                                assert(vss@[e as int].player == others@[k as int]);
                                let pe = poly_eval(id_value(i), polys[e as int]);
                                assert(commits_to(scheme_coeffs(vss@)[e as int], polys[e as int]));
                                assert(scheme_coeffs(vss@)[e as int] == encodings(
                                    vss@[e as int].coeffs@,
                                ));
                                assert(rhs@ == gmul(pe as int));
                                assert(xji@[k as int].value() == pe % group_order());
                                assert(lhs@ == gmul(xji@[k as int].value() as int));
                                vstd::arithmetic::div_mod::lemma_mod_twice(
                                    pe as int,
                                    group_order() as int,
                                );
                                assert(lhs@ == rhs@);
                            }
                        }
                        assert forall|m: int|
                            0 <= m < vss@.len() && #[trigger] vss@[m].player == j implies m
                            == e by {
                            if m != e as int {
                                if m < e {
                                    assert(vss@[m].player != vss@[e as int].player);
                                } else {
                                    assert(vss@[e as int].player != vss@[m].player);
                                }
                            }
                        }
                    }
                    return Err(Error::FeldmanVerifyFailed { peer: j });
                }
                proof {
                    assert(vss@[e as int].player == j);
                }
            },
        }
        k = k + 1;
    }
    Ok(())
}

/// The sum, from the identity and in order, of every player's commitment
/// polynomial evaluated at `i`: `x_i·G`.
pub open spec fn xi_com(i: usize, coms: Seq<Seq<Seq<u8>>>) -> Seq<u8>
    decreases coms.len(),
{
    if coms.len() == 0 {
        identity_encoding()
    } else {
        subgroup_add(xi_com(i, coms.drop_last()), polycom_eval(scalar_enc(id_value(i)), coms.last()))
    }
}

/// Evaluates `x_i·G` without knowing `x_i`: the sum over all players `j` of
/// `F_j(i)`.
pub fn eval_xi_com(i: usize, vss: &[PlayerCommitments]) -> (r: Point)
    ensures
        r@ == xi_com(i, scheme_coeffs(vss@)),
        forall|polys: Seq<Seq<nat>>|
            #[trigger] scheme_commits_to(scheme_coeffs(vss@), polys) ==> r@ == gmul(
                summed_value(polys, id_value(i)) as int,
            ),
{
    let i_scalar = id_scalar(i);
    let mut acc = Point::identity();
    let n = vss.len();
    let mut k: usize = 0;
    proof {
        assert(vss@.take(0) =~= Seq::<PlayerCommitments>::empty());
    }
    while k < n
        invariant
            n == vss@.len(),
            k <= n,
            i_scalar@ == scalar_enc(id_value(i)),
            acc@ == xi_com(i, scheme_coeffs(vss@.take(k as int))),
            i_scalar.value() == id_value(i),
            forall|polys: Seq<Seq<nat>>|
                #[trigger] scheme_commits_to(scheme_coeffs(vss@), polys) ==> acc@ == gmul(
                    summed_value(polys.take(k as int), id_value(i)) as int,
                ),
        decreases n - k,
    {
        let fji = eval_polycom(&i_scalar, vss[k].coeffs.as_slice());
        let next = acc.add(&fji);
        proof {
            assert(scheme_coeffs(vss@.take(k + 1)).drop_last() =~= scheme_coeffs(vss@.take(k as int)));
            assert forall|polys: Seq<Seq<nat>>| #[trigger] scheme_commits_to(
                scheme_coeffs(vss@),
                polys,
            ) implies next@ == gmul(summed_value(polys.take(k + 1), id_value(i)) as int) by {
                let x = id_value(i);
                assert(commits_to(scheme_coeffs(vss@)[k as int], polys[k as int]));
                assert(scheme_coeffs(vss@)[k as int] == encodings(vss@[k as int].coeffs@));
                let pe = poly_eval(x, polys[k as int]);
                assert(fji@ == gmul(pe as int));
                let ev = Seq::new(polys.take(k + 1).len(), |q: int| poly_eval(x, polys.take(k + 1)[q]));
                assert(ev.drop_last() =~= Seq::new(
                    polys.take(k as int).len(),
                    |q: int| poly_eval(x, polys.take(k as int)[q]),
                ));
                assert(ev.last() == pe);
            }
        }
        acc = next;
        k = k + 1;
    }
    proof {
        assert(vss@.take(n as int) =~= vss@);
        assert forall|polys: Seq<Seq<nat>>| #[trigger] scheme_commits_to(scheme_coeffs(vss@), polys)
            implies acc@ == gmul(summed_value(polys, id_value(i)) as int) by {
            assert(polys.take(n as int) =~= polys);
        }
    }
    acc
}


/// Adding two polynomials coefficient by coefficient adds their values.
pub proof fn lemma_poly_eval_add(x: nat, a: Seq<nat>, b: Seq<nat>, c: Seq<nat>)
    requires
        a.len() == b.len(),
        c.len() == a.len(),
        forall|k: int| 0 <= k < c.len() ==> #[trigger] c[k] == a[k] + b[k],
    ensures
        poly_eval(x, c) == poly_eval(x, a) + poly_eval(x, b),
    decreases c.len(),
{
    if c.len() > 0 {
        lemma_poly_eval_add(x, a.drop_first(), b.drop_first(), c.drop_first());
        let pa = poly_eval(x, a.drop_first());
        let pb = poly_eval(x, b.drop_first());
        assert(x * (pa + pb) == x * pa + x * pb) by (nonlinear_arith);
    }
}

/// Key generation deals shares of one polynomial: adding up the players'
/// polynomials coefficient by coefficient gives a polynomial `F` whose value
/// at any `x` is the sum of theirs, and whose constant term, the secret, is
/// the sum of their constant terms `u_j`.
pub proof fn lemma_summed_polynomial(polys: Seq<Seq<nat>>, n: nat, x: nat)
    requires
        n >= 1,
        forall|j: int| 0 <= j < polys.len() ==> #[trigger] polys[j].len() == n,
    ensures
        nat_sum(Seq::new(polys.len(), |j: int| poly_eval(x, polys[j]))) == poly_eval(
            x,
            column_sums(polys, n),
        ),
        poly_eval(0, column_sums(polys, n)) == nat_sum(column(polys, 0)),
    decreases polys.len(),
{
    let evals = Seq::new(polys.len(), |j: int| poly_eval(x, polys[j]));
    if polys.len() == 0 {
        let zeros = column_sums(polys, n);
        assert forall|k: int| 0 <= k < n implies #[trigger] zeros[k] == zeros[k] + zeros[k] by {
            assert(column(polys, k) =~= Seq::<nat>::empty());
        }
        lemma_poly_eval_add(x, zeros, zeros, zeros);
    } else {
        let rest = polys.drop_last();
        lemma_summed_polynomial(rest, n, x);
        let last = polys.last();
        assert forall|k: int| 0 <= k < n implies #[trigger] column_sums(polys, n)[k] == column_sums(
            rest,
            n,
        )[k] + last[k] by {
            assert(column(polys, k).drop_last() =~= column(rest, k));
        }
        lemma_poly_eval_add(x, column_sums(rest, n), last, column_sums(polys, n));
        assert(evals.drop_last() =~= Seq::new(rest.len(), |j: int| poly_eval(x, rest[j])));
    }
    assert(column_sums(polys, n)[0] == nat_sum(column(polys, 0)));
    assert(column_sums(polys, n).drop_first().len() == n - 1);
}

} // verus!
