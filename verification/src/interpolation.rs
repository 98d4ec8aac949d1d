//! Lagrange interpolation: the Lagrange coefficients of a set of ids recover
//! the value at zero of any polynomial with no more coefficients than the
//! set has ids. This is what makes any `th` shares of a key carry the key.
//!
//! The proof works with integer polynomials and congruences modulo the group
//! order, adding one id at a time: a polynomial `F` is split at the new id
//! `y` as `F(X) = F(y) + (X - y)·Q(X)`, and the coefficients over the larger
//! set are tied to those over the smaller one.
use crate::collections::strictly_increasing;
use crate::curve::{group_order, has_inverse, inverse_of, lemma_inverse_unique};
use crate::polynomial::{id_value, lagrange_coefficient, lagrange_den, lagrange_num, poly_eval};
use crate::sums::nat_sum;
use vstd::arithmetic::div_mod::{
    lemma_add_mod_noop, lemma_mod_twice, lemma_mul_mod_noop, lemma_mul_mod_noop_left,
    lemma_mul_mod_noop_right, lemma_small_mod, lemma_sub_mod_noop,
};
use vstd::prelude::*;

verus! {

/// `a` and `b` agree modulo the group order.
pub open spec fn cong(a: int, b: int) -> bool {
    a % (group_order() as int) == b % (group_order() as int)
}

proof fn lemma_cong_mul(a: int, b: int, c: int, d: int)
    requires
        cong(a, b),
        cong(c, d),
    ensures
        cong(a * c, b * d),
{
    let l = group_order() as int;
    lemma_mul_mod_noop(a, c, l);
    lemma_mul_mod_noop(b, d, l);
}

proof fn lemma_cong_add(a: int, b: int, c: int, d: int)
    requires
        cong(a, b),
        cong(c, d),
    ensures
        cong(a + c, b + d),
{
    let l = group_order() as int;
    lemma_add_mod_noop(a, c, l);
    lemma_add_mod_noop(b, d, l);
}

proof fn lemma_cong_sub(a: int, b: int, c: int, d: int)
    requires
        cong(a, b),
        cong(c, d),
    ensures
        cong(a - c, b - d),
{
    let l = group_order() as int;
    lemma_sub_mod_noop(a, c, l);
    lemma_sub_mod_noop(b, d, l);
}

proof fn lemma_cong_mod(a: int)
    ensures
        cong(a % (group_order() as int), a),
{
    lemma_mod_twice(a, group_order() as int);
}

/// A factor with an inverse cancels from a congruence.
proof fn lemma_cong_cancel(a: int, b: int, u: int, d: nat)
    requires
        cong(a * u, b * u),
        cong(u, d as int),
        has_inverse(d),
    ensures
        cong(a, b),
{
    let v = inverse_of(d);
    assert(v < group_order() && (d * v) % group_order() == 1);
    lemma_cong_mul(a * u, b * u, v as int, v as int);
    lemma_cong_mul(u, d as int, v as int, v as int);
    lemma_cong_mul(a, a, u * v, (d * v) as int);
    lemma_cong_mul(b, b, u * v, (d * v) as int);
    lemma_cong_mod((d * v) as int);
    lemma_cong_mul(a, a, (d * v) as int, 1);
    lemma_cong_mul(b, b, (d * v) as int, 1);
    assert(a * u * v == a * (u * v)) by (nonlinear_arith);
    assert(b * u * v == b * (u * v)) by (nonlinear_arith);
}

/// A product that has an inverse has factors that have one.
proof fn lemma_inverse_factor(a: nat, b: nat)
    requires
        has_inverse((a * b) % group_order()),
    ensures
        has_inverse(a),
{
    let l = group_order() as int;
    let r = inverse_of((a * b) % group_order());
    assert(r < group_order() && (((a * b) % group_order()) * r) % group_order() == 1);
    lemma_mul_mod_noop_left((a * b) as int, r as int, l);
    lemma_mul_mod_noop_right(a as int, (b * r) as int, l);
    assert(a * (b * r) == (a * b) * r) by (nonlinear_arith);
    let w = (b * r) % group_order();
    assert((a * w) % group_order() == 1);
    assert(w < group_order());
}

/// `f(0) + f(1) + ... + f(n - 1)`.
pub open spec fn isum(n: nat, f: spec_fn(int) -> int) -> int
    decreases n,
{
    if n == 0 {
        0
    } else {
        isum((n - 1) as nat, f) + f(n - 1)
    }
}

proof fn lemma_isum_ext(n: nat, f: spec_fn(int) -> int, g: spec_fn(int) -> int)
    requires
        forall|k: int| 0 <= k < n ==> #[trigger] f(k) == g(k),
    ensures
        isum(n, f) == isum(n, g),
    decreases n,
{
    if n > 0 {
        lemma_isum_ext((n - 1) as nat, f, g);
    }
}

proof fn lemma_isum_cong(n: nat, f: spec_fn(int) -> int, g: spec_fn(int) -> int)
    requires
        forall|k: int| 0 <= k < n ==> cong(#[trigger] f(k), g(k)),
    ensures
        cong(isum(n, f), isum(n, g)),
    decreases n,
{
    if n > 0 {
        lemma_isum_cong((n - 1) as nat, f, g);
        lemma_cong_add(isum((n - 1) as nat, f), isum((n - 1) as nat, g), f(n - 1), g(n - 1));
    }
}

proof fn lemma_isum_add(n: nat, f: spec_fn(int) -> int, g: spec_fn(int) -> int, h: spec_fn(int) -> int)
    requires
        forall|k: int| 0 <= k < n ==> #[trigger] h(k) == f(k) + g(k),
    ensures
        isum(n, h) == isum(n, f) + isum(n, g),
    decreases n,
{
    if n > 0 {
        lemma_isum_add((n - 1) as nat, f, g, h);
    }
}

proof fn lemma_isum_scale(n: nat, f: spec_fn(int) -> int, c: int, g: spec_fn(int) -> int)
    requires
        forall|k: int| 0 <= k < n ==> #[trigger] g(k) == c * f(k),
    ensures
        isum(n, g) == c * isum(n, f),
    decreases n,
{
    if n > 0 {
        lemma_isum_scale((n - 1) as nat, f, c, g);
        let s = isum((n - 1) as nat, f);
        assert(c * (s + f(n - 1)) == c * s + c * f(n - 1)) by (nonlinear_arith);
    } else {
        assert(c * 0 == 0) by (nonlinear_arith);
    }
}

/// `c[0] + c[1]·x + c[2]·x^2 + ...` over the integers.
pub open spec fn ipoly(x: int, c: Seq<int>) -> int
    decreases c.len(),
{
    if c.len() == 0 {
        0
    } else {
        c[0] + x * ipoly(x, c.drop_first())
    }
}

proof fn lemma_ipoly_add(x: int, a: Seq<int>, b: Seq<int>, s: Seq<int>)
    requires
        a.len() == b.len(),
        s.len() == a.len(),
        forall|k: int| 0 <= k < s.len() ==> #[trigger] s[k] == a[k] + b[k],
    ensures
        ipoly(x, s) == ipoly(x, a) + ipoly(x, b),
    decreases s.len(),
{
    if s.len() > 0 {
        lemma_ipoly_add(x, a.drop_first(), b.drop_first(), s.drop_first());
        let pa = ipoly(x, a.drop_first());
        let pb = ipoly(x, b.drop_first());
        assert(x * (pa + pb) == x * pa + x * pb) by (nonlinear_arith);
    }
}

proof fn lemma_ipoly_scale(x: int, a: Seq<int>, y: int, s: Seq<int>)
    requires
        s.len() == a.len(),
        forall|k: int| 0 <= k < s.len() ==> #[trigger] s[k] == y * a[k],
    ensures
        ipoly(x, s) == y * ipoly(x, a),
    decreases s.len(),
{
    if s.len() > 0 {
        lemma_ipoly_scale(x, a.drop_first(), y, s.drop_first());
        let pa = ipoly(x, a.drop_first());
        assert(y * (a[0] + x * pa) == y * a[0] + x * (y * pa)) by (nonlinear_arith);
    } else {
        assert(y * 0 == 0) by (nonlinear_arith);
    }
}

proof fn lemma_ipoly_pad(x: int, q: Seq<int>)
    ensures
        ipoly(x, q.push(0)) == ipoly(x, q),
    decreases q.len(),
{
    if q.len() == 0 {
        assert(q.push(0).drop_first() =~= Seq::<int>::empty());
        assert(ipoly(x, q.push(0).drop_first()) == 0);
        assert(x * 0 == 0) by (nonlinear_arith);
        assert(ipoly(x, q.push(0)) == q.push(0)[0] + x * ipoly(x, q.push(0).drop_first()));
    } else {
        lemma_ipoly_pad(x, q.drop_first());
        assert(q.push(0).drop_first() =~= q.drop_first().push(0));
        assert(q.push(0)[0] == q[0]);
    }
}

/// The quotient of `c` by `X - y`: `c(X) = c(y) + (X - y)·quot(c, y)(X)`.
pub open spec fn quot(c: Seq<int>, y: int) -> Seq<int>
    decreases c.len(),
{
    if c.len() <= 1 {
        Seq::empty()
    } else {
        let g = c.drop_first();
        let qg = quot(g, y);
        Seq::new(g.len(), |i: int| g[i] + (if i < qg.len() { y * qg[i] } else { 0 }))
    }
}

proof fn lemma_quot(c: Seq<int>, y: int, x: int)
    ensures
        quot(c, y).len() == (if c.len() == 0 { 0 } else { c.len() - 1 }),
        ipoly(x, c) == ipoly(y, c) + (x - y) * ipoly(x, quot(c, y)),
    decreases c.len(),
{
    if c.len() == 0 {
        assert((x - y) * 0 == 0) by (nonlinear_arith);
    } else if c.len() == 1 {
        assert(c.drop_first() =~= Seq::<int>::empty());
        assert(ipoly(x, c.drop_first()) == 0);
        assert(ipoly(y, c.drop_first()) == 0);
        assert(ipoly(x, quot(c, y)) == 0);
        assert(x * 0 == 0 && y * 0 == 0 && (x - y) * 0 == 0) by (nonlinear_arith);
    } else {
        let g = c.drop_first();
        let qg = quot(g, y);
        lemma_quot(g, y, x);
        lemma_quot(g, y, y);
        let qpad = qg.push(0);
        let scaled = Seq::new(g.len(), |i: int| y * qpad[i]);
        let q = quot(c, y);
        assert forall|i: int| 0 <= i < g.len() implies #[trigger] q[i] == g[i] + scaled[i] by {}
        lemma_ipoly_add(x, g, scaled, q);
        lemma_ipoly_scale(x, qpad, y, scaled);
        lemma_ipoly_pad(x, qg);
        let gx = ipoly(x, g);
        let gy = ipoly(y, g);
        let qx = ipoly(x, qg);
        assert(gx == gy + (x - y) * qx);
        assert(x * gx - y * gy == (x - y) * (gx + y * qx)) by (nonlinear_arith)
            requires
                gx == gy + (x - y) * qx,
        ;
    }
}

/// The coefficients of `(z - X)·p(X)`.
pub open spec fn mul_linear(p: Seq<int>, z: int) -> Seq<int> {
    Seq::new(
        p.len() + 1,
        |i: int|
            (if i < p.len() {
                z * p[i]
            } else {
                0
            }) - (if i >= 1 {
                p[i - 1]
            } else {
                0
            }),
    )
}

proof fn lemma_mul_linear(p: Seq<int>, z: int, x: int)
    ensures
        ipoly(x, mul_linear(p, z)) == (z - x) * ipoly(x, p),
{
    let zp = Seq::new(p.len(), |i: int| z * p[i]);
    let a = zp.push(0);
    let b = seq![0int] + p;
    let nb = Seq::new(p.len() + 1, |i: int| -1 * b[i]);
    let m = mul_linear(p, z);
    lemma_ipoly_scale(x, p, z, zp);
    lemma_ipoly_pad(x, zp);
    assert(b.drop_first() =~= p);
    lemma_ipoly_scale(x, b, -1, nb);
    assert forall|i: int| 0 <= i < m.len() implies #[trigger] m[i] == a[i] + nb[i] by {}
    lemma_ipoly_add(x, a, nb, m);
    let pp = ipoly(x, p);
    assert(z * pp + -1 * (0 + x * pp) == (z - x) * pp) by (nonlinear_arith);
}

/// `(xs[0] - X)·(xs[1] - X)···` at `x`.
pub open spec fn iprod(xs: Seq<int>, x: int) -> int
    decreases xs.len(),
{
    if xs.len() == 0 {
        1
    } else {
        iprod(xs.drop_last(), x) * (xs.last() - x)
    }
}

/// The coefficients of `(xs[0] - X)·(xs[1] - X)···`.
pub open spec fn prod_poly(xs: Seq<int>) -> Seq<int>
    decreases xs.len(),
{
    if xs.len() == 0 {
        seq![1int]
    } else {
        mul_linear(prod_poly(xs.drop_last()), xs.last())
    }
}

proof fn lemma_prod_poly(xs: Seq<int>, x: int)
    ensures
        prod_poly(xs).len() == xs.len() + 1,
        ipoly(x, prod_poly(xs)) == iprod(xs, x),
    decreases xs.len(),
{
    if xs.len() == 0 {
        assert(seq![1int].drop_first() =~= Seq::<int>::empty());
        assert(ipoly(x, seq![1int].drop_first()) == 0);
        assert(x * 0 == 0) by (nonlinear_arith);
    } else {
        lemma_prod_poly(xs.drop_last(), x);
        lemma_mul_linear(prod_poly(xs.drop_last()), xs.last(), x);
        let p = iprod(xs.drop_last(), x);
        assert((xs.last() - x) * p == p * (xs.last() - x)) by (nonlinear_arith);
    }
}

proof fn lemma_iprod_root(xs: Seq<int>, k: int)
    requires
        0 <= k < xs.len(),
    ensures
        iprod(xs, xs[k]) == 0,
    decreases xs.len(),
{
    if k < xs.len() - 1 {
        lemma_iprod_root(xs.drop_last(), k);
        assert(xs.drop_last()[k] == xs[k]);
        let d = xs.last() - xs[k];
        assert(0 * d == 0) by (nonlinear_arith);
    } else {
        let p = iprod(xs.drop_last(), xs[k]);
        assert(p * 0 == 0) by (nonlinear_arith);
    }
}

/// The ids as integers: their values as scalars.
pub open spec fn id_points(t: Seq<usize>) -> Seq<int> {
    t.map_values(|j: usize| id_value(j) as int)
}

/// Over ids without `y`, the Lagrange denominator of `y` is the product of
/// the `x_j - y`.
proof fn lemma_den_as_product(y: usize, s: Seq<usize>)
    requires
        !s.contains(y),
    ensures
        cong(lagrange_den(y, s) as int, iprod(id_points(s), id_value(y) as int)),
    decreases s.len(),
{
    let l = group_order() as int;
    if s.len() > 0 {
        let sp = s.drop_last();
        assert(!sp.contains(y)) by {
            if sp.contains(y) {
                let w = choose|w: int| 0 <= w < sp.len() && sp[w] == y;
                assert(s[w] == y);
            }
        }
        assert(s.last() != y) by {
            assert(s[s.len() - 1] == s.last());
        }
        lemma_den_as_product(y, sp);
        assert(id_points(s).drop_last() =~= id_points(sp));
        let diff = id_value(s.last()) - id_value(y);
        lemma_cong_mod(diff);
        lemma_cong_mul(
            lagrange_den(y, sp) as int,
            iprod(id_points(sp), id_value(y) as int),
            (diff % l) as nat as int,
            diff,
        );
        lemma_cong_mod((lagrange_den(y, sp) * ((diff % l) as nat)) as int);
    }
}

/// Over ids without `y`, the Lagrange numerator of `y` is the product of the
/// `x_j`.
proof fn lemma_num_as_product(y: usize, s: Seq<usize>)
    requires
        !s.contains(y),
    ensures
        cong(lagrange_num(y, s) as int, iprod(id_points(s), 0)),
    decreases s.len(),
{
    if s.len() > 0 {
        let sp = s.drop_last();
        assert(!sp.contains(y)) by {
            if sp.contains(y) {
                let w = choose|w: int| 0 <= w < sp.len() && sp[w] == y;
                assert(s[w] == y);
            }
        }
        assert(s.last() != y) by {
            assert(s[s.len() - 1] == s.last());
        }
        lemma_num_as_product(y, sp);
        assert(id_points(s).drop_last() =~= id_points(sp));
        lemma_cong_mul(
            lagrange_num(y, sp) as int,
            iprod(id_points(sp), 0),
            id_value(s.last()) as int,
            id_value(s.last()) as int - 0,
        );
        lemma_cong_mod((lagrange_num(y, sp) * id_value(s.last())) as int);
    }
}

/// Where the denominator has an inverse, `lambda·den == num`.
proof fn lemma_lambda_times_den(i: usize, s: Seq<usize>)
    requires
        has_inverse(lagrange_den(i, s)),
    ensures
        cong(
            lagrange_coefficient(i, s) as int * lagrange_den(i, s) as int,
            lagrange_num(i, s) as int,
        ),
{
    let d = lagrange_den(i, s);
    let n = lagrange_num(i, s);
    let v = inverse_of(d);
    assert(v < group_order() && (d * v) % group_order() == 1);
    assert(d != 0) by {
        if d == 0 {
            assert(0 * v == 0) by (nonlinear_arith);
        }
    }
    lemma_cong_mod((n * v) as int);
    lemma_cong_mul(((n * v) % group_order()) as int, (n * v) as int, d as int, d as int);
    lemma_cong_mod((d * v) as int);
    lemma_cong_mul(n as int, n as int, (d * v) as int, 1);
    assert(n * v * d == n * (d * v)) by (nonlinear_arith);
}

/// Adding the id `y` to the end of the set: for an id `x_k` already there,
/// `lambda_k·(y - x_k)` over the larger set is `lambda_k·y` over the smaller.
proof fn lemma_lambda_step(t: Seq<usize>, k: int)
    requires
        strictly_increasing(t),
        0 <= k < t.len() - 1,
        has_inverse(lagrange_den(t[k], t)),
    ensures
        has_inverse(lagrange_den(t[k], t.drop_last())),
        cong(
            lagrange_coefficient(t[k], t) as int * (id_value(t.last()) - id_value(t[k])),
            lagrange_coefficient(t[k], t.drop_last()) as int * id_value(t.last()),
        ),
{
    let l = group_order() as int;
    let tp = t.drop_last();
    let i = t[k];
    assert(t.last() == t[t.len() - 1]);
    assert(i != t.last());
    let xy = id_value(t.last()) as int;
    let xk = id_value(i) as int;
    let dtp = lagrange_den(i, tp);
    let ntp = lagrange_num(i, tp);
    let d = ((xy - xk) % l) as nat;
    assert(lagrange_den(i, t) == (dtp * d) % group_order());
    assert(lagrange_num(i, t) == (ntp * id_value(t.last())) % group_order());
    lemma_inverse_factor(dtp, d);
    let lt = lagrange_coefficient(i, t) as int;
    let ltp = lagrange_coefficient(i, tp) as int;
    lemma_lambda_times_den(i, t);
    lemma_lambda_times_den(i, tp);
    // den_t == dtp·(y - x_k) and num_t == ntp·y, up to the group order.
    lemma_cong_mod(xy - xk);
    lemma_cong_mul(dtp as int, dtp as int, d as int, xy - xk);
    lemma_cong_mod((dtp * d) as int);
    lemma_cong_mul(lt, lt, lagrange_den(i, t) as int, dtp * (xy - xk));
    lemma_cong_mod(ntp * xy);
    // lt·dtp·(y - x_k) == ntp·y == ltp·dtp·y
    lemma_cong_mul(ltp * dtp, ntp as int, xy, xy);
    assert(lt * (dtp * (xy - xk)) == (lt * (xy - xk)) * dtp) by (nonlinear_arith);
    assert(ltp * dtp * xy == (ltp * xy) * dtp) by (nonlinear_arith);
    assert(cong((lt * (xy - xk)) * dtp, (ltp * xy) * dtp));
    lemma_cong_cancel(lt * (xy - xk), ltp * xy, dtp as int, dtp);
}

/// The Lagrange coefficient of the `k`-th id of `t`, over `t`.
pub open spec fn lam(t: Seq<usize>, k: int) -> int {
    lagrange_coefficient(t[k], t) as int
}

/// `sum_k lambda_k·c(x_k)` over the ids of `t`.
pub open spec fn lagrange_combination(t: Seq<usize>, c: Seq<int>) -> int {
    isum(t.len(), |k: int| lam(t, k) * ipoly(id_value(t[k]) as int, c))
}

/// The coefficients over `t` add up to one.
proof fn lemma_lambdas_sum_to_one(t: Seq<usize>)
    requires
        t.len() >= 2,
        strictly_increasing(t),
        forall|k: int| 0 <= k < t.len() ==> has_inverse(#[trigger] lagrange_den(t[k], t)),
        forall|c: Seq<int>|
            c.len() <= t.len() - 1 ==> cong(
                #[trigger] lagrange_combination(t.drop_last(), c),
                ipoly(0, c),
            ),
    ensures
        cong(isum(t.len(), |k: int| lam(t, k)), 1),
{
    let n = t.len();
    let m = (n - 1) as nat;
    let tp = t.drop_last();
    let y = t.last();
    assert(y == t[n - 1]);
    let xy = id_value(y) as int;
    let pts = id_points(tp);
    let p = prod_poly(pts);
    lemma_prod_poly(pts, xy);
    lemma_prod_poly(pts, 0);
    let r = quot(p, xy);
    lemma_quot(p, xy, 0);
    let pxy = ipoly(xy, p);
    let p0 = ipoly(0, p);
    let r0 = ipoly(0, r);
    // The combination over the smaller set of `r`, which has `n - 1` coefficients.
    assert(cong(lagrange_combination(tp, r), r0));
    let h = |k: int| lam(tp, k) * ipoly(id_value(tp[k]) as int, r);
    assert(lagrange_combination(tp, r) == isum(m, h));
    // lambda_k·P(y) == y·lambda'_k·R(x_k) for the old ids.
    let a = |k: int| lam(t, k) * pxy;
    let b = |k: int| xy * h(k);
    assert forall|k: int| 0 <= k < m implies cong(#[trigger] a(k), b(k)) by {
        let xk = id_value(t[k]) as int;
        assert(tp[k] == t[k]);
        assert(pts[k] == xk);
        lemma_iprod_root(pts, k);
        lemma_prod_poly(pts, xk);
        lemma_quot(p, xy, xk);
        let rk = ipoly(xk, r);
        assert(pxy == (xy - xk) * rk) by (nonlinear_arith)
            requires
                0 == pxy + (xk - xy) * rk,
        ;
        lemma_lambda_step(t, k);
        lemma_cong_mul(lam(t, k) * (xy - xk), lam(tp, k) * xy, rk, rk);
        assert(lam(t, k) * pxy == lam(t, k) * (xy - xk) * rk) by (nonlinear_arith)
            requires
                pxy == (xy - xk) * rk,
        ;
        assert(lam(tp, k) * xy * rk == xy * (lam(tp, k) * rk)) by (nonlinear_arith);
    }
    lemma_isum_cong(m, a, b);
    lemma_isum_scale(m, h, xy, b);
    let one = |k: int| lam(t, k);
    let a2 = |k: int| pxy * one(k);
    assert forall|k: int| 0 <= k < m implies #[trigger] a2(k) == a(k) by {
        assert(pxy * lam(t, k) == lam(t, k) * pxy) by (nonlinear_arith);
    }
    lemma_isum_ext(m, a2, a);
    lemma_isum_scale(m, one, pxy, a2);
    // pxy·sum_{k<m} lambda_k == y·R(0) == P(y) - P(0)
    lemma_cong_mul(xy, xy, lagrange_combination(tp, r), r0);
    assert(xy * r0 == pxy - p0) by (nonlinear_arith)
        requires
            p0 == pxy + (0 - xy) * r0,
    ;
    // lambda_y·P(y) == P(0)
    assert(!tp.contains(y)) by {
        if tp.contains(y) {
            let w = choose|w: int| 0 <= w < tp.len() && tp[w] == y;
            assert(t[w] == y);
        }
    }
    assert(lagrange_den(y, t) == lagrange_den(y, tp));
    assert(lagrange_num(y, t) == lagrange_num(y, tp));
    lemma_den_as_product(y, tp);
    lemma_num_as_product(y, tp);
    assert(has_inverse(lagrange_den(t[n - 1], t)));
    lemma_lambda_times_den(y, t);
    let ly = lam(t, n - 1);
    lemma_cong_mul(ly, ly, lagrange_den(y, t) as int, pxy);
    // (sum_{k<m} lambda_k + lambda_y)·P(y) == P(y)
    let sm = isum(m, one);
    assert(isum(n, one) == sm + ly);
    lemma_cong_add(pxy * sm, pxy - p0, ly * pxy, p0);
    assert((sm + ly) * pxy == pxy * sm + ly * pxy) by (nonlinear_arith);
    assert(1 * pxy == pxy);
    lemma_cong_cancel(sm + ly, 1, pxy, lagrange_den(y, t));
}

/// Lagrange interpolation over the integers modulo the group order: over
/// ids `t` whose denominators have inverses, `sum_k lambda_k·c(x_k)` is
/// `c(0)` for any `c` with at most `t.len()` coefficients.
proof fn lemma_interpolation(c: Seq<int>, t: Seq<usize>)
    requires
        strictly_increasing(t),
        c.len() <= t.len(),
        forall|k: int| 0 <= k < t.len() ==> has_inverse(#[trigger] lagrange_den(t[k], t)),
    ensures
        cong(lagrange_combination(t, c), ipoly(0, c)),
    decreases t.len(),
{
    let n = t.len();
    let f = |k: int| lam(t, k) * ipoly(id_value(t[k]) as int, c);
    assert(lagrange_combination(t, c) == isum(n, f));
    if n == 0 {
        assert(c =~= Seq::<int>::empty());
    } else if n == 1 {
        let y = t[0];
        assert(t.drop_last() =~= Seq::<usize>::empty());
        assert(t.last() == y);
        assert(lagrange_den(y, t.drop_last()) == 1);
        assert(lagrange_num(y, t.drop_last()) == 1);
        assert(lagrange_den(y, t) == 1);
        assert(lagrange_num(y, t) == 1);
        lemma_small_mod(1, group_order());
        lemma_inverse_unique(1, 1);
        assert(lam(t, 0) == 1);
        let x0 = id_value(y) as int;
        if c.len() == 1 {
            assert(c.drop_first() =~= Seq::<int>::empty());
            assert(ipoly(x0, c.drop_first()) == 0);
            assert(ipoly(0, c.drop_first()) == 0);
            assert(x0 * 0 == 0) by (nonlinear_arith);
        }
        assert(ipoly(x0, c) == ipoly(0, c));
        assert(isum(1, f) == isum(0, f) + f(0));
        assert(f(0) == lam(t, 0) * ipoly(x0, c));
        let v0 = ipoly(x0, c);
        assert(1 * v0 == v0) by (nonlinear_arith);
        assert(f(0) == ipoly(0, c));
        assert(isum(n, f) == ipoly(0, c));
    } else {
        let m = (n - 1) as nat;
        let tp = t.drop_last();
        let y = t.last();
        assert(y == t[n - 1]);
        let xy = id_value(y) as int;
        assert(strictly_increasing(tp));
        assert forall|k: int| 0 <= k < tp.len() implies has_inverse(
            #[trigger] lagrange_den(tp[k], tp),
        ) by {
            assert(tp[k] == t[k]);
            assert(has_inverse(lagrange_den(t[k], t)));
            lemma_lambda_step(t, k);
        }
        assert forall|c2: Seq<int>| c2.len() <= t.len() - 1 implies cong(
            #[trigger] lagrange_combination(tp, c2),
            ipoly(0, c2),
        ) by {
            lemma_interpolation(c2, tp);
        }
        lemma_lambdas_sum_to_one(t);
        let one = |k: int| lam(t, k);
        // Split c at y: c(X) == c(y) + (X - y)·q(X).
        let q = quot(c, xy);
        lemma_quot(c, xy, 0);
        let fy = ipoly(xy, c);
        let q0 = ipoly(0, q);
        assert(cong(lagrange_combination(tp, q), q0));
        let h = |k: int| lam(tp, k) * ipoly(id_value(tp[k]) as int, q);
        assert(lagrange_combination(tp, q) == isum(m, h));
        let g1 = |k: int| fy * one(k);
        let g2 = |k: int| lam(t, k) * ((id_value(t[k]) - xy) * ipoly(id_value(t[k]) as int, q));
        assert forall|k: int| 0 <= k < n implies #[trigger] f(k) == g1(k) + g2(k) by {
            let xk = id_value(t[k]) as int;
            lemma_quot(c, xy, xk);
            let qk = ipoly(xk, q);
            let lk = lam(t, k);
            assert(lk * (fy + (xk - xy) * qk) == fy * lk + lk * ((xk - xy) * qk))
                by (nonlinear_arith);
        }
        lemma_isum_add(n, g1, g2, f);
        lemma_isum_scale(n, one, fy, g1);
        // The last term of g2 vanishes; the others are -y·lambda'_k·q(x_k).
        let g3 = |k: int| (-xy) * h(k);
        assert forall|k: int| 0 <= k < m implies cong(#[trigger] g2(k), g3(k)) by {
            let xk = id_value(t[k]) as int;
            assert(tp[k] == t[k]);
            let qk = ipoly(xk, q);
            lemma_lambda_step(t, k);
            lemma_cong_mul(lam(t, k) * (xy - xk), lam(tp, k) * xy, -qk, -qk);
            assert(lam(t, k) * ((xk - xy) * qk) == lam(t, k) * (xy - xk) * (-qk))
                by (nonlinear_arith);
            assert(lam(tp, k) * xy * (-qk) == (-xy) * (lam(tp, k) * qk)) by (nonlinear_arith);
        }
        lemma_isum_cong(m, g2, g3);
        lemma_isum_scale(m, h, -xy, g3);
        assert(g2(n - 1) == 0) by {
            let qy = ipoly(xy, q);
            assert(lam(t, n - 1) * ((xy - xy) * qy) == 0) by (nonlinear_arith);
        }
        assert(isum(n, g2) == isum(m, g2) + g2(n - 1));
        lemma_cong_mul(-xy, -xy, lagrange_combination(tp, q), q0);
        lemma_cong_mul(fy, fy, isum(n, one), 1);
        lemma_cong_add(fy * isum(n, one), fy * 1, isum(m, g2), (-xy) * q0);
        assert(fy * 1 + (-xy) * q0 == ipoly(0, c)) by (nonlinear_arith)
            requires
                ipoly(0, c) == fy + (0 - xy) * q0,
        ;
        assert(cong(isum(m, g2), (-xy) * q0));
        assert(isum(n, f) == fy * isum(n, one) + isum(m, g2));
        assert(cong(isum(n, f), ipoly(0, c)));
    }
}

/// `poly_eval` on naturals is `ipoly` on the same coefficients.
proof fn lemma_poly_eval_ipoly(x: nat, c: Seq<nat>)
    ensures
        poly_eval(x, c) == ipoly(x as int, c.map_values(|v: nat| v as int)),
    decreases c.len(),
{
    if c.len() > 0 {
        lemma_poly_eval_ipoly(x, c.drop_first());
        assert(c.map_values(|v: nat| v as int).drop_first() =~= c.drop_first().map_values(
            |v: nat| v as int,
        ));
    }
}

proof fn lemma_nat_sum_isum(n: nat, v: Seq<nat>, f: spec_fn(int) -> int)
    requires
        v.len() == n,
        forall|k: int| 0 <= k < n ==> #[trigger] f(k) == v[k] as int,
    ensures
        nat_sum(v) == isum(n, f),
    decreases n,
{
    if n > 0 {
        lemma_nat_sum_isum((n - 1) as nat, v.drop_last(), f);
    }
}

/// Lagrange interpolation: over distinct ids `t` whose Lagrange
/// denominators have inverses modulo the group order, the Lagrange-weighted
/// values at the ids of any polynomial `c` with at most `t.len()`
/// coefficients add up to its value at zero, `c[0]`. (Every nonzero
/// denominator has an inverse, the group order being prime; the library
/// learns it of each denominator that `lagrange_lambda` inverts.)
pub proof fn lemma_lagrange_reconstructs(c: Seq<nat>, t: Seq<usize>)
    requires
        strictly_increasing(t),
        c.len() <= t.len(),
        forall|k: int| 0 <= k < t.len() ==> has_inverse(#[trigger] lagrange_den(t[k], t)),
    ensures
        nat_sum(
            Seq::new(
                t.len(),
                |k: int| lagrange_coefficient(t[k], t) * poly_eval(id_value(t[k]), c),
            ),
        ) % group_order() == poly_eval(0, c) % group_order(),
{
    let ci = c.map_values(|v: nat| v as int);
    lemma_interpolation(ci, t);
    let v = Seq::new(
        t.len(),
        |k: int| lagrange_coefficient(t[k], t) * poly_eval(id_value(t[k]), c),
    );
    let f = |k: int| lam(t, k) * ipoly(id_value(t[k]) as int, ci);
    assert forall|k: int| 0 <= k < t.len() implies #[trigger] f(k) == v[k] as int by {
        lemma_poly_eval_ipoly(id_value(t[k]), c);
    }
    lemma_nat_sum_isum(t.len(), v, f);
    assert(lagrange_combination(t, ci) == isum(t.len(), f));
    lemma_poly_eval_ipoly(0, c);
}

} // verus!
