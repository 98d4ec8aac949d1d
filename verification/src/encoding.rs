//! Little- and big-endian readings of byte strings as natural numbers.
use vstd::arithmetic::div_mod::lemma_fundamental_div_mod_converse;
use vstd::prelude::*;

verus! {

/// The natural number whose little-endian base-256 digits are `s`.
pub open spec fn le_nat(s: Seq<u8>) -> nat
    decreases s.len(),
{
    if s.len() == 0 {
        0
    } else {
        s[0] as nat + 256 * le_nat(s.drop_first())
    }
}

/// The natural number whose big-endian base-256 digits are `s`.
pub open spec fn be_nat(s: Seq<u8>) -> nat
    decreases s.len(),
{
    if s.len() == 0 {
        0
    } else {
        be_nat(s.drop_last()) * 256 + s.last() as nat
    }
}

/// `256` raised to the power `n`.
pub open spec fn pow256(n: nat) -> nat
    decreases n,
{
    if n == 0 {
        1
    } else {
        256 * pow256((n - 1) as nat)
    }
}

/// A little-endian number is below `256^len`.
pub proof fn lemma_le_nat_bound(s: Seq<u8>)
    ensures
        le_nat(s) < pow256(s.len()),
    decreases s.len(),
{
    if s.len() > 0 {
        lemma_le_nat_bound(s.drop_first());
    }
}

/// Appending a digit at the high end adds it with weight `256^len`.
pub proof fn lemma_le_nat_push(s: Seq<u8>, b: u8)
    ensures
        le_nat(s.push(b)) == le_nat(s) + b as nat * pow256(s.len()),
    decreases s.len(),
{
    if s.len() == 0 {
        assert(s.push(b).drop_first() =~= Seq::<u8>::empty());
        assert(s.push(b)[0] == b);
        assert(le_nat(s.push(b)) == b as nat + 256 * le_nat(s.push(b).drop_first()));
    } else {
        assert(s.push(b).drop_first() =~= s.drop_first().push(b));
        assert(s.push(b)[0] == s[0]);
        lemma_le_nat_push(s.drop_first(), b);
        assert(le_nat(s.push(b)) == s[0] as nat + 256 * le_nat(s.drop_first().push(b)));
        assert(pow256(s.len()) == 256 * pow256((s.len() - 1) as nat));
        assert(256 * (b as nat * pow256((s.len() - 1) as nat)) == b as nat * pow256(s.len()))
            by (nonlinear_arith)
            requires
                pow256(s.len()) == 256 * pow256((s.len() - 1) as nat),
        ;
    }
}

/// Appending zero digits at the high end does not change a little-endian number.
pub proof fn lemma_le_nat_zero_extend(s: Seq<u8>, n: nat)
    ensures
        le_nat(s + Seq::new(n, |i: int| 0u8)) == le_nat(s),
    decreases n,
{
    if n > 0 {
        let z = Seq::new((n - 1) as nat, |i: int| 0u8);
        lemma_le_nat_zero_extend(s, (n - 1) as nat);
        assert(s + Seq::new(n, |i: int| 0u8) =~= (s + z).push(0u8));
        lemma_le_nat_push(s + z, 0u8);
    }
}

/// Appending a digit at the low end of a big-endian number.
pub proof fn lemma_be_nat_push(s: Seq<u8>, b: u8)
    ensures
        be_nat(s.push(b)) == be_nat(s) * 256 + b as nat,
{
    assert(s.push(b).drop_last() =~= s);
}

/// The `n` little-endian base-256 digits of `v` (higher digits dropped).
pub open spec fn le_digits(v: nat, n: nat) -> Seq<u8>
    decreases n,
{
    if n == 0 {
        Seq::empty()
    } else {
        seq![(v % 256) as u8] + le_digits(v / 256, (n - 1) as nat)
    }
}

/// A byte string is the digit string of its own little-endian value.
pub proof fn lemma_le_digits_of_le_nat(s: Seq<u8>)
    ensures
        le_digits(le_nat(s), s.len()) == s,
    decreases s.len(),
{
    if s.len() > 0 {
        let v = le_nat(s);
        let t = s.drop_first();
        lemma_fundamental_div_mod_converse(v as int, 256, le_nat(t) as int, s[0] as int);
        lemma_le_digits_of_le_nat(t);
        assert(le_digits(v, s.len()) =~= seq![s[0]] + t);
        assert(seq![s[0]] + t =~= s);
    }
}

/// Reading the reversed digits big-endian gives the little-endian value.
pub proof fn lemma_be_nat_reverse(s: Seq<u8>)
    ensures
        be_nat(s.reverse()) == le_nat(s),
    decreases s.len(),
{
    if s.len() > 0 {
        let t = s.drop_first();
        lemma_be_nat_reverse(t);
        assert(s.reverse() =~= t.reverse().push(s[0]));
        lemma_be_nat_push(t.reverse(), s[0]);
    }
}

/// The little-endian digits of a 64-bit number.
pub open spec fn u64_le_digits(x: u64) -> Seq<u8> {
    seq![
        (x & 0xff) as u8,
        ((x >> 8) & 0xff) as u8,
        ((x >> 16) & 0xff) as u8,
        ((x >> 24) & 0xff) as u8,
        ((x >> 32) & 0xff) as u8,
        ((x >> 40) & 0xff) as u8,
        ((x >> 48) & 0xff) as u8,
        ((x >> 56) & 0xff) as u8,
    ]
}

/// The eight little-endian digits of `x` read back give `x`.
pub proof fn lemma_u64_le_digits(x: u64)
    ensures
        u64_le_digits(x).len() == 8,
        le_nat(u64_le_digits(x)) == x,
{
    let d = u64_le_digits(x);
    let b0 = (x & 0xff) as u64;
    let b1 = ((x >> 8) & 0xff) as u64;
    let b2 = ((x >> 16) & 0xff) as u64;
    let b3 = ((x >> 24) & 0xff) as u64;
    let b4 = ((x >> 32) & 0xff) as u64;
    let b5 = ((x >> 40) & 0xff) as u64;
    let b6 = ((x >> 48) & 0xff) as u64;
    let b7 = ((x >> 56) & 0xff) as u64;
    assert(x as int == b0 + 256 * (b1 + 256 * (b2 + 256 * (b3 + 256 * (b4 + 256 * (b5 + 256 * (b6
        + 256 * b7))))))) by (bit_vector)
        requires
            b0 == x & 0xff,
            b1 == (x >> 8) & 0xff,
            b2 == (x >> 16) & 0xff,
            b3 == (x >> 24) & 0xff,
            b4 == (x >> 32) & 0xff,
            b5 == (x >> 40) & 0xff,
            b6 == (x >> 48) & 0xff,
            b7 == (x >> 56) & 0xff,
    ;
    assert(b0 < 256 && b1 < 256 && b2 < 256 && b3 < 256 && b4 < 256 && b5 < 256 && b6 < 256 && b7
        < 256) by (bit_vector)
        requires
            b0 == x & 0xff,
            b1 == (x >> 8) & 0xff,
            b2 == (x >> 16) & 0xff,
            b3 == (x >> 24) & 0xff,
            b4 == (x >> 32) & 0xff,
            b5 == (x >> 40) & 0xff,
            b6 == (x >> 48) & 0xff,
            b7 == (x >> 56) & 0xff,
    ;
    reveal_with_fuel(le_nat, 9);
    assert(d.drop_first() =~= seq![d[1], d[2], d[3], d[4], d[5], d[6], d[7]]);
    assert(d.drop_first().drop_first() =~= seq![d[2], d[3], d[4], d[5], d[6], d[7]]);
    assert(d.drop_first().drop_first().drop_first() =~= seq![d[3], d[4], d[5], d[6], d[7]]);
    assert(d.drop_first().drop_first().drop_first().drop_first() =~= seq![d[4], d[5], d[6], d[7]]);
    assert(d.drop_first().drop_first().drop_first().drop_first().drop_first() =~= seq![
        d[5],
        d[6],
        d[7],
    ]);
    assert(d.drop_first().drop_first().drop_first().drop_first().drop_first().drop_first()
        =~= seq![d[6], d[7]]);
    assert(d.drop_first().drop_first().drop_first().drop_first().drop_first().drop_first().drop_first()
        =~= seq![d[7]]);
    assert(d.drop_first().drop_first().drop_first().drop_first().drop_first().drop_first().drop_first().drop_first()
        =~= Seq::<u8>::empty());
}

/// The eight little-endian bytes of `x`.
pub fn u64_to_le_bytes(x: u64) -> (r: [u8; 8])
    ensures
        r@ == u64_le_digits(x),
        le_nat(r@) == x,
{
    let r: [u8; 8] = [
        (x & 0xff) as u8,
        ((x >> 8) & 0xff) as u8,
        ((x >> 16) & 0xff) as u8,
        ((x >> 24) & 0xff) as u8,
        ((x >> 32) & 0xff) as u8,
        ((x >> 40) & 0xff) as u8,
        ((x >> 48) & 0xff) as u8,
        ((x >> 56) & 0xff) as u8,
    ];
    proof {
        assert(r@ =~= u64_le_digits(x));
        lemma_u64_le_digits(x);
    }
    r
}

/// Concatenates two byte strings.
pub fn concat(a: &[u8], b: &[u8]) -> (r: Vec<u8>)
    ensures
        r@ == a@ + b@,
{
    let mut r: Vec<u8> = Vec::new();
    let mut k: usize = 0;
    while k < a.len()
        invariant
            k <= a@.len(),
            r@ == a@.take(k as int),
        decreases a@.len() - k,
    {
        r.push(a[k]);
        k = k + 1;
        proof {
            assert(r@ =~= a@.take(k as int));
        }
    }
    let mut k: usize = 0;
    while k < b.len()
        invariant
            k <= b@.len(),
            r@ == a@ + b@.take(k as int),
        decreases b@.len() - k,
    {
        r.push(b[k]);
        k = k + 1;
        proof {
            assert(r@ =~= a@ + b@.take(k as int));
        }
    }
    proof {
        assert(a@.take(a@.len() as int) =~= a@);
        assert(b@.take(b@.len() as int) =~= b@);
    }
    r
}

/// A fresh vector holding the bytes of `a`.
pub fn copy_bytes(a: &[u8]) -> (r: Vec<u8>)
    ensures
        r@ == a@,
{
    let mut r: Vec<u8> = Vec::new();
    let mut k: usize = 0;
    while k < a.len()
        invariant
            k <= a@.len(),
            r@ == a@.take(k as int),
        decreases a@.len() - k,
    {
        r.push(a[k]);
        k = k + 1;
        proof {
            assert(r@ =~= a@.take(k as int));
        }
    }
    proof {
        assert(a@.take(a@.len() as int) =~= a@);
    }
    r
}

} // verus!
