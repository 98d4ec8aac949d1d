//! Scalars modulo the group order and points of the prime-order subgroup of
//! the Edwards form of Curve25519.
//!
//! Both are held as their 32-byte canonical encodings. Scalar arithmetic is
//! stated exactly (modulo the group order); what the point operations return
//! is named, as a function of the operands' encodings.
use crate::encoding::{
    be_nat, le_digits, le_nat, lemma_be_nat_push, lemma_be_nat_reverse, lemma_le_digits_of_le_nat,
    lemma_le_nat_zero_extend, u64_to_le_bytes,
};
use vstd::arithmetic::div_mod::{
    lemma_add_mod_noop, lemma_mul_mod_noop_left, lemma_mul_mod_noop_right, lemma_small_mod,
};
use crate::rng::fill_random;
use curve25519_dalek::constants::ED25519_BASEPOINT_TABLE;
use curve25519_dalek::edwards::SubgroupPoint;
use curve25519_dalek::scalar::Scalar as DalekScalar;
use group::cofactor::CofactorGroup;
use group::{Group, GroupEncoding};
use vstd::prelude::*;

verus! {

/// The order of the prime-order subgroup of Curve25519,
/// `2^252 + 27742317777372353535851937790883648493`.
pub open spec fn group_order() -> nat {
    7237005577332262213973186563042994240857116359379907606001950938285454250989nat
}

/// The canonical 32-byte little-endian encoding of the scalar with value `v`.
pub open spec fn scalar_enc(v: nat) -> Seq<u8> {
    le_digits(v, 32)
}

/// The scalar value of the little-endian number held by the first (up to) 64
/// bytes of `buf`, reduced modulo the group order.
pub open spec fn bytes_mod_order(buf: Seq<u8>) -> nat {
    le_nat(buf.take(if buf.len() >= 64 { 64 } else { buf.len() as int })) % group_order()
}

/// A buffer of at most 64 bytes is read whole: its scalar is the
/// little-endian number it holds, reduced modulo the group order (a 64-byte
/// digest counts with all its bytes).
pub proof fn lemma_bytes_mod_order_reads_whole(buf: Seq<u8>)
    requires
        buf.len() <= 64,
    ensures
        bytes_mod_order(buf) == le_nat(buf) % group_order(),
{
    assert(buf.take(buf.len() as int) =~= buf);
}

/// Bytes after the first 64 do not count.
pub proof fn lemma_bytes_mod_order_cuts_at_64(buf: Seq<u8>)
    requires
        buf.len() >= 64,
    ensures
        bytes_mod_order(buf) == le_nat(buf.take(64)) % group_order(),
        bytes_mod_order(buf) == bytes_mod_order(buf.take(64)),
{
    assert(buf.take(64).take(64) =~= buf.take(64));
}

// ---------------------------------------------------------------------------
// Trusted items over curve25519-dalek
// ---------------------------------------------------------------------------

/// `Scalar::from_bytes_mod_order_wide` followed by `Scalar::to_bytes`: the
/// 512-bit little-endian number `buf` reduced modulo the group order, in its
/// canonical little-endian encoding.
#[verifier::external_body]
fn dalek_reduce_wide(buf: &[u8; 64]) -> (r: [u8; 32])
    ensures
        le_nat(r@) == le_nat(buf@) % group_order(),
{
    DalekScalar::from_bytes_mod_order_wide(buf).to_bytes()
}

/// `Scalar::from_canonical_bytes`: whether `bytes` is the canonical encoding
/// of a scalar, that is, a little-endian number below the group order.
#[verifier::external_body]
fn dalek_is_canonical(bytes: &[u8; 32]) -> (r: bool)
    ensures
        r == (le_nat(bytes@) < group_order()),
{
    bool::from(DalekScalar::from_canonical_bytes(*bytes).is_some())
}

/// `Scalar + Scalar`: addition modulo the group order.
#[verifier::external_body]
fn dalek_scalar_add(a: &[u8; 32], b: &[u8; 32]) -> (r: [u8; 32])
    requires
        le_nat(a@) < group_order(),
        le_nat(b@) < group_order(),
    ensures
        le_nat(r@) == (le_nat(a@) + le_nat(b@)) % group_order(),
{
    let x = DalekScalar::from_canonical_bytes(*a).unwrap();
    let y = DalekScalar::from_canonical_bytes(*b).unwrap();
    (x + y).to_bytes()
}

/// `Scalar - Scalar`: subtraction modulo the group order.
#[verifier::external_body]
fn dalek_scalar_sub(a: &[u8; 32], b: &[u8; 32]) -> (r: [u8; 32])
    requires
        le_nat(a@) < group_order(),
        le_nat(b@) < group_order(),
    ensures
        le_nat(r@) == (le_nat(a@) - le_nat(b@)) % (group_order() as int),
{
    let x = DalekScalar::from_canonical_bytes(*a).unwrap();
    let y = DalekScalar::from_canonical_bytes(*b).unwrap();
    (x - y).to_bytes()
}

/// `Scalar * Scalar`: multiplication modulo the group order.
#[verifier::external_body]
fn dalek_scalar_mul(a: &[u8; 32], b: &[u8; 32]) -> (r: [u8; 32])
    requires
        le_nat(a@) < group_order(),
        le_nat(b@) < group_order(),
    ensures
        le_nat(r@) == (le_nat(a@) * le_nat(b@)) % group_order(),
{
    let x = DalekScalar::from_canonical_bytes(*a).unwrap();
    let y = DalekScalar::from_canonical_bytes(*b).unwrap();
    (x * y).to_bytes()
}

/// `a` has a multiplicative inverse modulo the group order.
pub open spec fn has_inverse(a: nat) -> bool {
    exists|r: nat| r < group_order() && #[trigger] ((a * r) % group_order()) == 1
}

/// The multiplicative inverse of `a` modulo the group order, where it has one.
pub open spec fn inverse_of(a: nat) -> nat {
    choose|r: nat| r < group_order() && #[trigger] ((a * r) % group_order()) == 1
}

/// An inverse below the group order is the only one.
pub proof fn lemma_inverse_unique(a: nat, r: nat)
    requires
        r < group_order(),
        (a * r) % group_order() == 1,
    ensures
        has_inverse(a),
        inverse_of(a) == r,
{
    assert(has_inverse(a));
    let q = inverse_of(a);
    let l = group_order() as int;
    assert(q < group_order() && (a * q) % group_order() == 1);
    lemma_mul_mod_noop_right(r as int, (a * q) as int, l);
    lemma_mul_mod_noop_right(q as int, (a * r) as int, l);
    lemma_small_mod(r, group_order());
    lemma_small_mod(q, group_order());
    assert(r * 1 == r);
    assert(q * 1 == q);
    assert((r * ((a * q) % group_order())) % group_order() == r);
    assert((q * ((a * r) % group_order())) % group_order() == q);
    assert(r * (a * q) == q * (a * r)) by (nonlinear_arith);
}

/// `Scalar::invert` of a nonzero scalar: its multiplicative inverse modulo the
/// group order, in canonical encoding.
#[verifier::external_body]
fn dalek_scalar_invert(a: &[u8; 32]) -> (r: [u8; 32])
    requires
        le_nat(a@) < group_order(),
        le_nat(a@) != 0,
    ensures
        le_nat(r@) < group_order(),
        (le_nat(a@) * le_nat(r@)) % group_order() == 1,
{
    DalekScalar::from_canonical_bytes(*a).unwrap().invert().to_bytes()
}

/// What `SubgroupPoint::from_bytes` makes of `bytes`: `None` where they do not
/// decode to a point of the prime-order subgroup, else the point, taken by its
/// canonical encoding (`GroupEncoding::to_bytes`).
pub uninterp spec fn subgroup_decode(bytes: Seq<u8>) -> Option<Seq<u8>>;

/// The encoding of the sum of the two points encoded by `a` and `b`
/// (`SubgroupPoint + SubgroupPoint`).
pub uninterp spec fn subgroup_add(a: Seq<u8>, b: Seq<u8>) -> Seq<u8>;

/// The encoding of the difference of the two points encoded by `a` and `b`
/// (`SubgroupPoint - SubgroupPoint`).
pub uninterp spec fn subgroup_sub(a: Seq<u8>, b: Seq<u8>) -> Seq<u8>;

/// The encoding of the point encoded by `p` multiplied by the scalar encoded
/// by `k` (`SubgroupPoint * Scalar`).
pub uninterp spec fn subgroup_mul(p: Seq<u8>, k: Seq<u8>) -> Seq<u8>;

/// The encoding of the basepoint multiplied by the scalar encoded by `k`
/// (`ED25519_BASEPOINT_TABLE * Scalar`, taken into the subgroup).
pub uninterp spec fn basepoint_mul(k: Seq<u8>) -> Seq<u8>;

/// `a·G`: the basepoint multiplied by `a` taken modulo the group order. The
/// subgroup is cyclic of that prime order and generated by `G`, so every
/// point is `a·G` for one `a` modulo the order, and the operations of the
/// group act on these multiples as on the integers modulo the order (the
/// `group::Group` and `PrimeGroup` laws that `SubgroupPoint` implements).
pub open spec fn gmul(a: int) -> Seq<u8> {
    basepoint_mul(scalar_enc((a % (group_order() as int)) as nat))
}

/// `z - w·c` is `n` modulo the group order where `z` is `c·w + n` reduced.
pub proof fn lemma_mod_undo(z: int, c: int, w: int, n: int)
    requires
        z == (c * w + n) % (group_order() as int),
    ensures
        (z - w * c) % (group_order() as int) == n % (group_order() as int),
{
    let l = group_order() as int;
    let q = (c * w + n) / l;
    vstd::arithmetic::div_mod::lemma_fundamental_div_mod(c * w + n, l);
    vstd::arithmetic::div_mod::lemma_mod_multiples_vanish(-q, n, l);
    assert(l * (-q) + n == z - w * c) by (nonlinear_arith)
        requires
            c * w + n == l * q + z,
    ;
}

/// Whether `b` is the canonical encoding of a point of the prime-order subgroup.
pub open spec fn is_point_encoding(b: Seq<u8>) -> bool {
    subgroup_decode(b) == Some(b)
}

/// The canonical encoding of the identity point: `y = 1`, `x = 0`.
pub open spec fn identity_encoding() -> Seq<u8> {
    seq![1u8].add(Seq::new(31, |i: int| 0u8))
}

/// The canonical encoding of the Ed25519 basepoint.
pub open spec fn basepoint_encoding() -> Seq<u8> {
    seq![0x58u8].add(Seq::new(31, |i: int| 0x66u8))
}

/// `SubgroupPoint::from_bytes` then `to_bytes`: decodes `bytes` and, where they
/// encode a point of the prime-order subgroup, gives back that point's
/// canonical encoding, which itself decodes to the same point.
#[verifier::external_body]
fn dalek_decode_point(bytes: &[u8; 32]) -> (r: Option<[u8; 32]>)
    ensures
        match r {
            Some(c) => subgroup_decode(bytes@) == Some(c@) && is_point_encoding(c@),
            None => subgroup_decode(bytes@) is None,
        },
{
    let p: Option<SubgroupPoint> = SubgroupPoint::from_bytes(bytes).into();
    match p {
        Some(q) => Some(q.to_bytes()),
        None => None,
    }
}

/// `SubgroupPoint::identity().to_bytes()`: the encoding `[1, 0, ..., 0]` of
/// the neutral element, `0·G`.
#[verifier::external_body]
fn dalek_identity() -> (r: [u8; 32])
    ensures
        r@ == identity_encoding(),
        r@ == gmul(0),
        is_point_encoding(r@),
{
    SubgroupPoint::identity().to_bytes()
}

/// `SubgroupPoint::generator().to_bytes()`: the Ed25519 basepoint `1·G`,
/// whose encoding is `ED25519_BASEPOINT_COMPRESSED`.
#[verifier::external_body]
fn dalek_generator() -> (r: [u8; 32])
    ensures
        r@ == basepoint_encoding(),
        r@ == gmul(1),
        is_point_encoding(r@),
{
    SubgroupPoint::generator().to_bytes()
}

/// `SubgroupPoint + SubgroupPoint`, on canonical encodings: the group law,
/// so `u·G + v·G == (u + v)·G`.
#[verifier::external_body]
fn dalek_point_add(a: &[u8; 32], b: &[u8; 32]) -> (r: [u8; 32])
    requires
        is_point_encoding(a@),
        is_point_encoding(b@),
    ensures
        r@ == subgroup_add(a@, b@),
        forall|u: int, v: int|
            #![trigger gmul(u), gmul(v)]
            a@ == gmul(u) && b@ == gmul(v) ==> r@ == gmul(u + v),
        is_point_encoding(r@),
{
    let p = SubgroupPoint::from_bytes(a).unwrap();
    let q = SubgroupPoint::from_bytes(b).unwrap();
    (p + q).to_bytes()
}

/// `SubgroupPoint - SubgroupPoint`, on canonical encodings: the group law,
/// so `u·G - v·G == (u - v)·G`.
#[verifier::external_body]
fn dalek_point_sub(a: &[u8; 32], b: &[u8; 32]) -> (r: [u8; 32])
    requires
        is_point_encoding(a@),
        is_point_encoding(b@),
    ensures
        r@ == subgroup_sub(a@, b@),
        forall|u: int, v: int|
            #![trigger gmul(u), gmul(v)]
            a@ == gmul(u) && b@ == gmul(v) ==> r@ == gmul(u - v),
        is_point_encoding(r@),
{
    let p = SubgroupPoint::from_bytes(a).unwrap();
    let q = SubgroupPoint::from_bytes(b).unwrap();
    (p - q).to_bytes()
}

/// `SubgroupPoint * Scalar`, on canonical encodings: scalar multiplication,
/// so `(u·G)·k == (u·k)·G`.
#[verifier::external_body]
fn dalek_point_mul(p: &[u8; 32], k: &[u8; 32]) -> (r: [u8; 32])
    requires
        is_point_encoding(p@),
        le_nat(k@) < group_order(),
    ensures
        r@ == subgroup_mul(p@, k@),
        forall|u: int| p@ == #[trigger] gmul(u) ==> r@ == gmul(u * le_nat(k@)),
        is_point_encoding(r@),
{
    let q = SubgroupPoint::from_bytes(p).unwrap();
    let x = DalekScalar::from_canonical_bytes(*k).unwrap();
    (q * x).to_bytes()
}

/// `ED25519_BASEPOINT_TABLE * Scalar`, taken into the prime-order subgroup
/// (which holds every multiple of the basepoint), on canonical encodings.
#[verifier::external_body]
fn dalek_basepoint_mul(k: &[u8; 32]) -> (r: [u8; 32])
    requires
        le_nat(k@) < group_order(),
    ensures
        r@ == basepoint_mul(k@),
        is_point_encoding(r@),
{
    let x = DalekScalar::from_canonical_bytes(*k).unwrap();
    let ep = ED25519_BASEPOINT_TABLE * &x;
    let sp: Option<SubgroupPoint> = ep.into_subgroup().into();
    sp.unwrap().to_bytes()
}

// ---------------------------------------------------------------------------
// Scalars
// ---------------------------------------------------------------------------

/// An integer modulo the group order, held as its canonical 32-byte
/// little-endian encoding.
#[derive(Clone, Copy, Debug, PartialEq, Eq)]
pub struct Scalar {
    bytes: [u8; 32],
}

impl View for Scalar {
    type V = Seq<u8>;

    closed spec fn view(&self) -> Seq<u8> {
        self.bytes@
    }
}

impl Scalar {
    #[verifier::type_invariant]
    spec fn wf(self) -> bool {
        le_nat(self.bytes@) < group_order()
    }

    /// The integer that the scalar stands for, below the group order.
    pub open spec fn value(self) -> nat {
        le_nat(self@)
    }

    /// A scalar's encoding is 32 bytes, which read modulo the group order
    /// give its value modulo the group order.
    pub proof fn lemma_encoding_read_back(self)
        ensures
            self@.len() == 32,
            bytes_mod_order(self@) == self.value() % group_order(),
    {
        assert(self@.take(32) =~= self@);
    }

    /// The scalar `0`.
    pub fn zero() -> (r: Scalar)
        ensures
            r.value() == 0,
            r@ == scalar_enc(r.value()),
    {
        let bytes = [0u8; 32];
        proof {
            lemma_le_nat_zero_extend(Seq::<u8>::empty(), 32);
            assert(Seq::<u8>::empty() + Seq::new(32, |i: int| 0u8) =~= bytes@);
            lemma_le_digits_of_le_nat(bytes@);
        }
        Scalar { bytes }
    }

    /// The scalar whose value is `n`.
    pub fn from_u64(n: u64) -> (r: Scalar)
        ensures
            r.value() == n,
            r@ == scalar_enc(r.value()),
    {
        let digits = u64_to_le_bytes(n);
        let mut bytes = [0u8; 32];
        let mut k: usize = 0;
        while k < 8
            invariant
                k <= 8,
                forall|j: int| 0 <= j < k ==> bytes@[j] == digits@[j],
                forall|j: int| 8 <= j < 32 ==> bytes@[j] == 0u8,
            decreases 8 - k,
        {
            bytes[k] = digits[k];
            k = k + 1;
        }
        proof {
            lemma_le_nat_zero_extend(digits@, 24);
            assert(digits@ + Seq::new(24, |i: int| 0u8) =~= bytes@);
            assert(n < group_order());
            lemma_le_digits_of_le_nat(bytes@);
        }
        Scalar { bytes }
    }

    /// The scalar `1`.
    pub fn one() -> (r: Scalar)
        ensures
            r.value() == 1,
            r@ == scalar_enc(r.value()),
    {
        Scalar::from_u64(1)
    }

    /// The scalar encoded by `bytes`, if they are a canonical encoding.
    pub fn from_canonical_bytes(bytes: [u8; 32]) -> (r: Option<Scalar>)
        ensures
            r is Some <==> le_nat(bytes@) < group_order(),
            r matches Some(s) ==> s@ == bytes@,
    {
        if dalek_is_canonical(&bytes) {
            Some(Scalar { bytes })
        } else {
            None
        }
    }

    /// The scalar read from up to the first 64 bytes of `buf` as a
    /// little-endian number (missing high bytes count as zero), reduced
    /// modulo the group order. Longer input is cut after 64 bytes.
    pub fn from_bytes_mod_order(buf: &[u8]) -> (r: Scalar)
        ensures
            r.value() == bytes_mod_order(buf@),
            buf@.len() <= 64 ==> r.value() == le_nat(buf@) % group_order(),
            buf@.len() >= 64 ==> r.value() == le_nat(buf@.take(64)) % group_order(),
            r@ == scalar_enc(r.value()),
    {
        proof {
            if buf@.len() <= 64 {
                lemma_bytes_mod_order_reads_whole(buf@);
            } else {
                lemma_bytes_mod_order_cuts_at_64(buf@);
            }
        }
        let end: usize = if buf.len() >= 64 { 64 } else { buf.len() };
        let mut wide = [0u8; 64];
        let mut k: usize = 0;
        while k < end
            invariant
                k <= end,
                end <= 64,
                end <= buf@.len(),
                forall|j: int| 0 <= j < k ==> wide@[j] == buf@[j],
                forall|j: int| k <= j < 64 ==> wide@[j] == 0u8,
            decreases end - k,
        {
            wide[k] = buf[k];
            k = k + 1;
        }
        proof {
            let head = buf@.take(end as int);
            lemma_le_nat_zero_extend(head, (64 - end) as nat);
            assert(head + Seq::new((64 - end) as nat, |i: int| 0u8) =~= wide@);
        }
        let bytes = dalek_reduce_wide(&wide);
        proof {
            assert(group_order() > 0);
            lemma_le_digits_of_le_nat(bytes@);
        }
        Scalar { bytes }
    }

    /// The integer whose big-endian digits are `digits`, reduced modulo the
    /// group order.
    pub fn from_be_digits(digits: &[u8]) -> (r: Scalar)
        ensures
            r.value() == be_nat(digits@) % group_order(),
            r@ == scalar_enc(r.value()),
    {
        let base = Scalar::from_u64(256);
        let mut acc = Scalar::zero();
        let mut k: usize = 0;
        proof {
            assert(digits@.take(0) =~= Seq::<u8>::empty());
            assert(be_nat(digits@.take(0)) == 0);
            lemma_small_mod(0, group_order());
        }
        while k < digits.len()
            invariant
                k <= digits@.len(),
                base.value() == 256,
                acc.value() == be_nat(digits@.take(k as int)) % group_order(),
                acc@ == scalar_enc(acc.value()),
            decreases digits@.len() - k,
        {
            let d = Scalar::from_u64(digits[k] as u64);
            let shifted = acc.mul(&base);
            let next = shifted.add(&d);
            proof {
                let l = group_order() as int;
                let prev = be_nat(digits@.take(k as int));
                assert(digits@.take(k + 1) =~= digits@.take(k as int).push(digits@[k as int]));
                lemma_be_nat_push(digits@.take(k as int), digits@[k as int]);
                lemma_mul_mod_noop_left(prev as int, 256, l);
                lemma_add_mod_noop((prev * 256) as int, digits@[k as int] as int, l);
                lemma_small_mod(digits@[k as int] as nat, group_order());
            }
            acc = next;
            k = k + 1;
        }
        proof {
            assert(digits@.take(digits@.len() as int) =~= digits@);
        }
        acc
    }

    /// The value as 32 big-endian digits.
    pub fn to_be_digits(&self) -> (r: Vec<u8>)
        ensures
            r@ == self@.reverse(),
            be_nat(r@) == self.value(),
    {
        let mut r: Vec<u8> = Vec::new();
        let mut k: usize = 32;
        while k > 0
            invariant
                k <= 32,
                self.bytes@.len() == 32,
                r@ == self.bytes@.subrange(k as int, 32).reverse(),
            decreases k,
        {
            k = k - 1;
            r.push(self.bytes[k]);
            proof {
                assert(r@ =~= self.bytes@.subrange(k as int, 32).reverse());
            }
        }
        proof {
            assert(self.bytes@.subrange(0, 32) =~= self.bytes@);
            lemma_be_nat_reverse(self.bytes@);
        }
        r
    }

    /// A scalar drawn from 64 bytes of the operating system's random number
    /// generator, reduced modulo the group order. Which bytes come is
    /// chance: every scalar is a possible outcome.
    pub fn random() -> (r: Scalar)
        ensures
            exists|buf: Seq<u8>| buf.len() == 64 && #[trigger] bytes_mod_order(buf) == r.value(),
            r@ == scalar_enc(r.value()),
    {
        let mut buf = [0u8; 64];
        fill_random(&mut buf);
        let r = Scalar::from_bytes_mod_order(&buf);
        proof {
            assert(buf@.len() == 64 && bytes_mod_order(buf@) == r.value());
        }
        r
    }

    /// The canonical little-endian encoding.
    pub fn to_bytes(&self) -> (r: [u8; 32])
        ensures
            r@ == self@,
            le_nat(r@) == self.value(),
            self.value() < group_order(),
            self@ == scalar_enc(self.value()),
    {
        proof {
            use_type_invariant(self);
            lemma_le_digits_of_le_nat(self.bytes@);
        }
        self.bytes
    }

    /// Addition modulo the group order.
    pub fn add(&self, other: &Scalar) -> (r: Scalar)
        ensures
            r.value() == (self.value() + other.value()) % group_order(),
            self.value() < group_order(),
            other.value() < group_order(),
            r@ == scalar_enc(r.value()),
    {
        proof {
            use_type_invariant(self);
            use_type_invariant(other);
        }
        let bytes = dalek_scalar_add(&self.bytes, &other.bytes);
        proof {
            lemma_le_digits_of_le_nat(bytes@);
        }
        Scalar { bytes }
    }

    /// Subtraction modulo the group order.
    pub fn sub(&self, other: &Scalar) -> (r: Scalar)
        ensures
            r.value() == (self.value() - other.value()) % (group_order() as int),
            self.value() < group_order(),
            other.value() < group_order(),
            r@ == scalar_enc(r.value()),
    {
        proof {
            use_type_invariant(self);
            use_type_invariant(other);
        }
        let bytes = dalek_scalar_sub(&self.bytes, &other.bytes);
        proof {
            lemma_le_digits_of_le_nat(bytes@);
        }
        Scalar { bytes }
    }

    /// Multiplication modulo the group order.
    pub fn mul(&self, other: &Scalar) -> (r: Scalar)
        ensures
            r.value() == (self.value() * other.value()) % group_order(),
            self.value() < group_order(),
            other.value() < group_order(),
            r@ == scalar_enc(r.value()),
    {
        proof {
            use_type_invariant(self);
            use_type_invariant(other);
        }
        let bytes = dalek_scalar_mul(&self.bytes, &other.bytes);
        proof {
            lemma_le_digits_of_le_nat(bytes@);
        }
        Scalar { bytes }
    }

    /// Whether the scalar is zero.
    pub fn is_zero(&self) -> (r: bool)
        ensures
            r == (self.value() == 0),
    {
        let mut k: usize = 0;
        while k < 32
            invariant
                k <= 32,
                forall|j: int| 0 <= j < k ==> self.bytes@[j] == 0u8,
            decreases 32 - k,
        {
            if self.bytes[k] != 0 {
                proof {
                    lemma_le_nat_nonzero_digit(self.bytes@, k as int);
                }
                return false;
            }
            k = k + 1;
        }
        proof {
            lemma_le_nat_zero_extend(Seq::<u8>::empty(), 32);
            assert(self.bytes@ =~= Seq::<u8>::empty() + Seq::new(32, |i: int| 0u8));
        }
        true
    }

    /// The multiplicative inverse modulo the group order; zero for zero.
    pub fn invert(&self) -> (r: Scalar)
        ensures
            self.value() == 0 ==> r.value() == 0,
            self.value() != 0 ==> has_inverse(self.value()),
            self.value() != 0 ==> r.value() == inverse_of(self.value()),
            self.value() != 0 ==> (self.value() * r.value()) % group_order() == 1,
            self.value() < group_order(),
            r@ == scalar_enc(r.value()),
    {
        proof {
            use_type_invariant(self);
        }
        if self.is_zero() {
            Scalar::zero()
        } else {
            let bytes = dalek_scalar_invert(&self.bytes);
            proof {
                lemma_inverse_unique(le_nat(self.bytes@), le_nat(bytes@));
                lemma_le_digits_of_le_nat(bytes@);
            }
            Scalar { bytes }
        }
    }

    /// The value is below the group order and the encoding canonical: facts
    /// of every scalar, which this call, doing no work, makes known.
    pub fn reduced(&self)
        ensures
            self.value() < group_order(),
            self@ == scalar_enc(self.value()),
    {
        proof {
            use_type_invariant(self);
            lemma_le_digits_of_le_nat(self.bytes@);
        }
    }
}

/// A nonzero digit makes a little-endian number nonzero.
pub proof fn lemma_le_nat_nonzero_digit(s: Seq<u8>, k: int)
    requires
        0 <= k < s.len(),
        s[k] != 0,
    ensures
        le_nat(s) != 0,
    decreases s.len(),
{
    if k > 0 {
        lemma_le_nat_nonzero_digit(s.drop_first(), k - 1);
    }
}

// ---------------------------------------------------------------------------
// Points
// ---------------------------------------------------------------------------

/// A point of the prime-order subgroup of Curve25519, held as its canonical
/// 32-byte encoding.
#[derive(Clone, Copy, Debug, PartialEq, Eq)]
pub struct Point {
    bytes: [u8; 32],
}

impl View for Point {
    type V = Seq<u8>;

    closed spec fn view(&self) -> Seq<u8> {
        self.bytes@
    }
}

impl Point {
    #[verifier::type_invariant]
    spec fn wf(self) -> bool {
        is_point_encoding(self.bytes@)
    }

    /// The point encoded by `buf`, if `buf` has 32 bytes and encodes a point of
    /// the prime-order subgroup; the point is held in canonical encoding.
    pub fn from_bytes(buf: &[u8]) -> (r: Option<Point>)
        ensures
            r is Some <==> (buf@.len() == 32 && subgroup_decode(buf@) is Some),
            r matches Some(p) ==> subgroup_decode(buf@) == Some(p@),
    {
        if buf.len() != 32 {
            return None;
        }
        let mut arr = [0u8; 32];
        let mut k: usize = 0;
        while k < 32
            invariant
                k <= 32,
                buf@.len() == 32,
                forall|j: int| 0 <= j < k ==> arr@[j] == buf@[j],
            decreases 32 - k,
        {
            arr[k] = buf[k];
            k = k + 1;
        }
        proof {
            assert(arr@ =~= buf@);
        }
        match dalek_decode_point(&arr) {
            Some(bytes) => Some(Point { bytes }),
            None => None,
        }
    }

    /// The canonical encoding.
    pub fn to_bytes(&self) -> (r: [u8; 32])
        ensures
            r@ == self@,
    {
        self.bytes
    }

    /// The identity point.
    pub fn identity() -> (r: Point)
        ensures
            r@ == identity_encoding(),
            r@ == gmul(0),
    {
        let bytes = dalek_identity();
        Point { bytes }
    }

    /// The Ed25519 basepoint `G`.
    pub fn generator() -> (r: Point)
        ensures
            r@ == basepoint_encoding(),
            r@ == gmul(1),
    {
        let bytes = dalek_generator();
        Point { bytes }
    }

    /// `k·G`, the basepoint multiplied by `k`.
    pub fn base_mul(k: &Scalar) -> (r: Point)
        ensures
            r@ == basepoint_mul(k@),
            r@ == gmul(k.value() as int),
    {
        proof {
            use_type_invariant(k);
            lemma_le_digits_of_le_nat(k.bytes@);
            lemma_small_mod(k.value(), group_order());
        }
        let bytes = dalek_basepoint_mul(&k.bytes);
        Point { bytes }
    }

    /// Point addition.
    pub fn add(&self, other: &Point) -> (r: Point)
        ensures
            r@ == subgroup_add(self@, other@),
            forall|u: int, v: int|
                #![trigger gmul(u), gmul(v)]
                self@ == gmul(u) && other@ == gmul(v) ==> r@ == gmul(u + v),
    {
        proof {
            use_type_invariant(self);
            use_type_invariant(other);
        }
        let bytes = dalek_point_add(&self.bytes, &other.bytes);
        Point { bytes }
    }

    /// Point subtraction.
    pub fn sub(&self, other: &Point) -> (r: Point)
        ensures
            r@ == subgroup_sub(self@, other@),
            forall|u: int, v: int|
                #![trigger gmul(u), gmul(v)]
                self@ == gmul(u) && other@ == gmul(v) ==> r@ == gmul(u - v),
    {
        proof {
            use_type_invariant(self);
            use_type_invariant(other);
        }
        let bytes = dalek_point_sub(&self.bytes, &other.bytes);
        Point { bytes }
    }

    /// Scalar multiplication `k·P`.
    pub fn mul(&self, k: &Scalar) -> (r: Point)
        ensures
            r@ == subgroup_mul(self@, k@),
            forall|u: int| self@ == #[trigger] gmul(u) ==> r@ == gmul(u * k.value()),
    {
        proof {
            use_type_invariant(self);
            use_type_invariant(k);
        }
        let bytes = dalek_point_mul(&self.bytes, &k.bytes);
        Point { bytes }
    }

    /// `P + k·G`.
    pub fn add_base_mul(&self, k: &Scalar) -> (r: Point)
        ensures
            r@ == subgroup_add(self@, basepoint_mul(k@)),
            forall|u: int| self@ == #[trigger] gmul(u) ==> r@ == gmul(u + k.value()),
    {
        let kg = Point::base_mul(k);
        self.add(&kg)
    }

    /// Whether two points are equal; canonical encodings make this a
    /// comparison of bytes.
    pub fn equals(&self, other: &Point) -> (r: bool)
        ensures
            r == (self@ == other@),
    {
        let mut k: usize = 0;
        while k < 32
            invariant
                k <= 32,
                forall|j: int| 0 <= j < k ==> self.bytes@[j] == other.bytes@[j],
            decreases 32 - k,
        {
            if self.bytes[k] != other.bytes[k] {
                return false;
            }
            k = k + 1;
        }
        proof {
            assert(self.bytes@ =~= other.bytes@);
        }
        true
    }
}

} // verus!
