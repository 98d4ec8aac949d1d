//! AES-256-GCM encryption of a share under a key of any length, with the
//! BLAKE2b-512 digest of the plaintext as associated data.
use crate::encoding::copy_bytes;
use crate::error::Error;
use crate::hash::{blake2b512, blake2b512_digest};
use crate::rng::fill_random;
use aes_gcm::aead::{Aead, Payload};
use aes_gcm::{Aes256Gcm, Key, KeyInit, Nonce};
use vstd::prelude::*;

verus! {

/// The longest plaintext that AES-GCM encrypts, in bytes: `2^36 - 32`.
pub open spec fn aes_gcm_p_max() -> nat {
    68719476704nat
}

/// The longest associated data that AES-GCM accepts, in bytes: `2^61 - 1`.
pub open spec fn aes_gcm_a_max() -> nat {
    2305843009213693951nat
}

/// The AES-256-GCM ciphertext (with its 16-byte tag appended) of `msg` under
/// `key` and `nonce`, authenticating `aad`.
pub uninterp spec fn aes256gcm_encrypt(
    key: Seq<u8>,
    nonce: Seq<u8>,
    msg: Seq<u8>,
    aad: Seq<u8>,
) -> Seq<u8>;

/// What AES-256-GCM decryption of `ct` under `key` and `nonce`, authenticating
/// `aad`, gives: the plaintext, or `None` where authentication fails.
pub uninterp spec fn aes256gcm_decrypt(
    key: Seq<u8>,
    nonce: Seq<u8>,
    ct: Seq<u8>,
    aad: Seq<u8>,
) -> Option<Seq<u8>>;

/// The view of an optional byte vector.
pub open spec fn opt_bytes(v: Option<Vec<u8>>) -> Option<Seq<u8>> {
    match v {
        Some(x) => Some(x@),
        None => None,
    }
}

/// `Aes256Gcm::new(key).encrypt(nonce, Payload { msg, aad })`. The source
/// refuses a plaintext longer than `2^36 - 32` bytes or associated data longer
/// than `2^61 - 1` bytes and encrypts anything else; the ciphertext, with the
/// 16-byte tag appended, is named by `aes256gcm_encrypt`.
#[verifier::external_body]
fn aes_gcm_encrypt(key: &[u8; 32], nonce: &[u8; 12], msg: &[u8], aad: &[u8]) -> (r: Option<
    Vec<u8>,
>)
    ensures
        r is Some <==> (msg@.len() <= aes_gcm_p_max() && aad@.len() <= aes_gcm_a_max()),
        r matches Some(c) ==> c@ == aes256gcm_encrypt(key@, nonce@, msg@, aad@),
        r matches Some(c) ==> c@.len() == msg@.len() + 16,
{
    let cipher = Aes256Gcm::new(&Key::<Aes256Gcm>::from(*key));
    let nonce = Nonce::from(*nonce);
    cipher.encrypt(&nonce, Payload { msg, aad }).ok()
}

/// `Aes256Gcm::new(key).decrypt(nonce, Payload { msg: ct, aad })`, named by
/// `aes256gcm_decrypt`. AES-GCM is an authenticated encryption: a ciphertext
/// that `encrypt` made under the same key, nonce and associated data decrypts
/// to the plaintext it was made from.
#[verifier::external_body]
fn aes_gcm_decrypt(key: &[u8; 32], nonce: &[u8; 12], ct: &[u8], aad: &[u8]) -> (r: Option<
    Vec<u8>,
>)
    ensures
        opt_bytes(r) == aes256gcm_decrypt(key@, nonce@, ct@, aad@),
        forall|m: Seq<u8>|
            m.len() <= aes_gcm_p_max() && aad@.len() <= aes_gcm_a_max()
                && #[trigger] aes256gcm_encrypt(key@, nonce@, m, aad@) == ct@ ==> opt_bytes(r)
                == Some(m),
{
    let cipher = Aes256Gcm::new(&Key::<Aes256Gcm>::from(*key));
    let nonce = Nonce::from(*nonce);
    cipher.decrypt(&nonce, Payload { msg: ct, aad }).ok()
}

/// An encrypted message: the AES-GCM ciphertext, the nonce it was made with
/// (kept in `tag`) and the associated data.
#[derive(Clone, Debug, PartialEq, Eq)]
pub struct AEAD {
    pub ciphertext: Vec<u8>,
    pub tag: Vec<u8>,
    pub aad: Vec<u8>,
}

/// The AES-256 key made from any key: its first 32 bytes, filled up with
/// `0xff` where it is shorter.
pub open spec fn aes_key_of(key: Seq<u8>) -> Seq<u8> {
    Seq::new(32, |i: int| if i < key.len() { key[i] } else { 0xffu8 })
}

/// `ct` holds an encryption of `pt` under `key`: a 12-byte nonce, the digest
/// of `pt` as associated data, and the AES-256-GCM ciphertext made with them.
pub open spec fn is_encryption_of(key: Seq<u8>, pt: Seq<u8>, ct: AEAD) -> bool {
    &&& ct.tag@.len() == 12
    &&& ct.aad@.len() == 64
    &&& ct.aad@ == blake2b512(pt)
    &&& ct.ciphertext@ == aes256gcm_encrypt(aes_key_of(key), ct.tag@, pt, ct.aad@)
}

/// What decrypting `ct` under `key` gives: the plaintext where AES-GCM
/// authenticates it and it hashes to the associated data, else the error.
pub open spec fn decryption_of(key: Seq<u8>, ct: AEAD) -> Result<Seq<u8>, Error> {
    match aes256gcm_decrypt(aes_key_of(key), ct.tag@, ct.ciphertext@, ct.aad@) {
        None => Err(Error::AesGcmDecryptFailed),
        Some(out) => if blake2b512(out) == ct.aad@ {
            Ok(out)
        } else {
            Err(Error::AesDecryptIntegrity)
        },
    }
}

/// The AES-256 key is the first 32 bytes of the key material: a key of 32
/// bytes or more is cut after 32, a shorter one is kept whole and filled up
/// with `0xff`.
pub proof fn lemma_aes_key_of_pads(key: Seq<u8>)
    ensures
        aes_key_of(key).len() == 32,
        key.len() >= 32 ==> aes_key_of(key) == key.take(32),
        key.len() < 32 ==> aes_key_of(key) == key + Seq::new(
            (32 - key.len()) as nat,
            |i: int| 0xffu8,
        ),
        aes_key_of(key) == aes_key_of(key.take(if key.len() >= 32 { 32 } else { key.len() as int })),
{
    if key.len() >= 32 {
        assert(aes_key_of(key) =~= key.take(32));
        assert(aes_key_of(key.take(32)) =~= key.take(32));
    } else {
        assert(aes_key_of(key) =~= key + Seq::new((32 - key.len()) as nat, |i: int| 0xffu8));
        assert(key.take(key.len() as int) =~= key);
    }
}

fn aes_key(key: &[u8]) -> (r: [u8; 32])
    ensures
        r@ == aes_key_of(key@),
        key@.len() >= 32 ==> r@ == key@.take(32),
        key@.len() < 32 ==> r@ == key@ + Seq::new((32 - key@.len()) as nat, |i: int| 0xffu8),
{
    proof {
        lemma_aes_key_of_pads(key@);
    }
    let mut aes_key = [0xffu8; 32];
    let end: usize = if key.len() < 32 { key.len() } else { 32 };
    let mut k: usize = 0;
    while k < end
        invariant
            k <= end,
            end <= 32,
            end <= key@.len(),
            end == 32 || end == key@.len(),
            forall|j: int| 0 <= j < k ==> aes_key@[j] == key@[j],
            forall|j: int| k <= j < 32 ==> aes_key@[j] == 0xffu8,
        decreases end - k,
    {
        aes_key[k] = key[k];
        k = k + 1;
    }
    proof {
        assert(aes_key@ =~= aes_key_of(key@));
    }
    aes_key
}

/// Encrypts `pt` under `key` with a fresh random nonce. Fails exactly when
/// `pt` is longer than AES-GCM allows.
pub fn aes_encrypt(key: &[u8], pt: &[u8]) -> (r: Result<AEAD, Error>)
    ensures
        r is Ok <==> pt@.len() <= aes_gcm_p_max(),
        r matches Ok(ct) ==> is_encryption_of(key@, pt@, ct),
        r matches Ok(ct) ==> ct.aad@ == blake2b512(pt@) && ct.tag@.len() == 12,
        r matches Ok(ct) ==> ct.ciphertext@.len() == pt@.len() + 16,
        r matches Err(e) ==> e == Error::AesGcmEncryptFailed,
{
    let aes_key = aes_key(key);
    let aad = blake2b512_digest(pt);
    let mut nonce = [0u8; 12];
    fill_random(&mut nonce);
    match aes_gcm_encrypt(&aes_key, &nonce, pt, aad.as_slice()) {
        Some(ciphertext) => {
            let tag = copy_bytes(&nonce);
            Ok(AEAD { ciphertext, tag, aad })
        },
        None => Err(Error::AesGcmEncryptFailed),
    }
}

/// Decrypts `ct` under `key` and checks that the plaintext hashes to the
/// associated data. Whatever `aes_encrypt` made from a plaintext under the
/// same key decrypts to that plaintext.
pub fn aes_decrypt(key: &[u8], ct: &AEAD) -> (r: Result<Vec<u8>, Error>)
    requires
        ct.tag@.len() == 12,
    ensures
        match r {
            Ok(out) => decryption_of(key@, *ct) == Ok::<Seq<u8>, Error>(out@),
            Err(e) => decryption_of(key@, *ct) == Err::<Seq<u8>, Error>(e),
        },
        forall|pt: Seq<u8>|
            #[trigger] is_encryption_of(key@, pt, *ct) && pt.len() <= aes_gcm_p_max() ==> (r
                matches Ok(out) && out@ == pt),
{
    let aes_key = aes_key(key);
    let mut nonce = [0u8; 12];
    let mut k: usize = 0;
    while k < 12
        invariant
            k <= 12,
            ct.tag@.len() == 12,
            forall|j: int| 0 <= j < k ==> nonce@[j] == ct.tag@[j],
        decreases 12 - k,
    {
        nonce[k] = ct.tag[k];
        k = k + 1;
    }
    proof {
        assert(nonce@ =~= ct.tag@);
    }
    let opened = aes_gcm_decrypt(&aes_key, &nonce, ct.ciphertext.as_slice(), ct.aad.as_slice());
    proof {
        assert forall|pt: Seq<u8>|
            #[trigger] is_encryption_of(key@, pt, *ct) && pt.len() <= aes_gcm_p_max() implies opt_bytes(
            opened,
        ) == Some(pt) && blake2b512(pt) == ct.aad@ by {
            assert(aes256gcm_encrypt(aes_key@, nonce@, pt, ct.aad@) == ct.ciphertext@);
        }
    }
    match opened {
        None => Err(Error::AesGcmDecryptFailed),
        Some(out) => {
            let ha = blake2b512_digest(out.as_slice());
            if bytes_eq(ha.as_slice(), ct.aad.as_slice()) {
                Ok(out)
            } else {
                Err(Error::AesDecryptIntegrity)
            }
        },
    }
}

/// Whether two byte strings are equal.
pub fn bytes_eq(a: &[u8], b: &[u8]) -> (r: bool)
    ensures
        r == (a@ == b@),
{
    if a.len() != b.len() {
        return false;
    }
    let mut k: usize = 0;
    while k < a.len()
        invariant
            k <= a@.len(),
            a@.len() == b@.len(),
            forall|j: int| 0 <= j < k ==> a@[j] == b@[j],
        decreases a@.len() - k,
    {
        if a[k] != b[k] {
            return false;
        }
        k = k + 1;
    }
    proof {
        assert(a@ =~= b@);
    }
    true
}

} // verus!
