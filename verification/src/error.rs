//! Errors of the library: each names the check that failed and, where the
//! failure concerns another party or one task of a batch, which one.
use vstd::prelude::*;

verus! {

/// Why a step of the protocols, or of their building blocks, failed.
#[derive(Clone, Copy, Debug, PartialEq, Eq)]
pub enum Error {
    /// The party is not among the players, or a keystore does not fit the
    /// players.
    InvalidArgument,
    /// AES-GCM refused to encrypt (the plaintext is too long).
    AesGcmEncryptFailed,
    /// AES-GCM refused to decrypt: wrong key, nonce, or tampered data.
    AesGcmDecryptFailed,
    /// The decrypted message does not hash to the associated data.
    AesDecryptIntegrity,
    /// A discrete-logarithm proof does not verify.
    InvalidDLogProof,
    /// A peer sent polynomial commitments of the wrong length.
    InvalidPolyCommitLen { peer: usize },
    /// Encrypting the share meant for a peer failed.
    AesEncryptFailed { peer: usize },
    /// Decrypting the share sent by a peer failed.
    AesDecryptFailed { peer: usize },
    /// The share sent by a peer does not match that peer's commitments.
    FeldmanVerifyFailed { peer: usize },
    /// The proof for the share of a peer does not verify.
    DishonestPeer { peer: usize },
    /// The party is not among the signers.
    NotASigner,
    /// No message to sign.
    EmptyBatch,
    /// As many offsets as messages are needed.
    LenMismatch,
    /// A peer's revealed nonce point does not match its commitment.
    InvalidCommitment { peer: usize, seq: usize },
    /// A peer's partial signature does not verify.
    InvalidPartialSignature { peer: usize, seq: usize },
    /// An EdDSA signature does not verify.
    EdDSAVerifyFailed,
    /// The aggregated signature of a task does not verify.
    AggregateVerifyFailed { seq: usize },
    /// Fewer parties hold a share than the threshold.
    InsufficientActiveProducers,
    /// A producer announced a share but no public key and chain code.
    MalformedReshareAnnounce { peer: usize },
    /// A producer disagrees with the others on public key or chain code.
    InconsistentReshareAnnounce { peer: usize },
    /// The public key after resharing differs from the one before.
    InvalidKeyRefresh,
}

} // verus!
