# svarog_eddsa

Sparkle threshold EdDSA over Curve25519: distributed key generation (Feldman
VSS, DLog proofs, AES-GCM encrypted share distribution), batch signing in three
rounds, and share rotation with the player set and threshold unchanged.

The protocol logic is a Verus-verified library; the messaging around it is
ordinary Rust.

## Layout

- `src/` — the verified library.
  - `keygen.rs`, `sign.rs`, `reshare.rs`: each protocol as a sequence of steps,
    each step a function from one party's state and what its peers sent to the
    next state and what to send. Contracts state what every step computes, when
    it fails and with which error; lemmas show that honest parties pass each
    other's checks, so that honest runs succeed, and that any `th` shares
    carry the secret and the public key.
  - `curve.rs`: scalars and points of the prime-order subgroup, over
    `curve25519-dalek`; `hash.rs`, `aes.rs`, `rng.rs`: SHA-512, BLAKE2b,
    AES-256-GCM and the OS random number generator.
  - `polynomial.rs`: Shamir sharing, Feldman checks, Lagrange coefficients;
    `interpolation.rs`: the proof that Lagrange coefficients recover a
    polynomial's value at zero, so that any `th` shares carry the key.
  - `keystore.rs`, `dlog_proof.rs`, `collections.rs`, `encoding.rs`,
    `sums.rs`, `error.rs`: the key share, Schnorr proofs of knowledge, id
    lists, byte encodings, sums and their laws, errors.
- `app/` — `keygen`, `sign_batch` and `reshare` as async functions over a
  `curve_abstract::TrMessenger`, with serde copies of the messages and
  conversions to and from the Svarog algebra types.
- `tests/` — end-to-end runs of all three protocols in one process, and tests
  of the building blocks.
