# coincync

Privacy primitives over the Ristretto group, with contracts that Verus proves: ring
signatures (CLSAG and a simple form), Bulletproofs+ range proofs, one-out-of-many proofs and
the shielded spends, mints and balances built on them, stealth addresses and their scanners,
selective disclosure, cut-through kernels, memo encryption, supply audits, and the caches and
batch verifiers around them.

- `src/` is the verified library. A group element is modelled by its discrete logarithm, so
  that the group laws are the laws of the scalar field (`group.rs`, `field.rs`).
- Calls into other crates stand behind small functions whose contracts are stated and not
  proved: `group.rs` (curve25519-dalek), `hashing.rs` (sha3, blake3), `bulletproofs.rs`
  (tari_bulletproofs_plus), `memo.rs` (chacha20poly1305), `cache.rs` (dashmap), `secure.rs`
  (zeroize, subtle, rand), `text.rs` (hex), `ring_selection.rs` and `spark_accumulator.rs`
  (rand).
- Functions that need randomness take it as an argument, so that their contracts say exactly
  what comes out. The proofs named `law_...` state what holds across functions: that honest
  signatures and proofs are accepted (of range proofs that is left to their verifier), that
  wire formats are read back, that the owner of an output finds it.
- Secrets have a `zeroize` method that wipes them in place. They are not wiped when they are
  dropped: the verifier does not take destructors, so a caller wipes what it no longer needs.
- `app/` is ordinary Rust: entropy from a generator, threads, JSON and floating point.
- `tests/` runs the library together with the other crates.
