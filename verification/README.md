# ringxkem

A verified library for a small demonstration of the RINGxKEM handshake: Kyber768 key
encapsulation for the session key, a Merkle tree over prekeys, Ed25519-signed prekey
bundles, and an AOS ring signature over Ed25519 keys that the initiator sends encrypted
under the session key.

Layout:

- `src/crypto.rs`: the calls into the cryptographic crates (sha2, curve25519-dalek,
  ed25519-dalek, pqcrypto-kyber, hkdf, chacha20poly1305, rand), each behind a small
  trusted wrapper whose contract names or states its result; scalars are held as their
  canonical 32 bytes, curve points as their compressed encoding.
- `src/bytes.rs`: byte-string helpers and their specifications.
- `src/merkle_tree.rs`: the Merkle tree (pairs hashed in sorted order), its proofs and
  their check, with the proofs that every leaf's proof leads to the root and that a
  proof has ceil(log2 n) entries.
- `src/ring_signature.rs`: ring signature encoding, signing and verification, with the
  proof that a signature by a ring member's key is accepted.
- `src/pqring.rs`: a variant of the ring signature with field-by-field decoding.
- `src/ringxkem.rs`: the handshake (initiate, receive), with the proof that the receiver
  accepts the initiator's handshake, with the initiator's session key, whenever the
  receiver's decapsulations of the two ciphertexts give back the initiator's shared
  secrets (Kyber768 decapsulation can fail, rarely, so this is a premise of the proof),
  and a per-user store of bundles and ring members.
- `app/main.rs`: the demonstration program.
