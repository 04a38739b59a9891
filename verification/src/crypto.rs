use chacha20poly1305::aead::Aead;
use curve25519_dalek::constants::ED25519_BASEPOINT_POINT;
use curve25519_dalek::scalar::Scalar;
use chacha20poly1305::KeyInit;
use ed25519_dalek::Signer;
use pqcrypto_traits::kem::Ciphertext as KemCiphertextBytes;
use pqcrypto_traits::kem::PublicKey as KemPublicKeyBytes;
use pqcrypto_traits::kem::SecretKey as KemSecretKeyBytes;
use pqcrypto_traits::kem::SharedSecret as KemSharedSecretBytes;
use rand::RngCore;
use sha2::Digest;
use vstd::prelude::*;

verus! {

// ---------------------------------------------------------------------------
// Integers in little-endian bytes, and scalars modulo the group order.
// ---------------------------------------------------------------------------

/// The integer whose little-endian encoding is `b`.
pub open spec fn le_value(b: Seq<u8>) -> nat
    decreases b.len(),
{
    if b.len() == 0 {
        0
    } else {
        b[0] as nat + 256 * le_value(b.drop_first())
    }
}

/// The `n`-byte little-endian encoding of `v` (of `v` modulo `256^n`).
pub open spec fn le_encode(v: nat, n: nat) -> Seq<u8>
    decreases n,
{
    if n == 0 {
        seq![]
    } else {
        seq![(v % 256) as u8] + le_encode(v / 256, (n - 1) as nat)
    }
}

/// `256^n`.
pub open spec fn pow256(n: nat) -> nat
    decreases n,
{
    if n == 0 {
        1
    } else {
        256 * pow256((n - 1) as nat)
    }
}

/// The order of the Ed25519 base point, `2^252 + 27742317777372353535851937790883648493`.
pub open spec fn group_order() -> nat {
    7237005577332262213973186563042994240857116359379907606001950938285454250989nat
}

/// The canonical 32-byte encoding of the scalar `v mod group_order()`.
pub open spec fn scalar_of(v: nat) -> Seq<u8> {
    le_encode(v % group_order(), 32)
}

/// A 32-byte string that encodes a reduced scalar.
pub open spec fn is_canonical_scalar(b: Seq<u8>) -> bool {
    b.len() == 32 && le_value(b) < group_order()
}

pub proof fn lemma_le_encode_len(v: nat, n: nat)
    ensures
        le_encode(v, n).len() == n,
    decreases n,
{
    if n > 0 {
        lemma_le_encode_len(v / 256, (n - 1) as nat);
    }
}

pub proof fn lemma_le_encode_value(v: nat, n: nat)
    ensures
        le_value(le_encode(v, n)) == v % pow256(n),
    decreases n,
{
    if n == 0 {
        assert(v % 1 == 0) by (nonlinear_arith);
    } else {
        let e = le_encode(v, n);
        lemma_le_encode_value(v / 256, (n - 1) as nat);
        assert(e.drop_first() =~= le_encode(v / 256, (n - 1) as nat));
        let p = pow256((n - 1) as nat);
        lemma_pow256_positive((n - 1) as nat);
        assert(le_value(e) == v % 256 + 256 * ((v / 256) % p));
        vstd::arithmetic::div_mod::lemma_mod_breakdown(v as int, 256, p as int);
        assert(256 * p == pow256(n));
    }
}

pub proof fn lemma_pow256_positive(n: nat)
    ensures
        pow256(n) > 0,
    decreases n,
{
    if n > 0 {
        lemma_pow256_positive((n - 1) as nat);
    }
}

pub proof fn lemma_group_order_fits()
    ensures
        group_order() < pow256(32),
{
    reveal_with_fuel(pow256, 33);
}

/// The value of the encoding of a scalar is the scalar reduced modulo the group order.
pub proof fn lemma_scalar_of_value(v: nat)
    ensures
        le_value(scalar_of(v)) == v % group_order(),
        scalar_of(v).len() == 32,
        is_canonical_scalar(scalar_of(v)),
{
    lemma_le_encode_value(v % group_order(), 32);
    lemma_le_encode_len(v % group_order(), 32);
    lemma_group_order_fits();
    vstd::arithmetic::div_mod::lemma_small_mod(v % group_order(), pow256(32));
}

// ---------------------------------------------------------------------------
// Hash functions (sha2).
// ---------------------------------------------------------------------------

/// The SHA-256 digest of a byte string.
pub uninterp spec fn sha256(data: Seq<u8>) -> Seq<u8>;

/// The SHA-512 digest of a byte string.
pub uninterp spec fn sha512(data: Seq<u8>) -> Seq<u8>;

/// `sha2::Sha256::digest`: hashes `data` in one call and returns the 32-byte digest,
/// which is claimed to be `sha256(data)`, a function of the input bytes alone.
#[verifier::external_body]
pub(crate) fn sha256_digest(data: &[u8]) -> (digest: [u8; 32])
    ensures
        digest@ == sha256(data@),
{
    sha2::Sha256::digest(data).into()
}

/// `sha2::Sha512::digest`: hashes `data` in one call and returns the 64-byte digest,
/// which is claimed to be `sha512(data)`, a function of the input bytes alone.
#[verifier::external_body]
pub(crate) fn sha512_digest(data: &[u8]) -> (digest: [u8; 64])
    ensures
        digest@ == sha512(data@),
{
    sha2::Sha512::digest(data).into()
}

// ---------------------------------------------------------------------------
// Scalars (curve25519_dalek::scalar::Scalar), held as their 32 canonical bytes.
// ---------------------------------------------------------------------------

/// `Scalar::from_bytes_mod_order` followed by `Scalar::to_bytes`: the 32-byte
/// little-endian integer reduced modulo the group order, in canonical encoding.
#[verifier::external_body]
pub(crate) fn scalar_reduce(bytes: &[u8; 32]) -> (res: [u8; 32])
    ensures
        res@ == scalar_of(le_value(bytes@)),
{
    curve25519_dalek::scalar::Scalar::from_bytes_mod_order(*bytes).to_bytes()
}

/// `Scalar::from_bytes_mod_order_wide` followed by `Scalar::to_bytes`: the 64-byte
/// little-endian integer reduced modulo the group order, in canonical encoding.
#[verifier::external_body]
pub(crate) fn scalar_reduce_wide(bytes: &[u8; 64]) -> (res: [u8; 32])
    ensures
        res@ == scalar_of(le_value(bytes@)),
{
    curve25519_dalek::scalar::Scalar::from_bytes_mod_order_wide(bytes).to_bytes()
}

/// `Scalar * Scalar` (the `Mul` impl) on the scalars that `a` and `b` encode: the
/// product modulo the group order. The arguments are turned into `Scalar`s with
/// `Scalar::from_bytes_mod_order`, which does not change the residue.
#[verifier::external_body]
pub(crate) fn scalar_mul(a: &[u8; 32], b: &[u8; 32]) -> (res: [u8; 32])
    ensures
        res@ == scalar_of(le_value(a@) * le_value(b@)),
{
    (Scalar::from_bytes_mod_order(*a) * Scalar::from_bytes_mod_order(*b)).to_bytes()
}

/// `Scalar + Scalar` (the `Add` impl) on the scalars that `a` and `b` encode: the
/// sum modulo the group order.
#[verifier::external_body]
pub(crate) fn scalar_add(a: &[u8; 32], b: &[u8; 32]) -> (res: [u8; 32])
    ensures
        res@ == scalar_of(le_value(a@) + le_value(b@)),
{
    (Scalar::from_bytes_mod_order(*a) + Scalar::from_bytes_mod_order(*b)).to_bytes()
}

/// `Scalar::random(&mut OsRng)`: a scalar drawn from the operating system's random
/// source. Only that it is reduced is stated; the value is chance.
#[verifier::external_body]
pub(crate) fn random_scalar() -> (res: [u8; 32])
    ensures
        is_canonical_scalar(res@),
{
    curve25519_dalek::scalar::Scalar::random(&mut rand::rngs::OsRng).to_bytes()
}

// ---------------------------------------------------------------------------
// Points of the Ed25519 curve (curve25519_dalek::edwards), held compressed.
// ---------------------------------------------------------------------------

/// Whether `CompressedEdwardsY(bytes).decompress()` finds a curve point.
pub uninterp spec fn point_decompresses(bytes: Seq<u8>) -> bool;

/// The compressed encoding of `[s mod l] B`, for the base point `B` and the scalar
/// whose 32 little-endian bytes are `s`.
pub uninterp spec fn basepoint_mul(s: Seq<u8>) -> Seq<u8>;

/// The compressed encoding of `[z] B - [c] P`, where `P` is the decompression of
/// `pk` and `z`, `c` are the scalars that the bytes encode (reduced).
pub uninterp spec fn schnorr_commitment(z: Seq<u8>, pk: Seq<u8>, c: Seq<u8>) -> Seq<u8>;

/// `CompressedEdwardsY::decompress`: whether the 32 bytes decode to a curve point.
#[verifier::external_body]
pub(crate) fn decompresses(bytes: &[u8; 32]) -> (res: bool)
    ensures
        res == point_decompresses(bytes@),
{
    curve25519_dalek::edwards::CompressedEdwardsY(*bytes).decompress().is_some()
}

/// Where `r` is `[u] B` compressed: for a public key `[a] B` (compressed) and scalars
/// with `z = u + c a` modulo the group order, the commitment `[z] B - [c] P` is `r`.
pub open spec fn is_nonce_commitment(u: Seq<u8>, r: Seq<u8>) -> bool {
    forall|z: Seq<u8>, c: Seq<u8>, a: Seq<u8>|
        z.len() == 32 && c.len() == 32 && a.len() == 32 && le_value(z) % group_order() == (
        le_value(u) + le_value(c) * le_value(a)) % group_order() ==> #[trigger] schnorr_commitment(
            z,
            basepoint_mul(a),
            c,
        ) == r
}

/// `ED25519_BASEPOINT_POINT * Scalar` (the `Mul` impl), then `compress().to_bytes()`.
/// `Scalar::from_bytes_mod_order` reduces the bytes first, so the point depends only on
/// the scalar's value modulo the group order: the result is also that of the scalar's
/// canonical encoding. Also claimed: a compressed point always decompresses again; and,
/// as group arithmetic
/// of the same operations that `commitment` uses, the result is what a Schnorr
/// commitment with response `u + c a` against the key `[a] B` comes to.
#[verifier::external_body]
pub(crate) fn basepoint_times(s: &[u8; 32]) -> (res: [u8; 32])
    ensures
        res@ == basepoint_mul(s@),
        res@ == basepoint_mul(scalar_of(le_value(s@))),
        point_decompresses(res@),
        is_nonce_commitment(s@, res@),
{
    (ED25519_BASEPOINT_POINT * Scalar::from_bytes_mod_order(*s)).compress().to_bytes()
}

/// The Schnorr commitment `[z] B - [c] P` of `curve25519_dalek`'s group operations
/// (`EdwardsPoint` `Mul` by `Scalar`, `Sub`, `compress`), with `P` decompressed from `pk`;
/// `None` exactly when `pk` does not decompress.
#[verifier::external_body]
pub(crate) fn commitment(z: &[u8; 32], pk: &[u8; 32], c: &[u8; 32]) -> (res: Option<[u8; 32]>)
    ensures
        res is Some <==> point_decompresses(pk@),
        res matches Some(r) ==> r@ == schnorr_commitment(z@, pk@, c@),
{
    match curve25519_dalek::edwards::CompressedEdwardsY(*pk).decompress() {
        Some(p) => Some(
            (ED25519_BASEPOINT_POINT * Scalar::from_bytes_mod_order(*z) - p
                * Scalar::from_bytes_mod_order(*c)).compress().to_bytes(),
        ),
        None => None,
    }
}

// ---------------------------------------------------------------------------
// Ed25519 keys and signatures (ed25519_dalek).
// ---------------------------------------------------------------------------

/// The clamping of RFC 8032: clear the three low bits, clear the top bit, set bit 254.
pub open spec fn clamp(b: Seq<u8>) -> Seq<u8> {
    b.update(0, b[0] & 248u8).update(31, (b[31] & 127u8) | 64u8)
}

/// The compressed Ed25519 public key of a 32-byte secret key (seed):
/// `[clamp(SHA-512(seed)[..32])] B`.
pub open spec fn ed25519_public(seed: Seq<u8>) -> Seq<u8> {
    basepoint_mul(clamp(sha512(seed).take(32)))
}

/// The Ed25519 signature of `msg` under the secret key `seed`.
pub uninterp spec fn ed25519_signature(seed: Seq<u8>, msg: Seq<u8>) -> Seq<u8>;

/// Whether `VerifyingKey::from_bytes(pk)` succeeds and `verify_strict(msg, sig)` accepts.
pub uninterp spec fn ed25519_strictly_verifies(pk: Seq<u8>, msg: Seq<u8>, sig: Seq<u8>) -> bool;

/// `SigningKey::generate(&mut OsRng).to_bytes()`: a fresh random 32-byte secret key.
#[verifier::external_body]
pub(crate) fn random_secret_key() -> (res: [u8; 32]) {
    ed25519_dalek::SigningKey::generate(&mut rand::rngs::OsRng).to_bytes()
}

/// `SigningKey::from_bytes(seed).verifying_key().to_bytes()`. ed25519-dalek computes it
/// as the base point times the clamped first half of `SHA-512(seed)`, compressed; a
/// compressed point decompresses again.
#[verifier::external_body]
pub(crate) fn ed25519_public_key(seed: &[u8; 32]) -> (res: [u8; 32])
    ensures
        res@ == ed25519_public(seed@),
        point_decompresses(res@),
{
    ed25519_dalek::SigningKey::from_bytes(seed).verifying_key().to_bytes()
}

/// `SigningKey::from_bytes(seed).sign(msg).to_bytes()`: the deterministic Ed25519 signature.
#[verifier::external_body]
pub(crate) fn ed25519_sign(seed: &[u8; 32], msg: &[u8]) -> (res: [u8; 64])
    ensures
        res@ == ed25519_signature(seed@, msg@),
{
    ed25519_dalek::SigningKey::from_bytes(seed).sign(msg).to_bytes()
}

/// `VerifyingKey::from_bytes(pk)` and then `verify_strict(msg, &Signature::from_bytes(sig))`:
/// `true` when the key decodes and the strict check accepts.
#[verifier::external_body]
pub(crate) fn ed25519_verify_strict(pk: &[u8; 32], msg: &[u8], sig: &[u8; 64]) -> (res: bool)
    ensures
        res == ed25519_strictly_verifies(pk@, msg@, sig@),
{
    match ed25519_dalek::VerifyingKey::from_bytes(pk) {
        Ok(vk) => vk.verify_strict(msg, &ed25519_dalek::Signature::from_bytes(sig)).is_ok(),
        Err(_) => false,
    }
}

// ---------------------------------------------------------------------------
// Kyber768 (pqcrypto_kyber), keys and ciphertexts held as bytes.
// ---------------------------------------------------------------------------

/// Bytes in a Kyber768 public key.
pub const KEM_PUBLIC_KEY_BYTES: usize = 1184;

/// Bytes in a Kyber768 secret key.
pub const KEM_SECRET_KEY_BYTES: usize = 2400;

/// Bytes in a Kyber768 ciphertext.
pub const KEM_CIPHERTEXT_BYTES: usize = 1088;

/// Bytes in a Kyber768 shared secret.
pub const KEM_SHARED_SECRET_BYTES: usize = 32;

/// The shared secret that `kyber768::decapsulate` computes from a ciphertext and a
/// secret key.
pub uninterp spec fn kyber768_decapsulation(ct: Seq<u8>, sk: Seq<u8>) -> Seq<u8>;

/// The (public key, secret key) that Kyber768's deterministic key generation
/// (`crypto_kem_keypair_derand`) computes from 64 bytes of randomness.
pub uninterp spec fn kyber768_keypair_derand(coins: Seq<u8>) -> (Seq<u8>, Seq<u8>);

/// The (shared secret, ciphertext) that Kyber768's deterministic encapsulation
/// (`crypto_kem_enc_derand`) computes for a public key from 32 bytes of randomness.
pub uninterp spec fn kyber768_encaps_derand(pk: Seq<u8>, coins: Seq<u8>) -> (Seq<u8>, Seq<u8>);

/// `pk` and `sk` are a Kyber768 key pair: key generation gives them for some randomness.
pub open spec fn is_kyber768_keypair(pk: Seq<u8>, sk: Seq<u8>) -> bool {
    exists|coins: Seq<u8>| coins.len() == 64 && #[trigger] kyber768_keypair_derand(coins) == (pk, sk)
}

/// `ct` encapsulates `ss` to `pk`: encapsulation gives them for some randomness.
pub open spec fn is_kyber768_encapsulation(pk: Seq<u8>, ss: Seq<u8>, ct: Seq<u8>) -> bool {
    exists|coins: Seq<u8>| coins.len() == 32 && #[trigger] kyber768_encaps_derand(pk, coins) == (ss, ct)
}

/// Randomness of the right length from which key generation gives `pk` and `sk`, where
/// there is any.
pub open spec fn keypair_coins(pk: Seq<u8>, sk: Seq<u8>) -> Seq<u8> {
    choose|coins: Seq<u8>| coins.len() == 64 && #[trigger] kyber768_keypair_derand(coins) == (pk, sk)
}

/// Randomness of the right length from which encapsulation to `pk` gives `ss` and `ct`,
/// where there is any.
pub open spec fn encaps_coins(pk: Seq<u8>, ss: Seq<u8>, ct: Seq<u8>) -> Seq<u8> {
    choose|coins: Seq<u8>| coins.len() == 32 && #[trigger] kyber768_encaps_derand(pk, coins) == (ss, ct)
}

/// Where the Kyber768 secret key holds a copy of its public key.
pub open spec fn kem_secret_key_public_part(sk: Seq<u8>) -> Seq<u8> {
    sk.subrange(1152, 2336)
}

/// `kyber768::keypair()`: a fresh key pair, as (public key, secret key) bytes. The PQClean
/// code that pqcrypto-kyber builds draws 64 random bytes and runs the deterministic key generation on them, which copies
/// the public key into the secret key after its first 1152 bytes.
#[verifier::external_body]
pub(crate) fn kem_keypair() -> (res: (Vec<u8>, Vec<u8>))
    ensures
        res.0@.len() == KEM_PUBLIC_KEY_BYTES,
        res.1@.len() == KEM_SECRET_KEY_BYTES,
        kyber768_keypair_derand(keypair_coins(res.0@, res.1@)) == (res.0@, res.1@),
        keypair_coins(res.0@, res.1@).len() == 64,
        kem_secret_key_public_part(res.1@) == res.0@,
{
    let (pk, sk) = pqcrypto_kyber::kyber768::keypair();
    (pk.as_bytes().to_vec(), sk.as_bytes().to_vec())
}

/// `kyber768::encapsulate`: a fresh shared secret and its ciphertext for the public key
/// `pk`, as (shared secret, ciphertext) bytes. The PQClean code that pqcrypto-kyber
/// builds draws 32 random bytes and runs the deterministic encapsulation on them. `PublicKey::from_bytes` accepts exactly the
/// keys of the right length.
#[verifier::external_body]
pub(crate) fn kem_encapsulate(pk: &[u8]) -> (res: (Vec<u8>, Vec<u8>))
    requires
        pk@.len() == KEM_PUBLIC_KEY_BYTES,
    ensures
        res.0@.len() == KEM_SHARED_SECRET_BYTES,
        res.1@.len() == KEM_CIPHERTEXT_BYTES,
        kyber768_encaps_derand(pk@, encaps_coins(pk@, res.0@, res.1@)) == (res.0@, res.1@),
        encaps_coins(pk@, res.0@, res.1@).len() == 32,
{
    let pk = pqcrypto_kyber::kyber768::PublicKey::from_bytes(pk).unwrap();
    let (ss, ct) = pqcrypto_kyber::kyber768::encapsulate(&pk);
    (ss.as_bytes().to_vec(), ct.as_bytes().to_vec())
}

/// `kyber768::decapsulate`: the shared secret for ciphertext `ct` under secret key `sk`,
/// both given as bytes of the right length.
#[verifier::external_body]
pub(crate) fn kem_decapsulate(ct: &[u8], sk: &[u8]) -> (res: Vec<u8>)
    requires
        ct@.len() == KEM_CIPHERTEXT_BYTES,
        sk@.len() == KEM_SECRET_KEY_BYTES,
    ensures
        res@ == kyber768_decapsulation(ct@, sk@),
        res@.len() == KEM_SHARED_SECRET_BYTES,
{
    let ct = pqcrypto_kyber::kyber768::Ciphertext::from_bytes(ct).unwrap();
    let sk = pqcrypto_kyber::kyber768::SecretKey::from_bytes(sk).unwrap();
    pqcrypto_kyber::kyber768::decapsulate(&ct, &sk).as_bytes().to_vec()
}

// ---------------------------------------------------------------------------
// HKDF-SHA-256 (hkdf) and ChaCha20-Poly1305 (chacha20poly1305).
// ---------------------------------------------------------------------------

/// The first 32 bytes of HKDF-SHA-256 output keying material for input keying material
/// `ikm`, no salt, and context `info`.
pub uninterp spec fn hkdf_sha256_32(ikm: Seq<u8>, info: Seq<u8>) -> Seq<u8>;

/// `Hkdf::<Sha256>::new(None, ikm)` then `expand(info, &mut okm)` into 32 bytes; the
/// expansion cannot fail at this length.
#[verifier::external_body]
pub(crate) fn hkdf_expand_32(ikm: &[u8], info: &[u8]) -> (okm: [u8; 32])
    ensures
        okm@ == hkdf_sha256_32(ikm@, info@),
{
    let hk = hkdf::Hkdf::<sha2::Sha256>::new(None, ikm);
    let mut okm = [0u8; 32];
    hk.expand(info, &mut okm).unwrap();
    okm
}

/// The longest plaintext that ChaCha20-Poly1305 seals (under 2^32 - 1 blocks of 64 bytes).
pub open spec fn aead_max_plaintext() -> nat {
    64 * 4294967295
}

/// The ChaCha20-Poly1305 ciphertext (with its 16-byte tag) of `pt` under `key`, `nonce`,
/// and no associated data.
pub uninterp spec fn aead_seal(key: Seq<u8>, nonce: Seq<u8>, pt: Seq<u8>) -> Seq<u8>;

/// The ChaCha20-Poly1305 opening of `ct` under `key`, `nonce` and no associated data:
/// `None` when authentication fails.
pub uninterp spec fn aead_open(key: Seq<u8>, nonce: Seq<u8>, ct: Seq<u8>) -> Option<Seq<u8>>;

/// `ChaCha20Poly1305::new(key).encrypt(nonce, pt)`, which fails only for plaintexts of
/// 2^32 - 1 blocks or more. The ciphertext is the plaintext's length plus the 16-byte tag.
/// Also claimed: opening the result under the same key and nonce gives `pt` back.
#[verifier::external_body]
pub(crate) fn aead_encrypt(key: &[u8; 32], nonce: &[u8; 12], pt: &[u8]) -> (ct: Vec<u8>)
    requires
        pt@.len() < aead_max_plaintext(),
    ensures
        ct@ == aead_seal(key@, nonce@, pt@),
        ct@.len() == pt@.len() + 16,
        aead_open(key@, nonce@, ct@) == Some(pt@),
{
    let cipher = chacha20poly1305::ChaCha20Poly1305::new(chacha20poly1305::Key::from_slice(key));
    cipher.encrypt(chacha20poly1305::Nonce::from_slice(nonce), pt).unwrap()
}

/// `ChaCha20Poly1305::new(key).decrypt(nonce, ct)`: the plaintext, or `None` when the
/// ciphertext does not authenticate; an input shorter than the 16-byte tag never opens.
#[verifier::external_body]
pub(crate) fn aead_decrypt(key: &[u8; 32], nonce: &[u8; 12], ct: &[u8]) -> (pt: Option<Vec<u8>>)
    ensures
        ct@.len() < 16 ==> pt is None,
        pt matches Some(p) ==> aead_open(key@, nonce@, ct@) == Some(p@),
        pt is None ==> aead_open(key@, nonce@, ct@) is None,
{
    let cipher = chacha20poly1305::ChaCha20Poly1305::new(chacha20poly1305::Key::from_slice(key));
    cipher.decrypt(chacha20poly1305::Nonce::from_slice(nonce), ct).ok()
}

/// `OsRng.fill_bytes` on a 12-byte nonce: random bytes, nothing stated of them.
#[verifier::external_body]
pub(crate) fn random_nonce() -> (res: [u8; 12]) {
    let mut nonce = [0u8; 12];
    rand::rngs::OsRng.fill_bytes(&mut nonce);
    nonce
}

} // verus!
