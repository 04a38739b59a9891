use vstd::prelude::*;
use crate::bytes::{append_arrays, append_bytes, arrays_view, bytes_to_vec, flatten, lemma_flatten_blocks};
use crate::crypto::{
    aead_encrypt, aead_decrypt, aead_max_plaintext, aead_open, ed25519_public, ed25519_public_key,
    ed25519_sign, ed25519_signature, ed25519_strictly_verifies, ed25519_verify_strict, hkdf_expand_32,
    hkdf_sha256_32, is_kyber768_encapsulation, is_kyber768_keypair, kem_decapsulate,
    kem_encapsulate, kem_keypair, kem_secret_key_public_part, kyber768_decapsulation,
    random_nonce, sha256, sha256_digest, KEM_CIPHERTEXT_BYTES, KEM_PUBLIC_KEY_BYTES,
    KEM_SECRET_KEY_BYTES, KEM_SHARED_SECRET_BYTES,
};
use crate::merkle_tree::{auth_path, path_root, tree_levels, verify_proof, MerkleTree};
use crate::ring_signature::{
    check_keys, check_ring_keys, decode_signature, lemma_sign_then_verify, lemma_signature_roundtrip, member_keys,
    sign as ring_sign, signature_encoding, signed_ring, verify as ring_verify, verify_result,
    RingError, RingMember, RingSignature,
};

verus! {

/// Why a handshake could not be received.
#[derive(Debug, Clone, Copy, PartialEq, Eq, Structural)]
pub enum XkemError {
    /// A KEM ciphertext does not have the Kyber768 ciphertext length.
    KemCiphertextLength,
    /// The prekey signature is not 64 bytes long.
    PrekeySignatureLength,
    /// The prekey signature does not verify under the prekey signer's key.
    PrekeySignatureInvalid,
    /// The prekey's Merkle proof does not lead to the expected root.
    MerkleProofInvalid,
    /// The encrypted signature is shorter than its nonce.
    EncryptedSignatureTooShort,
    /// The encrypted signature does not decrypt under the session key.
    DecryptionFailed,
    /// The decrypted ring signature could not be decoded or checked.
    Ring(RingError),
    /// The ring signature does not verify.
    RingSignatureInvalid,
}

/// A Kyber768 identity key pair, as bytes.
pub struct IdentityKey {
    pub secret: Vec<u8>,
    pub public: Vec<u8>,
}

/// A published prekey: a Kyber768 public key, its Ed25519 signature and signer, and its
/// Merkle proof.
pub struct PreKeyBundle {
    pub pqkem_pub: Vec<u8>,
    pub signature: Vec<u8>,
    pub signer_public: Vec<u8>,
    pub merkle_proof: Vec<crate::merkle_tree::Hash>,
}

/// An established session: its key and the peer's identifier.
pub struct RingXKEMSession {
    pub session_key: [u8; 32],
    pub peer_id: String,
}

/// A fresh Kyber768 key pair for an identity, as (public key, secret key).
pub fn generate_identity_keypair() -> (res: (Vec<u8>, Vec<u8>))
    ensures
        res.0@.len() == KEM_PUBLIC_KEY_BYTES,
        res.1@.len() == KEM_SECRET_KEY_BYTES,
        is_kyber768_keypair(res.0@, res.1@),
        kem_secret_key_public_part(res.1@) == res.0@,
{
    kem_keypair()
}

/// Puts an identity key pair together.
pub fn create_identity_key(public: Vec<u8>, secret: Vec<u8>) -> (res: IdentityKey)
    ensures
        res.public == public,
        res.secret == secret,
{
    IdentityKey { secret, public }
}

/// A new prekey bundle: a fresh Kyber768 key pair, the public key signed with the Ed25519
/// secret key `signer_secret_key`, and the Merkle proof of position `prekey_index`.
pub fn create_prekey_bundle(signer_secret_key: &[u8; 32], merkle_tree: &MerkleTree, prekey_index: usize) -> (res: (PreKeyBundle, Vec<u8>))
    requires
        prekey_index < merkle_tree.leaves().len(),
    ensures
        res.0.pqkem_pub@.len() == KEM_PUBLIC_KEY_BYTES,
        res.1@.len() == KEM_SECRET_KEY_BYTES,
        is_kyber768_keypair(res.0.pqkem_pub@, res.1@),
        kem_secret_key_public_part(res.1@) == res.0.pqkem_pub@,
        res.0.signature@ == ed25519_signature(signer_secret_key@, res.0.pqkem_pub@),
        res.0.signature@.len() == 64,
        res.0.signer_public@ == ed25519_public(signer_secret_key@),
        arrays_view(res.0.merkle_proof@) == auth_path(tree_levels(merkle_tree.leaves()), prekey_index as int),
{
    let (pqkem_pub, pqkem_secret) = kem_keypair();
    let signature = ed25519_sign(signer_secret_key, pqkem_pub.as_slice());
    let proof_opt = merkle_tree.proof_of(prekey_index);
    let merkle_proof = match proof_opt {
        Some(p) => p,
        None => {
            proof {
                assert(false);
            }
            Vec::new()
        },
    };
    let signer_public = ed25519_public_key(signer_secret_key);
    let bundle = PreKeyBundle {
        pqkem_pub,
        signature: bytes_to_vec(&signature),
        signer_public: bytes_to_vec(&signer_public),
        merkle_proof,
    };
    (bundle, pqkem_secret)
}

/// The bytes of a Merkle proof, hash after hash.
pub fn flatten_proof(proof: &[crate::merkle_tree::Hash]) -> (res: Vec<u8>)
    ensures
        res@ == flatten(arrays_view(proof@)),
{
    let mut out: Vec<u8> = Vec::new();
    append_arrays(&mut out, proof);
    assert(out@ =~= flatten(arrays_view(proof@)));
    out
}

/// The HKDF context of the session key: the ASCII bytes of "session".
pub open spec fn session_info() -> Seq<u8> {
    seq![115u8, 101u8, 115u8, 115u8, 105u8, 111u8, 110u8]
}

/// The session key of the two KEM shared secrets.
pub open spec fn session_key_of(ss_id: Seq<u8>, ss_prekey: Seq<u8>) -> Seq<u8> {
    hkdf_sha256_32(ss_id + ss_prekey, session_info())
}

/// The message that the ring signature covers: both KEM ciphertexts, the prekey
/// signature, its signer, and the Merkle proof.
pub open spec fn transcript(ct_id: Seq<u8>, ct_prekey: Seq<u8>, prekey_sig: Seq<u8>, signer_public: Seq<u8>, proof: Seq<Seq<u8>>) -> Seq<u8> {
    ct_id + ct_prekey + prekey_sig + signer_public + flatten(proof)
}

/// The transcript for a bundle.
pub open spec fn bundle_transcript(ct_id: Seq<u8>, ct_prekey: Seq<u8>, bundle: PreKeyBundle) -> Seq<u8> {
    transcript(ct_id, ct_prekey, bundle.signature@, bundle.signer_public@, arrays_view(bundle.merkle_proof@))
}

/// The wire form of an encrypted signature: the 12-byte nonce, then the AEAD ciphertext.
pub open spec fn sealed_signature(key: Seq<u8>, nonce: Seq<u8>, sig_bytes: Seq<u8>) -> Seq<u8> {
    nonce + crate::crypto::aead_seal(key, nonce, sig_bytes)
}

/// What opening an encrypted signature gives: too short for its nonce, not authentic,
/// or the plaintext.
pub open spec fn open_outcome(key: Seq<u8>, encrypted: Seq<u8>) -> Result<Seq<u8>, XkemError> {
    if encrypted.len() < 12 {
        Err(XkemError::EncryptedSignatureTooShort)
    } else {
        match aead_open(key, encrypted.take(12), encrypted.skip(12)) {
            Some(pt) => Ok(pt),
            None => Err(XkemError::DecryptionFailed),
        }
    }
}

/// The session key of two KEM shared secrets: HKDF-SHA-256 over their concatenation,
/// with context "session".
pub fn session_key_from_secrets(ss_id: &[u8], ss_prekey: &[u8]) -> (key: [u8; 32])
    ensures
        key@ == session_key_of(ss_id@, ss_prekey@),
{
    let mut ikm: Vec<u8> = Vec::new();
    append_bytes(&mut ikm, ss_id);
    append_bytes(&mut ikm, ss_prekey);
    let mut info: Vec<u8> = Vec::new();
    info.push(115u8);
    info.push(101u8);
    info.push(115u8);
    info.push(115u8);
    info.push(105u8);
    info.push(111u8);
    info.push(110u8);
    assert(info@ =~= session_info());
    hkdf_expand_32(ikm.as_slice(), info.as_slice())
}

/// The message that the ring signature covers.
pub fn handshake_transcript(ct_id: &[u8], ct_prekey: &[u8], bundle: &PreKeyBundle) -> (msg: Vec<u8>)
    ensures
        msg@ == bundle_transcript(ct_id@, ct_prekey@, *bundle),
{
    let mut msg: Vec<u8> = Vec::new();
    append_bytes(&mut msg, ct_id);
    append_bytes(&mut msg, ct_prekey);
    append_bytes(&mut msg, bundle.signature.as_slice());
    append_bytes(&mut msg, bundle.signer_public.as_slice());
    let flat = flatten_proof(bundle.merkle_proof.as_slice());
    append_bytes(&mut msg, flat.as_slice());
    assert(msg@ =~= bundle_transcript(ct_id@, ct_prekey@, *bundle));
    msg
}

/// Encrypts the encoded ring signature under the session key with `nonce`, and puts the
/// nonce in front. Opening the result with the same key gives `sig_bytes` back.
pub fn seal_signature(session_key: &[u8; 32], nonce: &[u8; 12], sig_bytes: &[u8]) -> (out: Vec<u8>)
    requires
        sig_bytes@.len() < aead_max_plaintext(),
    ensures
        out@ == sealed_signature(session_key@, nonce@, sig_bytes@),
        out@.len() == 12 + sig_bytes@.len() + 16,
        open_outcome(session_key@, out@) == Ok::<Seq<u8>, XkemError>(sig_bytes@),
{
    let ciphertext = aead_encrypt(session_key, nonce, sig_bytes);
    let mut out: Vec<u8> = Vec::new();
    append_bytes(&mut out, nonce);
    append_bytes(&mut out, ciphertext.as_slice());
    assert(out@.take(12) =~= nonce@);
    assert(out@.skip(12) =~= ciphertext@);
    out
}

/// Splits off the nonce and decrypts the rest under the session key.
pub fn open_signature(session_key: &[u8; 32], encrypted_sig: &[u8]) -> (res: Result<Vec<u8>, XkemError>)
    ensures
        match res {
            Ok(pt) => open_outcome(session_key@, encrypted_sig@) == Ok::<Seq<u8>, XkemError>(pt@),
            Err(e) => open_outcome(session_key@, encrypted_sig@) == Err::<Seq<u8>, XkemError>(e),
        },
        encrypted_sig@.len() < 12 + 16 ==> res is Err,
{
    if encrypted_sig.len() < 12 {
        return Err(XkemError::EncryptedSignatureTooShort);
    }
    let nonce_bytes = to_array32_prefix12(encrypted_sig);
    let ciphertext = &encrypted_sig[12..encrypted_sig.len()];
    assert(ciphertext@ =~= encrypted_sig@.skip(12));
    match aead_decrypt(session_key, &nonce_bytes, ciphertext) {
        Some(pt) => Ok(pt),
        None => Err(XkemError::DecryptionFailed),
    }
}

/// The first 12 bytes of `b`.
fn to_array32_prefix12(b: &[u8]) -> (res: [u8; 12])
    requires
        b@.len() >= 12,
    ensures
        res@ == b@.take(12),
{
    let mut res = [0u8; 12];
    let mut i: usize = 0;
    while i < 12
        invariant
            i <= 12,
            b@.len() >= 12,
            forall|j: int| 0 <= j < i ==> res@[j] == b@[j],
        decreases 12 - i,
    {
        res[i] = b[i];
        i = i + 1;
    }
    assert(res@ =~= b@.take(12));
    res
}

/// What the initiator has sent when its handshake used the KEM shared secrets `ss_id`
/// and `ss_prekey` and the ring signature (`c0`, `s`): `ct_id` encapsulates `ss_id` to the
/// receiver's identity key and `ct_prekey` encapsulates `ss_prekey` to the bundle's
/// prekey; the signature is a ring signature of the transcript by the member at `idx`;
/// and the encrypted signature (nonce, encoded signature, tag) opens, under the session
/// key of those secrets, to the signature's encoding.
pub open spec fn handshake_sealed(
    receiver_identity_pk: Seq<u8>,
    ct_id: Seq<u8>,
    ct_prekey: Seq<u8>,
    encrypted_sig: Seq<u8>,
    bundle: PreKeyBundle,
    pks: Seq<Seq<u8>>,
    idx: int,
    seed: Seq<u8>,
    ss_id: Seq<u8>,
    ss_prekey: Seq<u8>,
    c0: Seq<u8>,
    s: Seq<Seq<u8>>,
) -> bool {
    &&& ss_id.len() == KEM_SHARED_SECRET_BYTES
    &&& ss_prekey.len() == KEM_SHARED_SECRET_BYTES
    &&& is_kyber768_encapsulation(receiver_identity_pk, ss_id, ct_id)
    &&& is_kyber768_encapsulation(bundle.pqkem_pub@, ss_prekey, ct_prekey)
    &&& encrypted_sig.len() == 12 + (40 + 32 * pks.len()) + 16
    &&& c0.len() == 32
    &&& s.len() == pks.len()
    &&& forall|i: int| 0 <= i < s.len() ==> #[trigger] s[i].len() == 32
    &&& signed_ring(bundle_transcript(ct_id, ct_prekey, bundle), pks, idx, seed, pks[idx], c0, s)
    &&& open_outcome(session_key_of(ss_id, ss_prekey), encrypted_sig) == Ok::<Seq<u8>, XkemError>(
        signature_encoding(pks.len() as usize, c0, s),
    )
}

/// Starts a handshake with the receiver: encapsulates to its identity key and to the
/// bundle's prekey, derives the session key, ring-signs the transcript, and encrypts the
/// signature under the session key. Returns the two KEM ciphertexts and the encrypted
/// signature.
pub fn ringxkem_initiate(
    _sender_id: &str,
    _receiver_id: &str,
    receiver_identity_pk: &[u8],
    bundle: &PreKeyBundle,
    ring: &[RingMember],
    signer_index: usize,
    ring_signer_secret_key: &[u8],
) -> (res: (Vec<u8>, Vec<u8>, Vec<u8>))
    requires
        receiver_identity_pk@.len() == KEM_PUBLIC_KEY_BYTES,
        bundle.pqkem_pub@.len() == KEM_PUBLIC_KEY_BYTES,
        signer_index < ring@.len(),
        ring_signer_secret_key@.len() == 32,
        check_keys(member_keys(ring@)) is Ok,
        40 + 32 * ring@.len() < aead_max_plaintext(),
    ensures
        res.0@.len() == KEM_CIPHERTEXT_BYTES,
        res.1@.len() == KEM_CIPHERTEXT_BYTES,
        exists|ss_id: Seq<u8>, ss_prekey: Seq<u8>, c0: Seq<u8>, s: Seq<Seq<u8>>|
            #[trigger] handshake_sealed(
                receiver_identity_pk@,
                res.0@,
                res.1@,
                res.2@,
                *bundle,
                member_keys(ring@),
                signer_index as int,
                ring_signer_secret_key@,
                ss_id,
                ss_prekey,
                c0,
                s,
            ),
{
    let (ss_id, ct_id) = kem_encapsulate(receiver_identity_pk);
    let (ss_prekey, ct_prekey) = kem_encapsulate(bundle.pqkem_pub.as_slice());
    let session_key = session_key_from_secrets(ss_id.as_slice(), ss_prekey.as_slice());
    let ring_msg = handshake_transcript(ct_id.as_slice(), ct_prekey.as_slice(), bundle);
    let ring_signature = match ring_sign(ring_msg.as_slice(), ring, signer_index, ring_signer_secret_key) {
        Ok(sig) => sig,
        Err(_) => {
            proof {
                assert(false);
            }
            RingSignature { c0: [0u8; 32], s: Vec::new(), ring_size: 0 }
        },
    };
    let sig_bytes = ring_signature.to_bytes();
    proof {
        lemma_flatten_blocks(arrays_view(ring_signature.s@));
    }
    let nonce = random_nonce();
    let encrypted_sig = seal_signature(&session_key, &nonce, sig_bytes.as_slice());
    let res = (ct_id, ct_prekey, encrypted_sig);
    proof {
        assert(handshake_sealed(
            receiver_identity_pk@,
            res.0@,
            res.1@,
            res.2@,
            *bundle,
            member_keys(ring@),
            signer_index as int,
            ring_signer_secret_key@,
            ss_id@,
            ss_prekey@,
            ring_signature.c0@,
            arrays_view(ring_signature.s@),
        ));
    }
    res
}

/// Starts a handshake where the inputs allow it: `None` when a KEM public key has the
/// wrong length, the signer is not in the ring, the seed is not 32 bytes, a ring key does
/// not decode, or the ring is too large to encrypt its signature; otherwise what
/// `ringxkem_initiate` returns.
pub fn try_ringxkem_initiate(
    sender_id: &str,
    receiver_id: &str,
    receiver_identity_pk: &[u8],
    bundle: &PreKeyBundle,
    ring: &[RingMember],
    signer_index: usize,
    ring_signer_secret_key: &[u8],
) -> (res: Option<(Vec<u8>, Vec<u8>, Vec<u8>)>)
    ensures
        res is Some <==> (receiver_identity_pk@.len() == KEM_PUBLIC_KEY_BYTES
            && bundle.pqkem_pub@.len() == KEM_PUBLIC_KEY_BYTES && signer_index < ring@.len()
            && ring_signer_secret_key@.len() == 32 && check_keys(member_keys(ring@)) is Ok && 40 + 32
            * ring@.len() < aead_max_plaintext()),
        res matches Some(out) ==> out.0@.len() == KEM_CIPHERTEXT_BYTES && out.1@.len()
            == KEM_CIPHERTEXT_BYTES && exists|ss_id: Seq<u8>, ss_prekey: Seq<u8>, c0: Seq<u8>, s: Seq<Seq<u8>>|
            #[trigger] handshake_sealed(
                receiver_identity_pk@,
                out.0@,
                out.1@,
                out.2@,
                *bundle,
                member_keys(ring@),
                signer_index as int,
                ring_signer_secret_key@,
                ss_id,
                ss_prekey,
                c0,
                s,
            ),
{
    if receiver_identity_pk.len() != KEM_PUBLIC_KEY_BYTES || bundle.pqkem_pub.len() != KEM_PUBLIC_KEY_BYTES
        || signer_index >= ring.len() || ring_signer_secret_key.len() != 32 {
        return None;
    }
    if ring.len() as u64 > 8589934588u64 {
        return None;
    }
    match check_ring_keys(ring) {
        Err(_) => None,
        Ok(_) => Some(
            ringxkem_initiate(
                sender_id,
                receiver_id,
                receiver_identity_pk,
                bundle,
                ring,
                signer_index,
                ring_signer_secret_key,
            ),
        ),
    }
}

/// What receiving a handshake gives: the session key, or the first check that fails, in
/// the order: ciphertext lengths, prekey signature length and validity, Merkle proof,
/// decryption, signature decoding, ring keys and ring signature.
pub open spec fn receive_result(
    ct_id: Seq<u8>,
    ct_prekey: Seq<u8>,
    encrypted_sig: Seq<u8>,
    identity_sk: Seq<u8>,
    bundle: PreKeyBundle,
    prekey_sk: Seq<u8>,
    pks: Seq<Seq<u8>>,
    prekey_signer_public: Seq<u8>,
    expected_merkle_root: Seq<u8>,
) -> Result<Seq<u8>, XkemError> {
    if ct_id.len() != KEM_CIPHERTEXT_BYTES || ct_prekey.len() != KEM_CIPHERTEXT_BYTES {
        Err(XkemError::KemCiphertextLength)
    } else if bundle.signature@.len() != 64 {
        Err(XkemError::PrekeySignatureLength)
    } else if !ed25519_strictly_verifies(prekey_signer_public, bundle.pqkem_pub@, bundle.signature@) {
        Err(XkemError::PrekeySignatureInvalid)
    } else if path_root(sha256(bundle.pqkem_pub@), arrays_view(bundle.merkle_proof@)) != expected_merkle_root {
        Err(XkemError::MerkleProofInvalid)
    } else {
        let key = session_key_of(
            kyber768_decapsulation(ct_id, identity_sk),
            kyber768_decapsulation(ct_prekey, prekey_sk),
        );
        match open_outcome(key, encrypted_sig) {
            Err(e) => Err(e),
            Ok(pt) => match decode_signature(pt) {
                Err(e) => Err(XkemError::Ring(e)),
                Ok(parts) => match verify_result(
                    bundle_transcript(ct_id, ct_prekey, bundle),
                    pks,
                    parts.0,
                    parts.1,
                    parts.2,
                ) {
                    Err(e) => Err(XkemError::Ring(e)),
                    Ok(false) => Err(XkemError::RingSignatureInvalid),
                    Ok(true) => Ok(key),
                },
            },
        }
    }
}

/// Receives a handshake: decapsulates both KEM ciphertexts and derives the session key,
/// checks the prekey's signature and Merkle proof, decrypts and decodes the ring
/// signature, and verifies it over the transcript and `ring`.
pub fn ringxkem_receive(
    ct_id: &[u8],
    ct_prekey: &[u8],
    encrypted_sig: &[u8],
    identity_sk: &[u8],
    bundle: &PreKeyBundle,
    prekey_sk: &[u8],
    ring: &[RingMember],
    prekey_signer_public: &[u8; 32],
    expected_merkle_root: &crate::merkle_tree::Hash,
) -> (res: Result<RingXKEMSession, XkemError>)
    requires
        identity_sk@.len() == KEM_SECRET_KEY_BYTES,
        prekey_sk@.len() == KEM_SECRET_KEY_BYTES,
    ensures
        match res {
            Ok(session) => receive_result(
                ct_id@,
                ct_prekey@,
                encrypted_sig@,
                identity_sk@,
                *bundle,
                prekey_sk@,
                member_keys(ring@),
                prekey_signer_public@,
                expected_merkle_root@,
            ) == Ok::<Seq<u8>, XkemError>(session.session_key@) && session.peer_id@ == "sender"@,
            Err(e) => receive_result(
                ct_id@,
                ct_prekey@,
                encrypted_sig@,
                identity_sk@,
                *bundle,
                prekey_sk@,
                member_keys(ring@),
                prekey_signer_public@,
                expected_merkle_root@,
            ) == Err::<Seq<u8>, XkemError>(e),
        },
        encrypted_sig@.len() < 12 + 16 ==> res is Err,
{
    if ct_id.len() != KEM_CIPHERTEXT_BYTES || ct_prekey.len() != KEM_CIPHERTEXT_BYTES {
        return Err(XkemError::KemCiphertextLength);
    }
    let ss_id = kem_decapsulate(ct_id, identity_sk);
    let ss_prekey = kem_decapsulate(ct_prekey, prekey_sk);
    let session_key = session_key_from_secrets(ss_id.as_slice(), ss_prekey.as_slice());

    if bundle.signature.len() != 64 {
        return Err(XkemError::PrekeySignatureLength);
    }
    let sig_bytes = to_array64(bundle.signature.as_slice());
    if !ed25519_verify_strict(prekey_signer_public, bundle.pqkem_pub.as_slice(), &sig_bytes) {
        return Err(XkemError::PrekeySignatureInvalid);
    }

    let leaf = sha256_digest(bundle.pqkem_pub.as_slice());
    if !verify_proof(&leaf, bundle.merkle_proof.as_slice(), expected_merkle_root) {
        return Err(XkemError::MerkleProofInvalid);
    }

    let decrypted_sig_bytes = match open_signature(&session_key, encrypted_sig) {
        Ok(pt) => pt,
        Err(e) => return Err(e),
    };
    let ring_signature = match RingSignature::from_bytes(decrypted_sig_bytes.as_slice()) {
        Ok(sig) => sig,
        Err(e) => return Err(XkemError::Ring(e)),
    };
    let ring_msg = handshake_transcript(ct_id, ct_prekey, bundle);
    match ring_verify(ring_msg.as_slice(), ring, &ring_signature) {
        Err(e) => Err(XkemError::Ring(e)),
        Ok(false) => Err(XkemError::RingSignatureInvalid),
        Ok(true) => Ok(RingXKEMSession { session_key, peer_id: "sender".to_owned() }),
    }
}

/// The 64 bytes of `b` as an array.
fn to_array64(b: &[u8]) -> (res: [u8; 64])
    requires
        b@.len() == 64,
    ensures
        res@ == b@,
{
    let mut res = [0u8; 64];
    let mut i: usize = 0;
    while i < 64
        invariant
            i <= 64,
            b@.len() == 64,
            forall|j: int| 0 <= j < i ==> res@[j] == b@[j],
        decreases 64 - i,
    {
        res[i] = b[i];
        i = i + 1;
    }
    assert(res@ =~= b@);
    res
}

/// A handshake that the initiator sealed for this receiver is accepted, with the
/// initiator's session key, when the receiver's decapsulations of the two ciphertexts
/// give back the initiator's shared secrets, the prekey's signature and Merkle proof
/// check out, and the signer's ring key belongs to its secret key in a ring of
/// decodable keys.
pub proof fn lemma_handshake_accepted(
    receiver_identity_pk: Seq<u8>,
    ct_id: Seq<u8>,
    ct_prekey: Seq<u8>,
    encrypted_sig: Seq<u8>,
    identity_sk: Seq<u8>,
    bundle: PreKeyBundle,
    prekey_sk: Seq<u8>,
    pks: Seq<Seq<u8>>,
    idx: int,
    seed: Seq<u8>,
    prekey_signer_public: Seq<u8>,
    expected_merkle_root: Seq<u8>,
    ss_id: Seq<u8>,
    ss_prekey: Seq<u8>,
    c0: Seq<u8>,
    s: Seq<Seq<u8>>,
)
    requires
        handshake_sealed(receiver_identity_pk, ct_id, ct_prekey, encrypted_sig, bundle, pks, idx, seed, ss_id, ss_prekey, c0, s),
        ct_id.len() == KEM_CIPHERTEXT_BYTES,
        ct_prekey.len() == KEM_CIPHERTEXT_BYTES,
        kyber768_decapsulation(ct_id, identity_sk) == ss_id,
        kyber768_decapsulation(ct_prekey, prekey_sk) == ss_prekey,
        bundle.signature@.len() == 64,
        ed25519_strictly_verifies(prekey_signer_public, bundle.pqkem_pub@, bundle.signature@),
        path_root(sha256(bundle.pqkem_pub@), arrays_view(bundle.merkle_proof@)) == expected_merkle_root,
        check_keys(pks) is Ok,
        0 <= idx < pks.len(),
        pks.len() <= usize::MAX,
        pks[idx] == ed25519_public(seed),
    ensures
        receive_result(ct_id, ct_prekey, encrypted_sig, identity_sk, bundle, prekey_sk, pks, prekey_signer_public, expected_merkle_root)
            == Ok::<Seq<u8>, XkemError>(session_key_of(ss_id, ss_prekey)),
{
    let n = pks.len() as usize;
    lemma_signature_roundtrip(n, c0, s);
    lemma_sign_then_verify(bundle_transcript(ct_id, ct_prekey, bundle), pks, idx, seed, n, c0, s);
}

/// A handshake is accepted only when the prekey signature verifies under the receiver's
/// trusted prekey signer key `prekey_signer_public` (whatever signer the bundle itself
/// names), the prekey's Merkle proof leads to the expected root, both ciphertexts have
/// the Kyber768 length, and the ring signature verifies over the transcript; the key it
/// gives is the one derived from the two decapsulated secrets. Where the lengths are
/// right and the signature does not verify under the trusted key, the answer is always
/// the prekey-signature error.
pub proof fn lemma_receive_requires_trusted_prekey_signer(
    ct_id: Seq<u8>,
    ct_prekey: Seq<u8>,
    encrypted_sig: Seq<u8>,
    identity_sk: Seq<u8>,
    bundle: PreKeyBundle,
    prekey_sk: Seq<u8>,
    pks: Seq<Seq<u8>>,
    prekey_signer_public: Seq<u8>,
    expected_merkle_root: Seq<u8>,
)
    ensures
        receive_result(ct_id, ct_prekey, encrypted_sig, identity_sk, bundle, prekey_sk, pks, prekey_signer_public, expected_merkle_root) matches Ok(key) ==> {
            &&& ed25519_strictly_verifies(prekey_signer_public, bundle.pqkem_pub@, bundle.signature@)
            &&& path_root(sha256(bundle.pqkem_pub@), arrays_view(bundle.merkle_proof@)) == expected_merkle_root
            &&& ct_id.len() == KEM_CIPHERTEXT_BYTES
            &&& ct_prekey.len() == KEM_CIPHERTEXT_BYTES
            &&& bundle.signature@.len() == 64
            &&& key == session_key_of(kyber768_decapsulation(ct_id, identity_sk), kyber768_decapsulation(ct_prekey, prekey_sk))
            &&& open_outcome(key, encrypted_sig) matches Ok(pt)
            &&& decode_signature(pt) matches Ok(parts)
            &&& verify_result(bundle_transcript(ct_id, ct_prekey, bundle), pks, parts.0, parts.1, parts.2) == Ok::<bool, RingError>(true)
        },
        (ct_id.len() == KEM_CIPHERTEXT_BYTES && ct_prekey.len() == KEM_CIPHERTEXT_BYTES
            && bundle.signature@.len() == 64 && !ed25519_strictly_verifies(prekey_signer_public, bundle.pqkem_pub@, bundle.signature@))
            ==> receive_result(ct_id, ct_prekey, encrypted_sig, identity_sk, bundle, prekey_sk, pks, prekey_signer_public, expected_merkle_root)
            == Err::<Seq<u8>, XkemError>(XkemError::PrekeySignatureInvalid),
{
}

// ---------------------------------------------------------------------------
// A store of prekey bundles and ring members, per user.
// ---------------------------------------------------------------------------

/// The list filed under `user` in an association list: that of the first entry with
/// that name, or `None` where no entry has it.
pub open spec fn entry_of<T>(entries: Seq<(String, Vec<T>)>, user: Seq<char>) -> Option<Seq<T>>
    decreases entries.len(),
{
    if entries.len() == 0 {
        None
    } else if entries[0].0@ == user {
        Some(entries[0].1@)
    } else {
        entry_of(entries.drop_first(), user)
    }
}

/// The list filed under `user` after appending `item` to it (starting a list if needed).
pub open spec fn appended<T>(list: Option<Seq<T>>, item: T) -> Option<Seq<T>> {
    match list {
        Some(l) => Some(l.push(item)),
        None => Some(seq![item]),
    }
}

/// The items filed so far: the list, or none where nothing is filed.
pub open spec fn filed_items<T>(list: Option<Seq<T>>) -> Seq<T> {
    match list {
        Some(l) => l,
        None => Seq::empty(),
    }
}

/// Filing an item keeps every item filed before, in order, and adds the new one at the
/// end: the list grows by exactly one, whatever its length.
pub proof fn lemma_filing_appends<T>(list: Option<Seq<T>>, item: T)
    ensures
        appended(list, item) matches Some(l) && l.len() == filed_items(list).len() + 1 && l.last() == item
            && l.take(filed_items(list).len() as int) == filed_items(list),
        appended(list, item) == Some(filed_items(list).push(item)),
{
    match list {
        Some(l) => {
            assert(l.push(item).take(l.len() as int) =~= l);
        },
        None => {
            assert(seq![item] =~= Seq::<T>::empty().push(item));
            assert(seq![item].take(0) =~= Seq::<T>::empty());
        },
    }
}

/// Filing an item never changes the first item filed under the same user, and the first
/// item filed under a user with none is the one that `get_bundle` gives afterwards.
pub proof fn lemma_first_filed_stays<T>(list: Option<Seq<T>>, item: T)
    ensures
        appended(list, item) matches Some(l) && l.len() > 0 && l[0] == (match list {
            Some(x) => if x.len() > 0 {
                x[0]
            } else {
                item
            },
            None => item,
        }),
{
}

proof fn lemma_entry_of_update<T>(entries: Seq<(String, Vec<T>)>, i: int, v: (String, Vec<T>), user: Seq<char>)
    requires
        0 <= i < entries.len(),
        v.0@ == entries[i].0@,
        forall|j: int| 0 <= j < i ==> #[trigger] entries[j].0@ != entries[i].0@,
    ensures
        entry_of(entries.update(i, v), user) == (if user == entries[i].0@ {
            Some(v.1@)
        } else {
            entry_of(entries, user)
        }),
    decreases i,
{
    let updated = entries.update(i, v);
    if i > 0 {
        lemma_entry_of_update(entries.drop_first(), i - 1, v, user);
        assert(updated.drop_first() =~= entries.drop_first().update(i - 1, v));
        assert(entries[0].0@ != entries[i].0@);
        assert(updated[0] == entries[0]);
    } else {
        assert(updated.drop_first() =~= entries.drop_first());
        assert(updated[0] == v);
    }
}

proof fn lemma_entry_of_push<T>(entries: Seq<(String, Vec<T>)>, v: (String, Vec<T>), user: Seq<char>)
    ensures
        entry_of(entries.push(v), user) == (if entry_of(entries, user) is Some {
            entry_of(entries, user)
        } else if v.0@ == user {
            Some(v.1@)
        } else {
            None
        }),
    decreases entries.len(),
{
    let pushed = entries.push(v);
    if entries.len() > 0 {
        lemma_entry_of_push(entries.drop_first(), v, user);
        assert(pushed.drop_first() =~= entries.drop_first().push(v));
        assert(pushed[0] == entries[0]);
    } else {
        assert(pushed.drop_first() =~= Seq::<(String, Vec<T>)>::empty());
        assert(pushed[0] == v);
        assert(entry_of(entries, user) is None);
        assert(entry_of(pushed.drop_first(), user) is None);
    }
}

/// The position of the first entry filed under `user`.
fn find_entry<T>(entries: &Vec<(String, Vec<T>)>, user: &String) -> (res: Option<usize>)
    ensures
        match res {
            Some(i) => i < entries@.len() && entries@[i as int].0@ == user@ && (forall|j: int|
                0 <= j < i ==> #[trigger] entries@[j].0@ != user@) && entry_of(entries@, user@)
                == Some(entries@[i as int].1@),
            None => entry_of(entries@, user@) is None,
        },
{
    let mut i: usize = 0;
    assert(entries@.skip(0) =~= entries@);
    while i < entries.len()
        invariant
            i <= entries@.len(),
            entry_of(entries@, user@) == entry_of(entries@.skip(i as int), user@),
            forall|j: int| 0 <= j < i ==> #[trigger] entries@[j].0@ != user@,
        decreases entries@.len() - i,
    {
        assert(entries@.skip(i as int)[0] == entries@[i as int]);
        if entries[i].0 == *user {
            return Some(i);
        }
        assert(entries@.skip(i as int).drop_first() =~= entries@.skip(i + 1));
        i = i + 1;
    }
    assert(entries@.skip(i as int) =~= Seq::<(String, Vec<T>)>::empty());
    None
}

/// Appends `item` to the list filed under `user`, starting one at the end if there is none.
fn file_under<T>(entries: &mut Vec<(String, Vec<T>)>, user: String, item: T)
    ensures
        forall|u: Seq<char>| #[trigger] entry_of(final(entries)@, u) == (if u == user@ {
            appended(entry_of(old(entries)@, u), item)
        } else {
            entry_of(old(entries)@, u)
        }),
{
    match find_entry(entries, &user) {
        Some(i) => {
            let ghost before = entries@;
            let (name, mut list) = entries.remove(i);
            list.push(item);
            entries.insert(i, (name, list));
            proof {
                assert(entries@ =~= before.update(i as int, (name, list)));
                assert forall|u: Seq<char>| #[trigger] entry_of(entries@, u) == (if u == user@ {
                    appended(entry_of(before, u), item)
                } else {
                    entry_of(before, u)
                }) by {
                    lemma_entry_of_update(before, i as int, (name, list), u);
                }
            }
        },
        None => {
            let ghost before = entries@;
            let mut list: Vec<T> = Vec::new();
            list.push(item);
            let ghost list_view = list@;
            assert(list_view =~= seq![item]);
            entries.push((user, list));
            proof {
                assert forall|u: Seq<char>| #[trigger] entry_of(entries@, u) == (if u == user@ {
                    appended(entry_of(before, u), item)
                } else {
                    entry_of(before, u)
                }) by {
                    lemma_entry_of_push(before, (user, list), u);
                }
            }
        },
    }
}

/// Prekey bundles and ring members filed by user.
pub struct PreKeyStore {
    bundles: Vec<(String, Vec<PreKeyBundle>)>,
    ring_members: Vec<(String, Vec<RingMember>)>,
}

impl PreKeyStore {
    /// The bundles filed under `user`, `None` where there are none.
    pub closed spec fn bundles_of(self, user: Seq<char>) -> Option<Seq<PreKeyBundle>> {
        entry_of(self.bundles@, user)
    }

    /// The ring members filed under `user`, `None` where there are none.
    pub closed spec fn ring_of(self, user: Seq<char>) -> Option<Seq<RingMember>> {
        entry_of(self.ring_members@, user)
    }

    /// An empty store.
    pub fn new() -> (store: Self)
        ensures
            forall|u: Seq<char>| #[trigger] store.bundles_of(u) is None,
        forall|u: Seq<char>| #[trigger] store.ring_of(u) is None,
    {
        PreKeyStore { bundles: Vec::new(), ring_members: Vec::new() }
    }

    /// Files `bundle` under `user_id`, after the bundles already there.
    pub fn add_bundle(&mut self, user_id: &str, bundle: PreKeyBundle)
        ensures
            forall|u: Seq<char>| #[trigger] final(self).bundles_of(u) == (if u == user_id@ {
                appended(old(self).bundles_of(u), bundle)
            } else {
                old(self).bundles_of(u)
            }),
            forall|u: Seq<char>| #[trigger] final(self).ring_of(u) == old(self).ring_of(u),
            final(self).bundles_of(user_id@) == Some(filed_items(old(self).bundles_of(user_id@)).push(bundle)),
    {
        file_under(&mut self.bundles, user_id.to_owned(), bundle);
        proof {
            lemma_filing_appends(old(self).bundles_of(user_id@), bundle);
        }
    }

    /// The first bundle filed under `user_id`.
    pub fn get_bundle(&self, user_id: &str) -> (res: Option<&PreKeyBundle>)
        ensures
            match res {
                Some(b) => self.bundles_of(user_id@) matches Some(l) && l.len() > 0 && *b == l[0],
                None => self.bundles_of(user_id@) matches Some(l) ==> l.len() == 0,
            },
    {
        let user = user_id.to_owned();
        match find_entry(&self.bundles, &user) {
            Some(i) => {
                let list = &self.bundles[i].1;
                if list.len() > 0 {
                    Some(&list[0])
                } else {
                    None
                }
            },
            None => None,
        }
    }

    /// Files `member` under `user_id`, after the members already there.
    pub fn add_ring_member(&mut self, user_id: &str, member: RingMember)
        ensures
            forall|u: Seq<char>| #[trigger] final(self).ring_of(u) == (if u == user_id@ {
                appended(old(self).ring_of(u), member)
            } else {
                old(self).ring_of(u)
            }),
            forall|u: Seq<char>| #[trigger] final(self).bundles_of(u) == old(self).bundles_of(u),
            final(self).ring_of(user_id@) == Some(filed_items(old(self).ring_of(user_id@)).push(member)),
    {
        file_under(&mut self.ring_members, user_id.to_owned(), member);
        proof {
            lemma_filing_appends(old(self).ring_of(user_id@), member);
        }
    }

    /// The ring members filed under `user_id`.
    pub fn get_ring(&self, user_id: &str) -> (res: Option<&Vec<RingMember>>)
        ensures
            match res {
                Some(r) => self.ring_of(user_id@) == Some(r@),
                None => self.ring_of(user_id@) is None,
            },
    {
        let user = user_id.to_owned();
        match find_entry(&self.ring_members, &user) {
            Some(i) => Some(&self.ring_members[i].1),
            None => None,
        }
    }
}

} // verus!
