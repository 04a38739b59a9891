use ed25519_dalek::Signer;
use ringxkem::crypto::{KEM_CIPHERTEXT_BYTES, KEM_PUBLIC_KEY_BYTES, KEM_SECRET_KEY_BYTES};
use ringxkem::merkle_tree::MerkleTree;
use ringxkem::ring_signature::{keygen as ring_keygen, RingError, RingMember};
use ringxkem::ringxkem::{
    create_identity_key, create_prekey_bundle, flatten_proof, generate_identity_keypair,
    handshake_transcript, open_signature, ringxkem_initiate, ringxkem_receive,
    session_key_from_secrets, seal_signature, try_ringxkem_initiate, PreKeyBundle, PreKeyStore,
    XkemError,
};
use pqcrypto_traits::kem::{Ciphertext, PublicKey, SecretKey, SharedSecret};
use sha2::{Digest, Sha256};

struct Setup {
    identity_pub: Vec<u8>,
    identity_sk: Vec<u8>,
    bundles: Vec<(PreKeyBundle, Vec<u8>)>,
    signer_public: [u8; 32],
    root: [u8; 32],
    ring: Vec<RingMember>,
}

fn setup() -> Setup {
    let (receiver_pub, receiver_sk) = generate_identity_keypair();
    let identity = create_identity_key(receiver_pub, receiver_sk);
    let signing_key = ed25519_dalek::SigningKey::generate(&mut rand::rngs::OsRng);
    let verifying = signing_key.verifying_key().to_bytes();
    let mut hashes = Vec::new();
    let mut pairs = Vec::new();
    for _ in 0..4 {
        let (pk, sk) = generate_identity_keypair();
        let leaf: [u8; 32] = Sha256::digest(&pk).into();
        hashes.push(leaf);
        pairs.push((pk, sk));
    }
    let tree = MerkleTree::new(&hashes).unwrap();
    let root = tree.root();
    let mut bundles = Vec::new();
    for (i, (pk, sk)) in pairs.into_iter().enumerate() {
        let signature = signing_key.sign(&pk).to_bytes().to_vec();
        let bundle = PreKeyBundle {
            pqkem_pub: pk,
            signature,
            signer_public: verifying.to_vec(),
            merkle_proof: tree.proof_of(i).unwrap(),
        };
        bundles.push((bundle, sk));
    }
    let mut ring = Vec::new();
    for i in 0..3 {
        let (pk, sk) = ring_keygen();
        ring.push(RingMember { public_key: pk, secret_key: if i == 0 { Some(sk) } else { None } });
    }
    Setup {
        identity_pub: identity.public,
        identity_sk: identity.secret,
        bundles,
        signer_public: verifying,
        root,
        ring,
    }
}

#[test]
fn key_sizes() {
    let (pk, sk) = generate_identity_keypair();
    assert_eq!(pk.len(), KEM_PUBLIC_KEY_BYTES);
    assert_eq!(sk.len(), KEM_SECRET_KEY_BYTES);
    let id = create_identity_key(pk.clone(), sk.clone());
    assert_eq!(id.public, pk);
    assert_eq!(id.secret, sk);
}

#[test]
fn handshake_establishes_session() {
    let st = setup();
    let (bundle, prekey_sk) = &st.bundles[0];
    let seed = st.ring[0].secret_key.clone().unwrap();
    let (ct_id, ct_prekey, enc) =
        ringxkem_initiate("sender", "receiver", &st.identity_pub, bundle, &st.ring, 0, &seed);
    assert_eq!(ct_id.len(), KEM_CIPHERTEXT_BYTES);
    assert_eq!(ct_prekey.len(), KEM_CIPHERTEXT_BYTES);
    // nonce + (8 + 32 + 3 * 32) signature bytes + 16-byte tag
    assert_eq!(enc.len(), 12 + 8 + 32 + 96 + 16);
    let session = ringxkem_receive(
        &ct_id, &ct_prekey, &enc, &st.identity_sk, bundle, prekey_sk, &st.ring,
        &st.signer_public, &st.root,
    )
    .unwrap();
    assert_eq!(session.peer_id, "sender");
    assert_ne!(session.session_key, [0u8; 32]);
}

#[test]
fn handshake_with_wrong_ring_fails() {
    let st = setup();
    let (bundle, prekey_sk) = &st.bundles[0];
    let seed = st.ring[0].secret_key.clone().unwrap();
    let (ct_id, ct_prekey, enc) =
        ringxkem_initiate("sender", "receiver", &st.identity_pub, bundle, &st.ring, 0, &seed);
    let wrong_ring: Vec<RingMember> = (0..3u8)
        .map(|b| RingMember { public_key: vec![b; 32], secret_key: None })
        .collect();
    let r = ringxkem_receive(
        &ct_id, &ct_prekey, &enc, &st.identity_sk, bundle, prekey_sk, &wrong_ring,
        &st.signer_public, &st.root,
    );
    assert!(r.is_err());
    let other_ring: Vec<RingMember> = (0..3)
        .map(|_| RingMember { public_key: ring_keygen().0, secret_key: None })
        .collect();
    let r2 = ringxkem_receive(
        &ct_id, &ct_prekey, &enc, &st.identity_sk, bundle, prekey_sk, &other_ring,
        &st.signer_public, &st.root,
    );
    assert_eq!(r2.err(), Some(XkemError::RingSignatureInvalid));
}

#[test]
fn receive_rejections() {
    let st = setup();
    let (bundle, prekey_sk) = &st.bundles[0];
    let seed = st.ring[0].secret_key.clone().unwrap();
    let (ct_id, ct_prekey, enc) =
        ringxkem_initiate("sender", "receiver", &st.identity_pub, bundle, &st.ring, 0, &seed);
    let recv = |ct_id: &[u8], enc: &[u8], bundle: &PreKeyBundle, root: &[u8; 32]| {
        ringxkem_receive(
            ct_id, &ct_prekey, enc, &st.identity_sk, bundle, prekey_sk, &st.ring,
            &st.signer_public, root,
        )
        .err()
    };
    assert_eq!(recv(&ct_id[1..], &enc, bundle, &st.root), Some(XkemError::KemCiphertextLength));
    assert_eq!(recv(&ct_id, &enc, bundle, &[0u8; 32]), Some(XkemError::MerkleProofInvalid));
    assert_eq!(recv(&ct_id, &enc[..11], bundle, &st.root), Some(XkemError::EncryptedSignatureTooShort));
    let mut tampered = enc.clone();
    let last = tampered.len() - 1;
    tampered[last] ^= 1;
    assert_eq!(recv(&ct_id, &tampered, bundle, &st.root), Some(XkemError::DecryptionFailed));
    let short_sig = PreKeyBundle {
        pqkem_pub: bundle.pqkem_pub.clone(),
        signature: bundle.signature[..63].to_vec(),
        signer_public: bundle.signer_public.clone(),
        merkle_proof: bundle.merkle_proof.clone(),
    };
    assert_eq!(recv(&ct_id, &enc, &short_sig, &st.root), Some(XkemError::PrekeySignatureLength));
    let mut flipped = bundle.signature.clone();
    flipped[0] ^= 1;
    let bad_sig = PreKeyBundle {
        pqkem_pub: bundle.pqkem_pub.clone(),
        signature: flipped,
        signer_public: bundle.signer_public.clone(),
        merkle_proof: bundle.merkle_proof.clone(),
    };
    assert_eq!(recv(&ct_id, &enc, &bad_sig, &st.root), Some(XkemError::PrekeySignatureInvalid));
}

#[test]
fn every_prekey_bundle_is_accepted() {
    let st = setup();
    for (k, (bundle, prekey_sk)) in st.bundles.iter().enumerate() {
        let signer = k % 3;
        let mut ring = st.ring.clone();
        let (pk, sk) = ring_keygen();
        ring[signer] = RingMember { public_key: pk, secret_key: Some(sk.clone()) };
        let (ct_id, ct_prekey, enc) =
            ringxkem_initiate("sender", "receiver", &st.identity_pub, bundle, &ring, signer, &sk);
        let session = ringxkem_receive(
            &ct_id, &ct_prekey, &enc, &st.identity_sk, bundle, prekey_sk, &ring,
            &st.signer_public, &st.root,
        )
        .unwrap();
        assert_eq!(session.peer_id, "sender");
    }
}

#[test]
fn short_encrypted_signatures_are_refused() {
    let st = setup();
    let (bundle, prekey_sk) = &st.bundles[0];
    let seed = st.ring[0].secret_key.clone().unwrap();
    let (ct_id, ct_prekey, enc) =
        ringxkem_initiate("sender", "receiver", &st.identity_pub, bundle, &st.ring, 0, &seed);
    for len in 0..28 {
        let r = ringxkem_receive(
            &ct_id, &ct_prekey, &enc[..len], &st.identity_sk, bundle, prekey_sk, &st.ring,
            &st.signer_public, &st.root,
        );
        assert!(r.is_err());
    }
}

#[test]
fn kem_secret_key_holds_public_key() {
    let (pk, sk) = generate_identity_keypair();
    assert_eq!(&sk[1152..2336], &pk[..]);
    let ss = pqcrypto_decap(&pqcrypto_encap(&pk).1, &sk);
    assert_eq!(ss.len(), 32);
}

fn pqcrypto_encap(pk: &[u8]) -> (Vec<u8>, Vec<u8>) {
    let pk = pqcrypto_kyber::kyber768::PublicKey::from_bytes(pk).unwrap();
    let (ss, ct) = pqcrypto_kyber::kyber768::encapsulate(&pk);
    (ss.as_bytes().to_vec(), ct.as_bytes().to_vec())
}

#[test]
fn decrypted_garbage_is_a_ring_decoding_error() {
    let st = setup();
    let (bundle, prekey_sk) = &st.bundles[0];
    let seed = st.ring[0].secret_key.clone().unwrap();
    let (ct_id, ct_prekey, _) =
        ringxkem_initiate("sender", "receiver", &st.identity_pub, bundle, &st.ring, 0, &seed);
    // Rebuild the session key on the receiver's side and seal something that is not a signature.
    let ss_id = pqcrypto_decap(&ct_id, &st.identity_sk);
    let ss_pre = pqcrypto_decap(&ct_prekey, prekey_sk);
    let key = session_key_from_secrets(&ss_id, &ss_pre);
    let enc = seal_signature(&key, &[3u8; 12], &[1u8; 10]);
    let r = ringxkem_receive(
        &ct_id, &ct_prekey, &enc, &st.identity_sk, bundle, prekey_sk, &st.ring,
        &st.signer_public, &st.root,
    );
    assert_eq!(r.err(), Some(XkemError::Ring(RingError::SignatureTooShort)));
}

fn pqcrypto_decap(ct: &[u8], sk: &[u8]) -> Vec<u8> {
    let ct = pqcrypto_kyber::kyber768::Ciphertext::from_bytes(ct).unwrap();
    let sk = pqcrypto_kyber::kyber768::SecretKey::from_bytes(sk).unwrap();
    pqcrypto_kyber::kyber768::decapsulate(&ct, &sk).as_bytes().to_vec()
}

#[test]
fn try_initiate_checks_inputs() {
    let st = setup();
    let (bundle, _) = &st.bundles[0];
    let seed = st.ring[0].secret_key.clone().unwrap();
    assert!(try_ringxkem_initiate("a", "b", &st.identity_pub[1..], bundle, &st.ring, 0, &seed).is_none());
    assert!(try_ringxkem_initiate("a", "b", &st.identity_pub, bundle, &st.ring, 3, &seed).is_none());
    assert!(try_ringxkem_initiate("a", "b", &st.identity_pub, bundle, &st.ring, 0, &seed[1..]).is_none());
    let mut bad_ring = st.ring.clone();
    bad_ring[2].public_key = vec![1u8; 5];
    assert!(try_ringxkem_initiate("a", "b", &st.identity_pub, bundle, &bad_ring, 0, &seed).is_none());
    assert!(try_ringxkem_initiate("a", "b", &st.identity_pub, bundle, &st.ring, 0, &seed).is_some());
}

#[test]
fn session_key_is_hkdf_sha256() {
    let a = [1u8; 32];
    let b = [2u8; 32];
    let key = session_key_from_secrets(&a, &b);
    let hk = hkdf::Hkdf::<Sha256>::new(None, &[a, b].concat());
    let mut expected = [0u8; 32];
    hk.expand(b"session", &mut expected).unwrap();
    assert_eq!(key, expected);
    assert_ne!(key, a);
}

#[test]
fn seal_then_open_gives_plaintext() {
    let key = [5u8; 32];
    let nonce = [6u8; 12];
    let pt = b"ring signature bytes";
    let sealed = seal_signature(&key, &nonce, pt);
    assert_eq!(&sealed[..12], &nonce);
    assert_eq!(sealed.len(), 12 + pt.len() + 16);
    assert_ne!(&sealed[12..12 + pt.len()], pt);
    assert_eq!(open_signature(&key, &sealed).unwrap(), pt.to_vec());
    assert_eq!(open_signature(&[4u8; 32], &sealed).err(), Some(XkemError::DecryptionFailed));
    assert_eq!(open_signature(&key, &sealed[..5]).err(), Some(XkemError::EncryptedSignatureTooShort));
}

#[test]
fn transcript_concatenates_fields() {
    let bundle = PreKeyBundle {
        pqkem_pub: vec![9u8; 4],
        signature: vec![1, 2],
        signer_public: vec![3],
        merkle_proof: vec![[4u8; 32], [5u8; 32]],
    };
    let msg = handshake_transcript(&[7, 7], &[8], &bundle);
    let mut expected = vec![7u8, 7, 8, 1, 2, 3];
    expected.extend_from_slice(&[4u8; 32]);
    expected.extend_from_slice(&[5u8; 32]);
    assert_eq!(msg, expected);
    assert_eq!(flatten_proof(&bundle.merkle_proof), expected[6..].to_vec());
}

#[test]
fn prekey_bundle_is_signed_and_proven() {
    let leaves: Vec<[u8; 32]> = (0..3u8).map(|i| Sha256::digest([i]).into()).collect();
    let tree = MerkleTree::new(&leaves).unwrap();
    let seed = [11u8; 32];
    let (bundle, sk) = create_prekey_bundle(&seed, &tree, 2);
    assert_eq!(bundle.pqkem_pub.len(), KEM_PUBLIC_KEY_BYTES);
    assert_eq!(sk.len(), KEM_SECRET_KEY_BYTES);
    let signing = ed25519_dalek::SigningKey::from_bytes(&seed);
    assert_eq!(bundle.signer_public, signing.verifying_key().to_bytes().to_vec());
    assert_eq!(bundle.signature, signing.sign(&bundle.pqkem_pub).to_bytes().to_vec());
    assert_eq!(bundle.merkle_proof, tree.proof_of(2).unwrap());
    assert_eq!(&sk[1152..2336], &bundle.pqkem_pub[..]);
}

#[test]
fn prekey_store_files_by_user() {
    let mut store = PreKeyStore::new();
    assert!(store.get_bundle("alice").is_none());
    assert!(store.get_ring("alice").is_none());
    let mk = |b: u8| PreKeyBundle {
        pqkem_pub: vec![b],
        signature: vec![],
        signer_public: vec![],
        merkle_proof: vec![],
    };
    store.add_bundle("alice", mk(1));
    store.add_bundle("bob", mk(2));
    store.add_bundle("alice", mk(3));
    assert_eq!(store.get_bundle("alice").unwrap().pqkem_pub, vec![1]);
    assert_eq!(store.get_bundle("bob").unwrap().pqkem_pub, vec![2]);
    assert!(store.get_bundle("carol").is_none());
    store.add_ring_member("alice", RingMember { public_key: vec![1], secret_key: None });
    store.add_ring_member("alice", RingMember { public_key: vec![2], secret_key: None });
    let ring = store.get_ring("alice").unwrap();
    assert_eq!(ring.len(), 2);
    assert_eq!(ring[1].public_key, vec![2]);
    assert!(store.get_ring("bob").is_none());
}
