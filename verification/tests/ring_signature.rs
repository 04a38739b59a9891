use ringxkem::ring_signature::{keygen, sign, verify, RingError, RingMember, RingSignature};

fn ring_of(n: usize, signer: usize) -> Vec<RingMember> {
    (0..n)
        .map(|i| {
            let (pk, sk) = keygen();
            RingMember { public_key: pk, secret_key: if i == signer { Some(sk) } else { None } }
        })
        .collect()
}

fn non_point() -> Vec<u8> {
    for b in 0..=255u8 {
        let bytes = [b; 32];
        if curve25519_dalek::edwards::CompressedEdwardsY(bytes).decompress().is_none() {
            return bytes.to_vec();
        }
    }
    panic!("no invalid encoding found");
}

#[test]
fn keygen_gives_ed25519_pair() {
    let (pk, sk) = keygen();
    assert_eq!(pk.len(), 32);
    assert_eq!(sk.len(), 32);
    let seed: [u8; 32] = sk.as_slice().try_into().unwrap();
    let expected = ed25519_dalek::SigningKey::from_bytes(&seed).verifying_key().to_bytes();
    assert_eq!(pk, expected.to_vec());
}

#[test]
fn sign_then_verify_accepts_at_every_position() {
    for n in 1..5 {
        for signer in 0..n {
            let ring = ring_of(n, signer);
            let seed = ring[signer].secret_key.clone().unwrap();
            let sig = sign(b"hello ring", &ring, signer, &seed).unwrap();
            assert_eq!(sig.ring_size, n);
            assert_eq!(sig.s.len(), n);
            assert_eq!(verify(b"hello ring", &ring, &sig).unwrap(), true);
        }
    }
}

#[test]
fn verify_rejects_other_message_and_tampering() {
    let ring = ring_of(3, 1);
    let seed = ring[1].secret_key.clone().unwrap();
    let sig = sign(b"message", &ring, 1, &seed).unwrap();
    assert_eq!(verify(b"massage", &ring, &sig).unwrap(), false);
    let mut bad = RingSignature { c0: sig.c0, s: sig.s.clone(), ring_size: sig.ring_size };
    bad.s[0][0] ^= 1;
    assert_eq!(verify(b"message", &ring, &bad).unwrap(), false);
    let bad_c0 = RingSignature { c0: [7u8; 32], s: sig.s.clone(), ring_size: 3 };
    assert_eq!(verify(b"message", &ring, &bad_c0).unwrap(), false);
}

#[test]
fn verify_with_wrong_sizes_is_false() {
    let ring = ring_of(2, 0);
    let seed = ring[0].secret_key.clone().unwrap();
    let sig = sign(b"m", &ring, 0, &seed).unwrap();
    let wrong_size = RingSignature { c0: sig.c0, s: sig.s.clone(), ring_size: 3 };
    assert_eq!(verify(b"m", &ring, &wrong_size).unwrap(), false);
    let bigger = ring_of(3, 0);
    assert_eq!(verify(b"m", &bigger, &sig).unwrap(), false);
}

#[test]
fn signing_with_a_key_outside_the_ring_does_not_verify() {
    let ring = ring_of(3, 0);
    let (_, other_seed) = keygen();
    let sig = sign(b"m", &ring, 0, &other_seed).unwrap();
    assert_eq!(verify(b"m", &ring, &sig).unwrap(), false);
}

#[test]
fn sign_errors() {
    let ring = ring_of(2, 0);
    let seed = ring[0].secret_key.clone().unwrap();
    assert_eq!(sign(b"m", &ring, 2, &seed).err(), Some(RingError::InvalidSignerIndex));
    assert_eq!(sign(b"m", &ring, 0, &seed[..31]).err(), Some(RingError::InvalidSeedLength));
    let mut short = ring.clone();
    short[1].public_key.pop();
    assert_eq!(sign(b"m", &short, 0, &seed).err(), Some(RingError::InvalidPublicKeyLength));
    let mut bad = ring.clone();
    bad[1].public_key = non_point();
    assert_eq!(sign(b"m", &bad, 0, &seed).err(), Some(RingError::InvalidPublicKeyPoint));
}

#[test]
fn verify_key_errors() {
    let ring = ring_of(2, 0);
    let seed = ring[0].secret_key.clone().unwrap();
    let sig = sign(b"m", &ring, 0, &seed).unwrap();
    let mut short = ring.clone();
    short[0].public_key.push(0);
    assert_eq!(verify(b"m", &short, &sig).err(), Some(RingError::InvalidPublicKeyLength));
    let mut bad = ring.clone();
    bad[0].public_key = non_point();
    assert_eq!(verify(b"m", &bad, &sig).err(), Some(RingError::InvalidPublicKeyPoint));
}

#[test]
fn to_bytes_layout() {
    let sig = RingSignature { c0: [9u8; 32], s: vec![[1u8; 32], [2u8; 32]], ring_size: 2 };
    let bytes = sig.to_bytes();
    assert_eq!(bytes.len(), 8 + 32 + 64);
    assert_eq!(&bytes[..8], &2u64.to_be_bytes());
    assert_eq!(&bytes[8..40], &[9u8; 32]);
    assert_eq!(&bytes[40..72], &[1u8; 32]);
    assert_eq!(&bytes[72..], &[2u8; 32]);
}

#[test]
fn from_bytes_of_to_bytes_gives_signature_back() {
    let ring = ring_of(3, 2);
    let seed = ring[2].secret_key.clone().unwrap();
    let sig = sign(b"roundtrip", &ring, 2, &seed).unwrap();
    let back = RingSignature::from_bytes(&sig.to_bytes()).unwrap();
    assert_eq!(back.c0, sig.c0);
    assert_eq!(back.s, sig.s);
    assert_eq!(back.ring_size, sig.ring_size);
    assert!(verify(b"roundtrip", &ring, &back).unwrap());
}

#[test]
fn from_bytes_errors() {
    assert_eq!(RingSignature::from_bytes(&[0u8; 39]).err(), Some(RingError::SignatureTooShort));
    let mut buf = 1u64.to_be_bytes().to_vec();
    buf.extend_from_slice(&[0u8; 32]);
    assert_eq!(RingSignature::from_bytes(&buf).err(), Some(RingError::SignatureLengthMismatch));
    buf.extend_from_slice(&[0u8; 33]);
    assert_eq!(RingSignature::from_bytes(&buf).err(), Some(RingError::SignatureLengthMismatch));
    buf.pop();
    let sig = RingSignature::from_bytes(&buf).unwrap();
    assert_eq!(sig.ring_size, 1);
    let mut huge = u64::MAX.to_be_bytes().to_vec();
    huge.extend_from_slice(&[0u8; 64]);
    assert_eq!(RingSignature::from_bytes(&huge).err(), Some(RingError::SignatureLengthMismatch));
}

#[test]
fn empty_ring_authenticates_no_one() {
    let sig = RingSignature { c0: [0u8; 32], s: vec![], ring_size: 0 };
    assert_eq!(verify(b"anything", &[], &sig).unwrap(), false);
    let pq = ringxkem::pqring::RingSignature { c0: [0u8; 32], s: vec![], ring_size: 0 };
    assert_eq!(ringxkem::pqring::verify(b"anything", &[], &pq).unwrap(), false);
}

#[test]
fn decoding_then_encoding_gives_buffer_back() {
    let mut buf = 2u64.to_be_bytes().to_vec();
    buf.extend((0..96u8).collect::<Vec<u8>>());
    let sig = RingSignature::from_bytes(&buf).unwrap();
    assert_eq!(sig.to_bytes(), buf);
    let pq = ringxkem::pqring::RingSignature::from_bytes(&buf).unwrap();
    assert_eq!(pq.to_bytes(), buf);
}
