use ringxkem::pqring::{keygen, sign, verify, RingMember, RingSignature};
use ringxkem::ring_signature::RingError;

fn pq_ring_of(n: usize, signer: usize) -> Vec<RingMember> {
    (0..n)
        .map(|i| {
            let (pk, sk) = keygen();
            RingMember { public_key: pk, secret_key: if i == signer { Some(sk) } else { None } }
        })
        .collect()
}

#[test]
fn pq_sign_then_verify() {
    for n in 1..4 {
        for signer in 0..n {
            let ring = pq_ring_of(n, signer);
            let seed = ring[signer].secret_key.clone().unwrap();
            let sig = sign(b"pq message", &ring, signer, &seed).unwrap();
            assert!(verify(b"pq message", &ring, &sig).unwrap());
            assert!(!verify(b"other", &ring, &sig).unwrap());
        }
    }
}

#[test]
fn pq_sign_invalid_index() {
    let ring = pq_ring_of(2, 0);
    assert_eq!(sign(b"m", &ring, 5, &[0u8; 32]).err(), Some(RingError::InvalidSignerIndex));
}

#[test]
fn pq_sign_bad_key_length() {
    let mut ring = pq_ring_of(2, 0);
    let seed = ring[0].secret_key.clone().unwrap();
    ring[1].public_key = vec![1u8; 31];
    assert_eq!(sign(b"m", &ring, 0, &seed).err(), Some(RingError::InvalidPublicKeyLength));
}

#[test]
fn pq_from_bytes_roundtrip() {
    let ring = pq_ring_of(2, 1);
    let seed = ring[1].secret_key.clone().unwrap();
    let sig = sign(b"x", &ring, 1, &seed).unwrap();
    let bytes = sig.to_bytes();
    assert_eq!(bytes.len(), 8 + 32 + 64);
    let back = RingSignature::from_bytes(&bytes).unwrap();
    assert_eq!(back.c0, sig.c0);
    assert_eq!(back.s, sig.s);
    assert_eq!(back.ring_size, 2);
}

#[test]
fn pq_from_bytes_errors() {
    assert_eq!(RingSignature::from_bytes(&[0u8; 7]).err(), Some(RingError::UnexpectedEnd));
    assert_eq!(RingSignature::from_bytes(&[0u8; 39]).err(), Some(RingError::UnexpectedEnd));
    let mut buf = 2u64.to_be_bytes().to_vec();
    buf.extend_from_slice(&[0u8; 32 + 32]);
    assert_eq!(RingSignature::from_bytes(&buf).err(), Some(RingError::UnexpectedEnd));
    buf.extend_from_slice(&[0u8; 32]);
    assert!(RingSignature::from_bytes(&buf).is_ok());
    buf.push(0);
    assert_eq!(RingSignature::from_bytes(&buf).err(), Some(RingError::TrailingBytes));
    let mut zero = 0u64.to_be_bytes().to_vec();
    zero.extend_from_slice(&[5u8; 32]);
    let sig = RingSignature::from_bytes(&zero).unwrap();
    assert_eq!(sig.ring_size, 0);
    assert!(sig.s.is_empty());
}
