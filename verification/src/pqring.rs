use vstd::prelude::*;
use crate::bytes::{append_arrays, append_bytes, arrays_view, blocks32, bytes_to_vec, to_array32};
use crate::crypto::{ed25519_public, ed25519_public_key, point_decompresses, random_secret_key};
use crate::ring_signature::{
    be_u64_value, chain_closes, check_keys, decode_key, lemma_check_keys_ok, push_be_u64,
    read_be_u64, sign_core, signature_encoding, signed_ring, RingError,
};

verus! {

broadcast use vstd::array::group_array_axioms;

/// A member of a ring: an Ed25519 public key, and the secret key seed where it is known.
#[derive(Clone)]
pub struct RingMember {
    pub public_key: Vec<u8>,
    pub secret_key: Option<Vec<u8>>,
}

/// An AOS ring signature: the challenge at position 0 and one response per member.
pub struct RingSignature {
    pub c0: [u8; 32],
    pub s: Vec<[u8; 32]>,
    pub ring_size: usize,
}

/// The public keys of the members of `ring`, in order.
pub open spec fn member_keys(ring: Seq<RingMember>) -> Seq<Seq<u8>> {
    Seq::new(ring.len(), |i: int| ring[i].public_key@)
}

/// The fields of a signature as plain values.
pub open spec fn signature_parts(sig: RingSignature) -> (usize, Seq<u8>, Seq<Seq<u8>>) {
    (sig.ring_size, sig.c0@, arrays_view(sig.s@))
}

/// What reading `buf` field by field gives: the input ends too early for the header or
/// for the responses the header announces, has bytes left over after them, or holds
/// exactly the ring size, `c0` and the responses.
pub open spec fn read_signature(buf: Seq<u8>) -> Result<(usize, Seq<u8>, Seq<Seq<u8>>), RingError> {
    if buf.len() < 40 {
        Err(RingError::UnexpectedEnd)
    } else {
        let ring_size = be_u64_value(buf) as usize;
        if buf.len() < 40 + 32 * ring_size {
            Err(RingError::UnexpectedEnd)
        } else if buf.len() > 40 + 32 * ring_size {
            Err(RingError::TrailingBytes)
        } else {
            Ok((ring_size, buf.subrange(8, 40), blocks32(buf.skip(40), ring_size as nat)))
        }
    }
}

/// Reading gives back an encoded signature whose ring size is its number of responses.
pub proof fn lemma_read_signature_roundtrip(ring_size: usize, c0: Seq<u8>, s: Seq<Seq<u8>>)
    requires
        c0.len() == 32,
        s.len() == ring_size,
        forall|i: int| 0 <= i < s.len() ==> #[trigger] s[i].len() == 32,
    ensures
        read_signature(signature_encoding(ring_size, c0, s)) == Ok::<_, RingError>((ring_size, c0, s)),
{
    crate::ring_signature::lemma_signature_roundtrip(ring_size, c0, s);
    let buf = signature_encoding(ring_size, c0, s);
    crate::bytes::lemma_flatten_blocks(s);
    assert(buf.len() == 40 + 32 * ring_size);
}

/// Every buffer that reads as a signature is the encoding of what it reads as (where
/// its ring size fits in `usize`, which it always does on 64-bit targets).
pub proof fn lemma_read_signature_reencodes(buf: Seq<u8>)
    requires
        read_signature(buf) is Ok,
        be_u64_value(buf) <= usize::MAX,
    ensures
        read_signature(buf) matches Ok(p) && signature_encoding(p.0, p.1, p.2) == buf,
{
    let rs = be_u64_value(buf) as usize;
    crate::ring_signature::lemma_be_u64_bytes_of_value(buf);
    crate::bytes::lemma_blocks_flatten(buf.skip(40), rs as nat);
    assert(buf =~= buf.take(8) + buf.subrange(8, 40) + buf.skip(40));
}

impl RingSignature {
    /// Encodes the signature: ring size (8 bytes, big-endian), `c0`, then each response.
    pub fn to_bytes(&self) -> (out: Vec<u8>)
        ensures
            out@ == signature_encoding(self.ring_size, self.c0@, arrays_view(self.s@)),
    {
        let mut out: Vec<u8> = Vec::new();
        push_be_u64(&mut out, self.ring_size as u64);
        append_bytes(&mut out, &self.c0);
        append_arrays(&mut out, self.s.as_slice());
        assert(out@ =~= signature_encoding(self.ring_size, self.c0@, arrays_view(self.s@)));
        out
    }

    /// Reads a signature field by field, failing where the input ends early or goes on
    /// after the last response.
    pub fn from_bytes(buf: &[u8]) -> (res: Result<RingSignature, RingError>)
        ensures
            match res {
                Ok(sig) => read_signature(buf@) == Ok::<_, RingError>(signature_parts(sig)),
                Err(e) => read_signature(buf@) == Err::<(usize, Seq<u8>, Seq<Seq<u8>>), _>(e),
            },
    {
        let len = buf.len();
        let mut idx: usize = 0;
        if len < idx + 8 {
            return Err(RingError::UnexpectedEnd);
        }
        let ring_size = #[verifier::truncate] (read_be_u64(buf) as usize);
        idx = idx + 8;
        if len < idx + 32 {
            return Err(RingError::UnexpectedEnd);
        }
        let c0 = to_array32(&buf[idx..idx + 32]);
        idx = idx + 32;
        let mut s: Vec<[u8; 32]> = Vec::new();
        let mut i: usize = 0;
        while i < ring_size
            invariant
                i <= ring_size,
                len == buf@.len(),
                idx == 40 + 32 * i,
                idx <= len,
                ring_size == be_u64_value(buf@) as usize,
                arrays_view(s@) =~= blocks32(buf@.skip(40), i as nat),
            decreases ring_size - i,
        {
            if len - idx < 32 {
                return Err(RingError::UnexpectedEnd);
            }
            let block = to_array32(&buf[idx..idx + 32]);
            let ghost old_s = s@;
            s.push(block);
            proof {
                assert(block@ =~= buf@.skip(40).subrange(32 * i, 32 * i + 32));
                assert(arrays_view(s@) =~= arrays_view(old_s).push(block@));
                assert(blocks32(buf@.skip(40), (i + 1) as nat) =~= blocks32(buf@.skip(40), i as nat).push(
                    block@,
                ));
            }
            idx = idx + 32;
            i = i + 1;
        }
        if idx != len {
            return Err(RingError::TrailingBytes);
        }
        Ok(RingSignature { c0, s, ring_size })
    }
}

/// A fresh Ed25519 key pair for a ring member, as (public key, secret key seed).
pub fn keygen() -> (res: (Vec<u8>, Vec<u8>))
    ensures
        res.1@.len() == 32,
        res.0@ == ed25519_public(res.1@),
        res.0@.len() == 32,
        point_decompresses(res.0@),
{
    let seed = random_secret_key();
    let verifying_key = ed25519_public_key(&seed);
    (bytes_to_vec(&verifying_key), bytes_to_vec(&seed))
}

/// Decodes the ring's public keys, in order, stopping at the first that fails.
fn decode_keys(ring: &[RingMember]) -> (res: Result<Vec<[u8; 32]>, RingError>)
    ensures
        match res {
            Ok(keys) => check_keys(member_keys(ring@)) is Ok && arrays_view(keys@) == member_keys(ring@),
            Err(e) => check_keys(member_keys(ring@)) == Err::<(), RingError>(e),
        },
{
    let ghost pks = member_keys(ring@);
    let mut keys: Vec<[u8; 32]> = Vec::new();
    let mut i: usize = 0;
    assert(pks.skip(0) =~= pks);
    while i < ring.len()
        invariant
            i <= ring@.len(),
            pks == member_keys(ring@),
            check_keys(pks) == check_keys(pks.skip(i as int)),
            arrays_view(keys@) =~= pks.take(i as int),
        decreases ring@.len() - i,
    {
        let member = &ring[i];
        assert(pks.skip(i as int)[0] == member.public_key@);
        assert(pks.skip(i as int).drop_first() =~= pks.skip(i + 1));
        let pk = match decode_key(member.public_key.as_slice()) {
            Ok(pk) => pk,
            Err(e) => return Err(e),
        };
        let ghost old_keys = keys@;
        keys.push(pk);
        assert(arrays_view(keys@) =~= arrays_view(old_keys).push(pk@));
        i = i + 1;
    }
    assert(pks.skip(i as int) =~= Seq::<Seq<u8>>::empty());
    Ok(keys)
}

/// Signs `message` for `ring` as the member at `signer_index`; the first challenge is
/// taken over the public key derived from `secret_key_seed`.
pub fn sign(message: &[u8], ring: &[RingMember], signer_index: usize, secret_key_seed: &[u8]) -> (res: Result<RingSignature, RingError>)
    requires
        signer_index < ring@.len() ==> secret_key_seed@.len() == 32,
    ensures
        signer_index >= ring@.len() ==> res == Err::<RingSignature, _>(RingError::InvalidSignerIndex),
        signer_index < ring@.len() ==> match check_keys(member_keys(ring@)) {
            Err(e) => res == Err::<RingSignature, _>(e),
            Ok(_) => res matches Ok(sig) && sig.ring_size == ring@.len() && signed_ring(
                message@,
                member_keys(ring@),
                signer_index as int,
                secret_key_seed@,
                ed25519_public(secret_key_seed@),
                sig.c0@,
                arrays_view(sig.s@),
            ),
        },
{
    let n = ring.len();
    if signer_index >= n {
        return Err(RingError::InvalidSignerIndex);
    }
    let seed = to_array32(secret_key_seed);
    let our_pubkey = ed25519_public_key(&seed);
    let pubkeys = match decode_keys(ring) {
        Ok(keys) => keys,
        Err(e) => return Err(e),
    };
    proof {
        assert forall|i: int| 0 <= i < pubkeys@.len() implies point_decompresses(#[trigger] pubkeys@[i]@) by {
            lemma_check_keys_ok(member_keys(ring@), i);
            assert(arrays_view(pubkeys@)[i] == pubkeys@[i]@);
        }
    }
    let sig = sign_core(message, &pubkeys, signer_index, secret_key_seed, &our_pubkey);
    Ok(RingSignature { c0: sig.c0, s: sig.s, ring_size: sig.ring_size })
}

/// What `verify` answers: `false` for an empty ring and for a signature of the wrong
/// size, the key error where a public key does not decode, and otherwise whether the chain from the (reduced)
/// `c0` around the whole ring comes back to `c0`.
pub open spec fn verify_result(m: Seq<u8>, pks: Seq<Seq<u8>>, ring_size: usize, c0: Seq<u8>, s: Seq<Seq<u8>>) -> Result<bool, RingError> {
    crate::ring_signature::verify_result(m, pks, ring_size, c0, s)
}

/// `verify` accepts only where the challenge chain over exactly the given message closes
/// on `c0`; for a non-empty ring of valid keys and a signature of the ring's size it
/// answers exactly whether it does.
pub proof fn lemma_verify_accepts_closing_chain(m: Seq<u8>, pks: Seq<Seq<u8>>, ring_size: usize, c0: Seq<u8>, s: Seq<Seq<u8>>)
    ensures
        verify_result(m, pks, ring_size, c0, s) == Ok::<bool, RingError>(true) ==> pks.len() > 0 && ring_size == pks.len()
            && s.len() == pks.len() && crate::ring_signature::ring_chain(m, pks, s, crate::crypto::scalar_of(crate::crypto::le_value(c0)), 0, pks.len()) == c0,
        (pks.len() > 0 && ring_size == pks.len() && s.len() == pks.len() && (forall|i: int|
            0 <= i < pks.len() ==> #[trigger] pks[i].len() == 32 && point_decompresses(pks[i]))) ==> verify_result(
            m,
            pks,
            ring_size,
            c0,
            s,
        ) == Ok::<bool, RingError>(crate::ring_signature::ring_chain(m, pks, s, crate::crypto::scalar_of(crate::crypto::le_value(c0)), 0, pks.len()) == c0),
{
    crate::ring_signature::lemma_verify_accepts_closing_chain(m, pks, ring_size, c0, s);
}

/// Checks `signature` against `message` and `ring`: starting from `c0`, recomputes each
/// member's commitment and the next challenge, and accepts when the ring closes on `c0`.
pub fn verify(message: &[u8], ring: &[RingMember], signature: &RingSignature) -> (res: Result<bool, RingError>)
    ensures
        res == verify_result(message@, member_keys(ring@), signature.ring_size, signature.c0@, arrays_view(signature.s@)),
{
    let n = ring.len();
    if n == 0 || signature.ring_size != n || signature.s.len() != n {
        return Ok(false);
    }
    let pubkeys = match decode_keys(ring) {
        Ok(keys) => keys,
        Err(e) => return Err(e),
    };
    proof {
        assert forall|i: int| 0 <= i < pubkeys@.len() implies point_decompresses(#[trigger] pubkeys@[i]@) by {
            lemma_check_keys_ok(member_keys(ring@), i);
            assert(arrays_view(pubkeys@)[i] == pubkeys@[i]@);
        }
    }
    Ok(chain_closes(message, &pubkeys, &signature.c0, &signature.s))
}

} // verus!
