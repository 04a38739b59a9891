use vstd::prelude::*;
use crate::bytes::{
    lemma_blocks_flatten, append_arrays, append_bytes, arrays_view, blocks32, bytes_to_vec, flatten, lemma_flatten_blocks,
    to_array32, zero_arrays,
};
use crate::crypto::{
    basepoint_mul, clamp, commitment, decompresses, ed25519_public, ed25519_public_key,
    group_order, is_canonical_scalar, is_nonce_commitment, le_value, lemma_scalar_of_value, point_decompresses,
    random_scalar, random_secret_key, basepoint_times, scalar_add, scalar_mul, scalar_of,
    scalar_reduce, scalar_reduce_wide, schnorr_commitment, sha512, sha512_digest,
};

verus! {

broadcast use vstd::array::group_array_axioms;

/// Why a ring signature could not be made, checked or decoded.
#[derive(Debug, Clone, Copy, PartialEq, Eq, Structural)]
pub enum RingError {
    /// The signer's position is not a position of the ring.
    InvalidSignerIndex,
    /// The signer's secret key seed is not 32 bytes long.
    InvalidSeedLength,
    /// A ring member's public key is not 32 bytes long.
    InvalidPublicKeyLength,
    /// A ring member's public key is not the encoding of a curve point.
    InvalidPublicKeyPoint,
    /// An encoded signature is shorter than its fixed header.
    SignatureTooShort,
    /// An encoded signature's length disagrees with the ring size in its header.
    SignatureLengthMismatch,
    /// An encoded signature ends before all the fields its header announces.
    UnexpectedEnd,
    /// An encoded signature has bytes after the fields its header announces.
    TrailingBytes,
}

/// A member of a ring: an Ed25519 public key, and the secret key seed where it is known.
#[derive(Clone)]
pub struct RingMember {
    pub public_key: Vec<u8>,
    pub secret_key: Option<Vec<u8>>,
}

/// An AOS ring signature: the challenge at position 0 and one response per member.
pub struct RingSignature {
    pub c0: [u8; 32],
    pub s: Vec<[u8; 32]>,
    pub ring_size: usize,
}

/// The 8-byte big-endian encoding of `x`.
pub open spec fn be_u64_bytes(x: u64) -> Seq<u8> {
    seq![
        (x >> 56u64) as u8,
        (x >> 48u64) as u8,
        (x >> 40u64) as u8,
        (x >> 32u64) as u8,
        (x >> 24u64) as u8,
        (x >> 16u64) as u8,
        (x >> 8u64) as u8,
        x as u8,
    ]
}

/// The integer whose big-endian encoding is the first 8 bytes of `b`.
pub open spec fn be_u64_value(b: Seq<u8>) -> u64 {
    ((b[0] as u64) << 56u64) | ((b[1] as u64) << 48u64) | ((b[2] as u64) << 40u64) | ((b[3] as u64)
        << 32u64) | ((b[4] as u64) << 24u64) | ((b[5] as u64) << 16u64) | ((b[6] as u64) << 8u64)
        | (b[7] as u64)
}

/// Decoding the big-endian encoding of `x` gives `x`.
pub proof fn lemma_be_u64_roundtrip(x: u64)
    ensures
        be_u64_value(be_u64_bytes(x)) == x,
{
    let b = be_u64_bytes(x);
    assert(((((x >> 56u64) as u8) as u64) << 56u64) | ((((x >> 48u64) as u8) as u64) << 48u64) | ((((x
        >> 40u64) as u8) as u64) << 40u64) | ((((x >> 32u64) as u8) as u64) << 32u64) | ((((x
        >> 24u64) as u8) as u64) << 24u64) | ((((x >> 16u64) as u8) as u64) << 16u64) | ((((x
        >> 8u64) as u8) as u64) << 8u64) | ((x as u8) as u64) == x) by (bit_vector);
}

/// The wire format of a signature: the ring size as 8 big-endian bytes, the 32 bytes of
/// `c0`, then the responses in order.
pub open spec fn signature_encoding(ring_size: usize, c0: Seq<u8>, s: Seq<Seq<u8>>) -> Seq<u8> {
    be_u64_bytes(ring_size as u64) + c0 + flatten(s)
}

/// What decoding `buf` gives: the ring size, `c0` and the responses, or the error.
pub open spec fn decode_signature(buf: Seq<u8>) -> Result<(usize, Seq<u8>, Seq<Seq<u8>>), RingError> {
    if buf.len() < 40 {
        Err(RingError::SignatureTooShort)
    } else {
        let ring_size = be_u64_value(buf) as usize;
        if buf.len() != 40 + 32 * ring_size {
            Err(RingError::SignatureLengthMismatch)
        } else {
            Ok((ring_size, buf.subrange(8, 40), blocks32(buf.skip(40), ring_size as nat)))
        }
    }
}

/// The fields of a signature as plain values.
pub open spec fn signature_parts(sig: RingSignature) -> (usize, Seq<u8>, Seq<Seq<u8>>) {
    (sig.ring_size, sig.c0@, arrays_view(sig.s@))
}

/// Decoding gives back an encoded signature whose ring size is its number of responses.
pub proof fn lemma_signature_roundtrip(ring_size: usize, c0: Seq<u8>, s: Seq<Seq<u8>>)
    requires
        c0.len() == 32,
        s.len() == ring_size,
        forall|i: int| 0 <= i < s.len() ==> #[trigger] s[i].len() == 32,
    ensures
        decode_signature(signature_encoding(ring_size, c0, s)) == Ok::<_, RingError>((ring_size, c0, s)),
{
    let buf = signature_encoding(ring_size, c0, s);
    lemma_flatten_blocks(s);
    lemma_be_u64_roundtrip(ring_size as u64);
    assert(buf.take(8) =~= be_u64_bytes(ring_size as u64));
    assert(be_u64_value(buf) == be_u64_value(buf.take(8)));
    assert(buf.subrange(8, 40) =~= c0);
    assert(buf.skip(40) =~= flatten(s));
}

/// Encoding the integer that 8 bytes hold in big-endian order gives those bytes back.
pub proof fn lemma_be_u64_bytes_of_value(b: Seq<u8>)
    requires
        b.len() >= 8,
    ensures
        be_u64_bytes(be_u64_value(b)) == b.take(8),
{
    let (b0, b1, b2, b3, b4, b5, b6, b7) = (b[0], b[1], b[2], b[3], b[4], b[5], b[6], b[7]);
    let v = be_u64_value(b);
    assert((v >> 56u64) as u8 == b0 && (v >> 48u64) as u8 == b1 && (v >> 40u64) as u8 == b2 && (v
        >> 32u64) as u8 == b3 && (v >> 24u64) as u8 == b4 && (v >> 16u64) as u8 == b5 && (v >> 8u64)
        as u8 == b6 && v as u8 == b7) by (bit_vector)
        requires
            v == ((b0 as u64) << 56u64) | ((b1 as u64) << 48u64) | ((b2 as u64) << 40u64) | ((
            b3 as u64) << 32u64) | ((b4 as u64) << 24u64) | ((b5 as u64) << 16u64) | ((b6 as u64)
                << 8u64) | (b7 as u64),
    ;
    assert(be_u64_bytes(v) =~= b.take(8));
}

/// Every buffer that decodes is the encoding of what it decodes to (where its ring size
/// fits in `usize`, which it always does on 64-bit targets): the format is canonical.
pub proof fn lemma_decoded_signature_reencodes(buf: Seq<u8>)
    requires
        decode_signature(buf) is Ok,
        be_u64_value(buf) <= usize::MAX,
    ensures
        decode_signature(buf) matches Ok(p) && signature_encoding(p.0, p.1, p.2) == buf,
{
    let rs = be_u64_value(buf) as usize;
    lemma_be_u64_bytes_of_value(buf);
    lemma_blocks_flatten(buf.skip(40), rs as nat);
    assert(buf =~= buf.take(8) + buf.subrange(8, 40) + buf.skip(40));
}

/// Pushes the 8-byte big-endian encoding of `x`.
pub(crate) fn push_be_u64(out: &mut Vec<u8>, x: u64)
    ensures
        final(out)@ == old(out)@ + be_u64_bytes(x),
{
    out.push((x >> 56u64) as u8);
    out.push((x >> 48u64) as u8);
    out.push((x >> 40u64) as u8);
    out.push((x >> 32u64) as u8);
    out.push((x >> 24u64) as u8);
    out.push((x >> 16u64) as u8);
    out.push((x >> 8u64) as u8);
    out.push(x as u8);
    assert(final(out)@ =~= old(out)@ + be_u64_bytes(x));
}

/// Reads the big-endian integer in the first 8 bytes of `buf`.
pub(crate) fn read_be_u64(buf: &[u8]) -> (x: u64)
    requires
        buf@.len() >= 8,
    ensures
        x == be_u64_value(buf@),
{
    ((buf[0] as u64) << 56u64) | ((buf[1] as u64) << 48u64) | ((buf[2] as u64) << 40u64) | ((
    buf[3] as u64) << 32u64) | ((buf[4] as u64) << 24u64) | ((buf[5] as u64) << 16u64) | ((buf[6]
        as u64) << 8u64) | (buf[7] as u64)
}

impl RingSignature {
    /// Encodes the signature: ring size (8 bytes, big-endian), `c0`, then each response.
    pub fn to_bytes(&self) -> (out: Vec<u8>)
        ensures
            out@ == signature_encoding(self.ring_size, self.c0@, arrays_view(self.s@)),
    {
        let mut out: Vec<u8> = Vec::new();
        push_be_u64(&mut out, self.ring_size as u64);
        append_bytes(&mut out, &self.c0);
        append_arrays(&mut out, self.s.as_slice());
        assert(out@ =~= signature_encoding(self.ring_size, self.c0@, arrays_view(self.s@)));
        out
    }

    /// Decodes a signature; the length must be exactly what the ring size announces.
    pub fn from_bytes(buf: &[u8]) -> (res: Result<RingSignature, RingError>)
        ensures
            match res {
                Ok(sig) => decode_signature(buf@) == Ok::<_, RingError>(signature_parts(sig)),
                Err(e) => decode_signature(buf@) == Err::<(usize, Seq<u8>, Seq<Seq<u8>>), _>(e),
            },
    {
        if buf.len() < 40 {
            return Err(RingError::SignatureTooShort);
        }
        let ring_size = #[verifier::truncate] (read_be_u64(buf) as usize);
        let body = buf.len() - 40;
        if body % 32 != 0 || body / 32 != ring_size {
            return Err(RingError::SignatureLengthMismatch);
        }
        let c0 = to_array32(&buf[8..40]);
        let mut s: Vec<[u8; 32]> = Vec::new();
        let len = buf.len();
        let mut i: usize = 0;
        while i < ring_size
            invariant
                i <= ring_size,
                len == buf@.len(),
                buf@.len() == 40 + 32 * ring_size,
                arrays_view(s@) =~= blocks32(buf@.skip(40), i as nat),
            decreases ring_size - i,
        {
            let start = 40 + 32 * i;
            let block = to_array32(&buf[start..start + 32]);
            let ghost old_s = s@;
            s.push(block);
            proof {
                assert(block@ =~= buf@.skip(40).subrange(32 * i, 32 * i + 32));
                assert(arrays_view(s@) =~= arrays_view(old_s).push(block@));
                assert(blocks32(buf@.skip(40), (i + 1) as nat) =~= blocks32(buf@.skip(40), i as nat).push(
                    block@,
                ));
            }
            i = i + 1;
        }
        Ok(RingSignature { c0, s, ring_size })
    }
}


// ---------------------------------------------------------------------------
// The AOS ring: challenges, responses and the chain that links them.
// ---------------------------------------------------------------------------

/// The public keys of the members of `ring`, in order.
pub open spec fn member_keys(ring: Seq<RingMember>) -> Seq<Seq<u8>> {
    Seq::new(ring.len(), |i: int| ring[i].public_key@)
}

/// The outcome of decoding the ring's public keys one by one: the first key that is not
/// 32 bytes long, or that is not a curve point, gives the error.
pub open spec fn check_keys(pks: Seq<Seq<u8>>) -> Result<(), RingError>
    decreases pks.len(),
{
    if pks.len() == 0 {
        Ok(())
    } else if pks[0].len() != 32 {
        Err(RingError::InvalidPublicKeyLength)
    } else if !point_decompresses(pks[0]) {
        Err(RingError::InvalidPublicKeyPoint)
    } else {
        check_keys(pks.drop_first())
    }
}

/// The scalar that SHA-512 of `data` gives, reduced modulo the group order.
pub open spec fn hash_scalar(data: Seq<u8>) -> Seq<u8> {
    scalar_of(le_value(sha512(data)))
}

/// The challenge for commitment `r` of the member with public key `pk`.
pub open spec fn challenge_of(m: Seq<u8>, r: Seq<u8>, pk: Seq<u8>) -> Seq<u8> {
    hash_scalar(m + r + pk)
}

/// The Ed25519 secret scalar of a seed: the clamped first half of its SHA-512 digest,
/// reduced.
pub open spec fn secret_scalar(seed: Seq<u8>) -> Seq<u8> {
    scalar_of(le_value(clamp(sha512(seed).take(32))))
}

/// One link of the ring: from challenge `c` at position `j`, the challenge at the next
/// position.
pub open spec fn ring_step(m: Seq<u8>, pks: Seq<Seq<u8>>, s: Seq<Seq<u8>>, j: int, c: Seq<u8>) -> Seq<u8> {
    challenge_of(m, schnorr_commitment(s[j], pks[j], c), pks[j])
}

/// The challenge reached from `c` at position `from` after `k` links, positions counted
/// modulo the ring size.
pub open spec fn ring_chain(
    m: Seq<u8>,
    pks: Seq<Seq<u8>>,
    s: Seq<Seq<u8>>,
    c: Seq<u8>,
    from: int,
    k: nat,
) -> Seq<u8>
    decreases k,
{
    if k == 0 {
        c
    } else {
        ring_step(m, pks, s, (from + k - 1) % (pks.len() as int), ring_chain(m, pks, s, c, from, (k - 1) as nat))
    }
}

/// What `verify` answers: `false` for an empty ring, which authenticates no signer, and
/// for a signature of the wrong size; the key error where a public key does not decode;
/// and otherwise whether the chain from the (reduced) `c0` around the whole ring comes
/// back to `c0`.
pub open spec fn verify_result(m: Seq<u8>, pks: Seq<Seq<u8>>, ring_size: usize, c0: Seq<u8>, s: Seq<Seq<u8>>) -> Result<bool, RingError> {
    if pks.len() == 0 || ring_size != pks.len() || s.len() != pks.len() {
        Ok(false)
    } else {
        match check_keys(pks) {
            Err(e) => Err(e),
            Ok(_) => Ok(ring_chain(m, pks, s, scalar_of(le_value(c0)), 0, pks.len()) == c0),
        }
    }
}

/// Decodes the ring's public keys, in order, stopping at the first that fails.
fn decode_keys(ring: &[RingMember]) -> (res: Result<Vec<[u8; 32]>, RingError>)
    ensures
        match res {
            Ok(keys) => check_keys(member_keys(ring@)) is Ok && arrays_view(keys@) == member_keys(ring@),
            Err(e) => check_keys(member_keys(ring@)) == Err::<(), RingError>(e),
        },
{
    let ghost pks = member_keys(ring@);
    let mut keys: Vec<[u8; 32]> = Vec::new();
    let mut i: usize = 0;
    assert(pks.skip(0) =~= pks);
    while i < ring.len()
        invariant
            i <= ring@.len(),
            pks == member_keys(ring@),
            check_keys(pks) == check_keys(pks.skip(i as int)),
            arrays_view(keys@) =~= pks.take(i as int),
        decreases ring@.len() - i,
    {
        let member = &ring[i];
        assert(pks.skip(i as int)[0] == member.public_key@);
        assert(pks.skip(i as int).drop_first() =~= pks.skip(i + 1));
        let pk = match decode_key(member.public_key.as_slice()) {
            Ok(pk) => pk,
            Err(e) => return Err(e),
        };
        let ghost old_keys = keys@;
        keys.push(pk);
        assert(arrays_view(keys@) =~= arrays_view(old_keys).push(pk@));
        i = i + 1;
    }
    assert(pks.skip(i as int) =~= Seq::<Seq<u8>>::empty());
    Ok(keys)
}

/// Whether every public key of the ring is 32 bytes long and a curve point; the first
/// that is not gives the error.
pub fn check_ring_keys(ring: &[RingMember]) -> (res: Result<(), RingError>)
    ensures
        res is Ok <==> check_keys(member_keys(ring@)) is Ok,
        res matches Err(e) ==> check_keys(member_keys(ring@)) == Err::<(), RingError>(e),
{
    match decode_keys(ring) {
        Ok(_) => Ok(()),
        Err(e) => Err(e),
    }
}

/// Decodes one public key: 32 bytes that are a curve point.
pub(crate) fn decode_key(public_key: &[u8]) -> (res: Result<[u8; 32], RingError>)
    ensures
        match res {
            Ok(pk) => public_key@.len() == 32 && point_decompresses(public_key@) && pk@ == public_key@,
            Err(e) => (public_key@.len() != 32 && e == RingError::InvalidPublicKeyLength) || (
            public_key@.len() == 32 && !point_decompresses(public_key@) && e
                == RingError::InvalidPublicKeyPoint),
        },
{
    if public_key.len() != 32 {
        return Err(RingError::InvalidPublicKeyLength);
    }
    let pk = to_array32(public_key);
    if !decompresses(&pk) {
        return Err(RingError::InvalidPublicKeyPoint);
    }
    Ok(pk)
}

/// Reduces the SHA-512 digest of `data` to a scalar.
fn hash_to_scalar(data: &[u8]) -> (res: [u8; 32])
    ensures
        res@ == hash_scalar(data@),
{
    let digest = sha512_digest(data);
    scalar_reduce_wide(&digest)
}

/// The challenge for commitment `r` of the member with public key `public_key`: the
/// hash of message, commitment and key, as a scalar.
pub(crate) fn challenge(message: &[u8], r: &[u8; 32], public_key: &[u8]) -> (res: [u8; 32])
    ensures
        res@ == challenge_of(message@, r@, public_key@),
{
    let mut data: Vec<u8> = Vec::new();
    append_bytes(&mut data, message);
    append_bytes(&mut data, r);
    append_bytes(&mut data, public_key);
    hash_to_scalar(&data)
}

/// The Ed25519 secret scalar of a seed.
pub(crate) fn secret_scalar_from_seed(seed: &[u8]) -> (res: [u8; 32])
    ensures
        res@ == secret_scalar(seed@),
        sha512(seed@).len() == 64,
{
    let digest = sha512_digest(seed);
    let mut scalar_bytes = [0u8; 32];
    let mut i: usize = 0;
    while i < 32
        invariant
            i <= 32,
            forall|j: int| 0 <= j < i ==> scalar_bytes@[j] == digest@[j],
        decreases 32 - i,
    {
        scalar_bytes[i] = digest[i];
        i = i + 1;
    }
    assert(scalar_bytes@ =~= digest@.take(32));
    let ghost unclamped = scalar_bytes@;
    scalar_bytes[0] = scalar_bytes[0] & 248;
    scalar_bytes[31] = scalar_bytes[31] & 127;
    scalar_bytes[31] = scalar_bytes[31] | 64;
    assert(scalar_bytes@ =~= clamp(unclamped));
    scalar_reduce(&scalar_bytes)
}

/// The commitment for a member whose key is known to decode.
pub(crate) fn member_commitment(z: &[u8; 32], pk: &[u8; 32], c: &[u8; 32]) -> (res: [u8; 32])
    requires
        point_decompresses(pk@),
    ensures
        res@ == schnorr_commitment(z@, pk@, c@),
{
    match commitment(z, pk, c) {
        Some(r) => r,
        None => {
            proof {
                assert(false);
            }
            [0u8; 32]
        },
    }
}

/// Checks `signature` against `message` and `ring`: starting from `c0`, recomputes each
/// member's commitment and the next challenge, and accepts when the ring closes on `c0`.
pub fn verify(message: &[u8], ring: &[RingMember], signature: &RingSignature) -> (res: Result<bool, RingError>)
    ensures
        res == verify_result(message@, member_keys(ring@), signature.ring_size, signature.c0@, arrays_view(signature.s@)),
{
    let n = ring.len();
    if n == 0 || signature.ring_size != n || signature.s.len() != n {
        return Ok(false);
    }
    let pubkeys = match decode_keys(ring) {
        Ok(keys) => keys,
        Err(e) => return Err(e),
    };
    proof {
        assert forall|i: int| 0 <= i < pubkeys@.len() implies point_decompresses(#[trigger] pubkeys@[i]@) by {
            lemma_check_keys_ok(member_keys(ring@), i);
            assert(arrays_view(pubkeys@)[i] == pubkeys@[i]@);
        }
    }
    Ok(chain_closes(message, &pubkeys, &signature.c0, &signature.s))
}

/// Starting from `c0` (reduced), recomputes each member's commitment and the next
/// challenge around the ring, and tells whether the last challenge is `c0`.
pub(crate) fn chain_closes(message: &[u8], pubkeys: &Vec<[u8; 32]>, c0: &[u8; 32], responses: &Vec<[u8; 32]>) -> (res: bool)
    requires
        pubkeys@.len() == responses@.len(),
        forall|i: int| 0 <= i < pubkeys@.len() ==> point_decompresses(#[trigger] pubkeys@[i]@),
    ensures
        res == (ring_chain(message@, arrays_view(pubkeys@), arrays_view(responses@), scalar_of(le_value(c0@)), 0, pubkeys@.len()) == c0@),
{
    let n = pubkeys.len();
    let ghost m = message@;
    let ghost pks = arrays_view(pubkeys@);
    let ghost s = arrays_view(responses@);
    let mut c_current = scalar_reduce(c0);
    let ghost c_start = c_current@;
    let mut i: usize = 0;
    while i < n
        invariant
            n == pubkeys@.len(),
            n == responses@.len(),
            i <= n,
            m == message@,
            pks == arrays_view(pubkeys@),
            s == arrays_view(responses@),
            forall|j: int| 0 <= j < n ==> point_decompresses(#[trigger] pubkeys@[j]@),
            c_current@ == ring_chain(m, pks, s, c_start, 0, i as nat),
        decreases n - i,
    {
        proof {
            vstd::arithmetic::div_mod::lemma_small_mod(i as nat, n as nat);
        }
        let r_i = member_commitment(&responses[i], &pubkeys[i], &c_current);
        let ghost c_old = c_current@;
        c_current = challenge(message, &r_i, pubkeys[i].as_slice());
        proof {
            assert((0 + (i + 1) - 1) % (pks.len() as int) == i);
            assert(c_current@ == ring_step(m, pks, s, i as int, c_old));
        }
        i = i + 1;
    }
    arrays_equal(&c_current, c0)
}

/// Every key of a ring whose keys all decode is a 32-byte curve point.
pub proof fn lemma_check_keys_ok(pks: Seq<Seq<u8>>, i: int)
    requires
        check_keys(pks) is Ok,
        0 <= i < pks.len(),
    ensures
        pks[i].len() == 32,
        point_decompresses(pks[i]),
    decreases i,
{
    if i > 0 {
        lemma_check_keys_ok(pks.drop_first(), i - 1);
    }
}

/// A ring whose keys are all 32 bytes long and curve points decodes, whatever its size.
pub proof fn lemma_valid_keys_decode(pks: Seq<Seq<u8>>)
    requires
        forall|i: int| 0 <= i < pks.len() ==> #[trigger] pks[i].len() == 32 && point_decompresses(pks[i]),
    ensures
        check_keys(pks) is Ok,
    decreases pks.len(),
{
    if pks.len() > 0 {
        assert(pks[0].len() == 32 && point_decompresses(pks[0]));
        let rest = pks.drop_first();
        assert forall|i: int| 0 <= i < rest.len() implies #[trigger] rest[i].len() == 32 && point_decompresses(rest[i]) by {
            assert(rest[i] == pks[i + 1]);
            assert(pks[i + 1].len() == 32);
        }
        lemma_valid_keys_decode(rest);
    }
}

/// `verify` accepts only where the challenge chain, recomputed over exactly the given
/// message from the (reduced) `c0` around the whole ring, comes back to `c0`; and for a
/// non-empty ring of valid keys and a signature of the ring's size it answers exactly
/// whether that chain closes.
pub proof fn lemma_verify_accepts_closing_chain(m: Seq<u8>, pks: Seq<Seq<u8>>, ring_size: usize, c0: Seq<u8>, s: Seq<Seq<u8>>)
    ensures
        verify_result(m, pks, ring_size, c0, s) == Ok::<bool, RingError>(true) ==> pks.len() > 0 && ring_size == pks.len()
            && s.len() == pks.len() && ring_chain(m, pks, s, scalar_of(le_value(c0)), 0, pks.len()) == c0,
        (pks.len() > 0 && ring_size == pks.len() && s.len() == pks.len() && (forall|i: int|
            0 <= i < pks.len() ==> #[trigger] pks[i].len() == 32 && point_decompresses(pks[i]))) ==> verify_result(
            m,
            pks,
            ring_size,
            c0,
            s,
        ) == Ok::<bool, RingError>(ring_chain(m, pks, s, scalar_of(le_value(c0)), 0, pks.len()) == c0),
{
    if pks.len() > 0 && ring_size == pks.len() && s.len() == pks.len() && (forall|i: int|
        0 <= i < pks.len() ==> #[trigger] pks[i].len() == 32 && point_decompresses(pks[i])) {
        lemma_valid_keys_decode(pks);
    }
}

/// Whether two 32-byte arrays hold the same bytes.
pub(crate) fn arrays_equal(a: &[u8; 32], b: &[u8; 32]) -> (res: bool)
    ensures
        res == (a@ == b@),
{
    let mut i: usize = 0;
    while i < 32
        invariant
            i <= 32,
            forall|j: int| 0 <= j < i ==> a@[j] == b@[j],
        decreases 32 - i,
    {
        if a[i] != b[i] {
            return false;
        }
        i = i + 1;
    }
    assert(a@ =~= b@);
    true
}

/// Position `k` steps after `from` in a ring of `n`, for `from` and `k` below `n`.
pub open spec fn ring_pos(from: int, k: int, n: int) -> int {
    if from + k < n {
        from + k
    } else {
        from + k - n
    }
}

pub proof fn lemma_ring_pos(from: int, k: int, n: int)
    requires
        0 <= from < n,
        0 <= k < n,
    ensures
        (from + k) % n == ring_pos(from, k, n),
        0 <= ring_pos(from, k, n) < n,
{
    if from + k < n {
        vstd::arithmetic::div_mod::lemma_small_mod((from + k) as nat, n as nat);
    } else {
        vstd::arithmetic::div_mod::lemma_small_mod((from + k - n) as nat, n as nat);
        vstd::arithmetic::div_mod::lemma_mod_add_multiples_vanish(from + k - n, n);
    }
}

/// Following `a` links and then `b` more is following `a + b` links.
pub proof fn lemma_chain_compose(m: Seq<u8>, pks: Seq<Seq<u8>>, s: Seq<Seq<u8>>, c: Seq<u8>, f: int, a: nat, b: nat)
    ensures
        ring_chain(m, pks, s, c, f, a + b) == ring_chain(m, pks, s, ring_chain(m, pks, s, c, f, a), f + a, b),
    decreases b,
{
    if b > 0 {
        lemma_chain_compose(m, pks, s, c, f, a, (b - 1) as nat);
        assert(f + (a + b) - 1 == (f + a) + b - 1);
        assert((a + b - 1) as nat == a + (b - 1) as nat);
    }
}

/// The chain depends on the starting position only modulo the ring size.
pub proof fn lemma_chain_shift(m: Seq<u8>, pks: Seq<Seq<u8>>, s: Seq<Seq<u8>>, c: Seq<u8>, f1: int, f2: int, k: nat)
    requires
        pks.len() > 0,
        f1 % (pks.len() as int) == f2 % (pks.len() as int),
    ensures
        ring_chain(m, pks, s, c, f1, k) == ring_chain(m, pks, s, c, f2, k),
    decreases k,
{
    if k > 0 {
        let n = pks.len() as int;
        lemma_chain_shift(m, pks, s, c, f1, f2, (k - 1) as nat);
        vstd::arithmetic::div_mod::lemma_add_mod_noop(f1, k - 1, n);
        vstd::arithmetic::div_mod::lemma_add_mod_noop(f2, k - 1, n);
    }
}

/// Position `t` steps after `f`, modulo `n`.
pub open spec fn wrap(f: int, t: int, n: int) -> int {
    (f + t) % n
}

/// The chain only reads the responses at the positions it passes.
pub proof fn lemma_chain_frame(m: Seq<u8>, pks: Seq<Seq<u8>>, s1: Seq<Seq<u8>>, s2: Seq<Seq<u8>>, c: Seq<u8>, f: int, k: nat)
    requires
        forall|t: int| 0 <= t < k ==> s1[#[trigger] wrap(f, t, pks.len() as int)] == s2[wrap(f, t, pks.len() as int)],
    ensures
        ring_chain(m, pks, s1, c, f, k) == ring_chain(m, pks, s2, c, f, k),
    decreases k,
{
    if k > 0 {
        lemma_chain_frame(m, pks, s1, s2, c, f, (k - 1) as nat);
        assert(s1[wrap(f, k - 1, pks.len() as int)] == s2[wrap(f, k - 1, pks.len() as int)]);
    }
}

/// The response arithmetic of the signer: `u + c a` reduced, with `a` reduced first.
pub proof fn lemma_response_value(lu: nat, lc: nat, la: nat)
    ensures
        le_value(scalar_of(lu + le_value(scalar_of(lc * le_value(scalar_of(la)))))) % group_order()
            == (lu + lc * la) % group_order(),
{
    let l = group_order() as int;
    lemma_scalar_of_value(la);
    lemma_scalar_of_value(lc * (la % group_order()));
    lemma_scalar_of_value(lu + (lc * (la % group_order())) % group_order());
    vstd::arithmetic::div_mod::lemma_mod_twice((lu + (lc * (la % group_order())) % group_order()) as int, l);
    vstd::arithmetic::div_mod::lemma_add_mod_noop_right(lu as int, (lc * (la % group_order())) as int, l);
    vstd::arithmetic::div_mod::lemma_mul_mod_noop_right(lc as int, la as int, l);
    vstd::arithmetic::div_mod::lemma_add_mod_noop_right(lu as int, (lc * la) as int, l);
}

/// What a signature made by the signer at `idx` with nonce scalar `u` satisfies: the
/// challenge after the signer starts from the nonce commitment `[u] B` (hashed with
/// `first_pk`), goes once around the other members to the signer's challenge `c_s`,
/// the signer's response is `u + c_s a`, and `c0` is the challenge at position 0 on the
/// way from the signer. Where the signer's key belongs to `seed`, the signer's commitment
/// is `[u] B`.
pub open spec fn signed_with(
    m: Seq<u8>,
    pks: Seq<Seq<u8>>,
    idx: int,
    seed: Seq<u8>,
    first_pk: Seq<u8>,
    c0: Seq<u8>,
    s: Seq<Seq<u8>>,
    u: Seq<u8>,
) -> bool {
    let n = pks.len() as int;
    let start = challenge_of(m, basepoint_mul(u), first_pk);
    let c_s = ring_chain(m, pks, s, start, idx + 1, (n - 1) as nat);
    &&& is_canonical_scalar(u)
    &&& s[idx] == scalar_of(le_value(u) + le_value(scalar_of(le_value(c_s) * le_value(secret_scalar(seed)))))
    &&& c0 == ring_chain(m, pks, s, c_s, idx, ((n - idx) % n) as nat)
    &&& (pks[idx] == ed25519_public(seed) ==> schnorr_commitment(s[idx], pks[idx], c_s)
        == basepoint_mul(u))
}

/// A signature of `m` over the ring `pks` by the member at `idx`, whatever nonces were
/// drawn: one reduced scalar response per member, as `signed_with` describes for some
/// nonce scalar `u`.
pub open spec fn signed_ring(
    m: Seq<u8>,
    pks: Seq<Seq<u8>>,
    idx: int,
    seed: Seq<u8>,
    first_pk: Seq<u8>,
    c0: Seq<u8>,
    s: Seq<Seq<u8>>,
) -> bool {
    &&& s.len() == pks.len()
    &&& forall|j: int| 0 <= j < s.len() ==> is_canonical_scalar(#[trigger] s[j])
    &&& exists|u: Seq<u8>| #[trigger] signed_with(m, pks, idx, seed, first_pk, c0, s, u)
}

/// The two passes of AOS signing over decoded keys: first around the ring from the
/// signer with random responses, then again from the signer to record every challenge.
pub(crate) fn sign_core(message: &[u8], pks: &Vec<[u8; 32]>, signer_index: usize, seed: &[u8], first_pk: &[u8; 32]) -> (sig: RingSignature)
    requires
        signer_index < pks@.len(),
        forall|i: int| 0 <= i < pks@.len() ==> point_decompresses(#[trigger] pks@[i]@),
    ensures
        sig.ring_size == pks@.len(),
        signed_ring(message@, arrays_view(pks@), signer_index as int, seed@, first_pk@, sig.c0@, arrays_view(sig.s@)),
{
    let n = pks.len();
    let idx = signer_index;
    let ghost m = message@;
    let ghost keys = arrays_view(pks@);

    let u = random_scalar();
    let r_s = basepoint_times(&u);
    let mut c_next = challenge(message, &r_s, first_pk.as_slice());
    let ghost start = c_next@;

    let mut s_responses = zero_arrays(n);
    let mut k: usize = 1;
    while k < n
        invariant
            n == pks@.len(),
            idx < n,
            1 <= k <= n,
            m == message@,
            keys == arrays_view(pks@),
            forall|i: int| 0 <= i < n ==> point_decompresses(#[trigger] pks@[i]@),
            s_responses@.len() == n,
            c_next@ == ring_chain(m, keys, arrays_view(s_responses@), start, idx + 1, (k - 1) as nat),
            forall|t: int| 1 <= t < k ==> is_canonical_scalar(
                #[trigger] s_responses@[ring_pos(idx as int, t, n as int)]@,
            ),
            r_s@ == basepoint_mul(u@),
            is_nonce_commitment(u@, r_s@),
        decreases n - k,
    {
        let i = if k < n - idx {
            idx + k
        } else {
            k - (n - idx)
        };
        let z_i = random_scalar();
        let r_i = member_commitment(&z_i, &pks[i], &c_next);
        let ghost s_old = arrays_view(s_responses@);
        let ghost c_old = c_next@;
        s_responses.set(i, z_i);
        c_next = challenge(message, &r_i, pks[i].as_slice());
        proof {
            let s_new = arrays_view(s_responses@);
            let nn = n as int;
            assert(s_new =~= s_old.update(i as int, z_i@));
            lemma_ring_pos(idx as int, k as int, nn);
            assert forall|t: int| 0 <= t < (k - 1) as nat implies s_old[#[trigger] wrap(idx + 1, t, nn)] == s_new[wrap(idx + 1, t, nn)] by {
                lemma_ring_pos(idx as int, t + 1, nn);
            }
            lemma_chain_frame(m, keys, s_old, s_new, start, idx + 1, (k - 1) as nat);
            assert(((idx + 1) + k - 1) % nn == i);
            assert(c_next@ == ring_step(m, keys, s_new, i as int, c_old));
            assert forall|t: int| 1 <= t < k + 1 implies is_canonical_scalar(
                #[trigger] s_responses@[ring_pos(idx as int, t, nn)]@,
            ) by {
                if t < k {
                    assert(ring_pos(idx as int, t, nn) != i);
                }
            }
        }
        k = k + 1;
    }
    let c_s = c_next;
    let a_s = secret_scalar_from_seed(seed);
    let ca = scalar_mul(&c_s, &a_s);
    let z_s = scalar_add(&u, &ca);
    let ghost s1 = arrays_view(s_responses@);
    s_responses.set(idx, z_s);
    let ghost sf = arrays_view(s_responses@);
    proof {
        let nn = n as int;
        assert(sf =~= s1.update(idx as int, z_s@));
        assert forall|t: int| 0 <= t < (n - 1) as nat implies s1[#[trigger] wrap(idx + 1, t, nn)] == sf[wrap(idx + 1, t, nn)] by {
            lemma_ring_pos(idx as int, t + 1, nn);
        }
        lemma_chain_frame(m, keys, s1, sf, start, idx + 1, (n - 1) as nat);
        lemma_scalar_of_value(le_value(u@) + le_value(ca@));
        lemma_response_value(le_value(u@), le_value(c_s@), le_value(clamp(sha512(seed@).take(32))));
        if keys[idx as int] == ed25519_public(seed@) {
            let a = clamp(sha512(seed@).take(32));
            assert(schnorr_commitment(z_s@, basepoint_mul(a), c_s@) == r_s@);
        }
        assert forall|j: int| 0 <= j < nn implies is_canonical_scalar(#[trigger] sf[j]) by {
            if j != idx {
                let t = if j > idx { j - idx } else { j + nn - idx };
                assert(ring_pos(idx as int, t, nn) == j);
                assert(s1[j] == s_responses@[j]@);
            }
        }
    }

    let mut challenges = zero_arrays(n);
    challenges.set(idx, c_s);
    proof {
        lemma_ring_pos(idx as int, 0, n as int);
    }
    let mut k: usize = 1;
    while k < n
        invariant
            n == pks@.len(),
            idx < n,
            1 <= k <= n,
            m == message@,
            keys == arrays_view(pks@),
            forall|i: int| 0 <= i < n ==> point_decompresses(#[trigger] pks@[i]@),
            s_responses@.len() == n,
            sf == arrays_view(s_responses@),
            sf[idx as int] == z_s@,
            challenges@.len() == n,
            forall|t: int| 0 <= t < k ==> challenges@[#[trigger] ring_pos(idx as int, t, n as int)]@
                == ring_chain(m, keys, sf, c_s@, idx as int, t as nat),
        decreases n - k,
    {
        let prev = if k - 1 < n - idx {
            idx + k - 1
        } else {
            k - 1 - (n - idx)
        };
        let cur = if k < n - idx {
            idx + k
        } else {
            k - (n - idx)
        };
        proof {
            lemma_ring_pos(idx as int, k - 1, n as int);
            lemma_ring_pos(idx as int, k as int, n as int);
            assert(challenges@[ring_pos(idx as int, k - 1, n as int)]@ == ring_chain(m, keys, sf, c_s@, idx as int, (k - 1) as nat));
        }
        let r_prev = member_commitment(&s_responses[prev], &pks[prev], &challenges[prev]);
        let c_new = challenge(message, &r_prev, pks[prev].as_slice());
        let ghost ch_old = challenges@;
        challenges.set(cur, c_new);
        proof {
            assert(challenges@ == ch_old.update(cur as int, c_new));
            assert((idx + k - 1) % (n as int) == prev);
            assert(c_new@ == ring_step(m, keys, sf, prev as int, ring_chain(m, keys, sf, c_s@, idx as int, (k - 1) as nat)));
            assert(c_new@ == ring_chain(m, keys, sf, c_s@, idx as int, k as nat));
            assert forall|t: int| 0 <= t < k + 1 implies challenges@[#[trigger] ring_pos(idx as int, t, n as int)]@
                == ring_chain(m, keys, sf, c_s@, idx as int, t as nat) by {
                if t < k {
                    assert(ring_pos(idx as int, t, n as int) != cur);
                }
            }
        }
        k = k + 1;
    }
    let c0 = challenges[0];
    proof {
        let nn = n as int;
        let t0 = (nn - idx) % nn;
        if idx == 0 {
            vstd::arithmetic::div_mod::lemma_mod_add_multiples_vanish(0, nn);
            vstd::arithmetic::div_mod::lemma_small_mod(0, nn as nat);
            assert(t0 == 0);
        } else {
            vstd::arithmetic::div_mod::lemma_small_mod((nn - idx) as nat, nn as nat);
        }
        assert(ring_pos(idx as int, t0, nn) == 0);
        assert(c0@ == ring_chain(m, keys, sf, c_s@, idx as int, t0 as nat));
        assert(signed_with(m, keys, idx as int, seed@, first_pk@, c0@, sf, u@));
        assert(forall|j: int| 0 <= j < sf.len() ==> is_canonical_scalar(#[trigger] sf[j]));
    }
    RingSignature { c0, s: s_responses, ring_size: n }
}

/// A fresh Ed25519 key pair for a ring member, as (public key, secret key seed).
pub fn keygen() -> (res: (Vec<u8>, Vec<u8>))
    ensures
        res.1@.len() == 32,
        res.0@ == ed25519_public(res.1@),
        res.0@.len() == 32,
        point_decompresses(res.0@),
{
    let seed = random_secret_key();
    let public_key = ed25519_public_key(&seed);
    (bytes_to_vec(&public_key), bytes_to_vec(&seed))
}

/// Signs `message` for `ring` as the member at `signer_index`, whose secret key seed is
/// `secret_key_seed`.
pub fn sign(message: &[u8], ring: &[RingMember], signer_index: usize, secret_key_seed: &[u8]) -> (res: Result<RingSignature, RingError>)
    ensures
        signer_index >= ring@.len() ==> res == Err::<RingSignature, _>(RingError::InvalidSignerIndex),
        signer_index < ring@.len() && secret_key_seed@.len() != 32 ==> res == Err::<RingSignature, _>(
            RingError::InvalidSeedLength,
        ),
        signer_index < ring@.len() && secret_key_seed@.len() == 32 ==> match check_keys(member_keys(ring@)) {
            Err(e) => res == Err::<RingSignature, _>(e),
            Ok(_) => res matches Ok(sig) && sig.ring_size == ring@.len() && signed_ring(
                message@,
                member_keys(ring@),
                signer_index as int,
                secret_key_seed@,
                member_keys(ring@)[signer_index as int],
                sig.c0@,
                arrays_view(sig.s@),
            ),
        },
{
    let n = ring.len();
    if signer_index >= n {
        return Err(RingError::InvalidSignerIndex);
    }
    if secret_key_seed.len() != 32 {
        return Err(RingError::InvalidSeedLength);
    }
    let pubkeys = match decode_keys(ring) {
        Ok(keys) => keys,
        Err(e) => return Err(e),
    };
    proof {
        assert forall|i: int| 0 <= i < pubkeys@.len() implies point_decompresses(#[trigger] pubkeys@[i]@) by {
            lemma_check_keys_ok(member_keys(ring@), i);
            assert(arrays_view(pubkeys@)[i] == pubkeys@[i]@);
        }
        assert(arrays_view(pubkeys@)[signer_index as int] == pubkeys@[signer_index as int]@);
    }
    let first_pk = pubkeys[signer_index];
    Ok(sign_core(message, &pubkeys, signer_index, secret_key_seed, &first_pk))
}

/// The ring closes on a signature made with the secret key of the signer's public key:
/// the chain that `verify` follows from `c0` comes back to `c0`, so `verify` accepts.
pub proof fn lemma_signature_closes(
    m: Seq<u8>,
    pks: Seq<Seq<u8>>,
    idx: int,
    seed: Seq<u8>,
    first_pk: Seq<u8>,
    c0: Seq<u8>,
    s: Seq<Seq<u8>>,
)
    requires
        signed_ring(m, pks, idx, seed, first_pk, c0, s),
        0 <= idx < pks.len(),
        pks[idx] == ed25519_public(seed),
        first_pk == pks[idx],
    ensures
        ring_chain(m, pks, s, scalar_of(le_value(c0)), 0, pks.len()) == c0,
{
    let u = choose|u: Seq<u8>| #[trigger] signed_with(m, pks, idx, seed, first_pk, c0, s, u);
    let n = pks.len() as int;
    let start = challenge_of(m, basepoint_mul(u), first_pk);
    let c_s = ring_chain(m, pks, s, start, idx + 1, (n - 1) as nat);
    let t0 = (n - idx) % n;
    lemma_cycle_at_signer(m, pks, s, start, c_s, idx);
    lemma_cycle_through_zero(m, pks, s, c_s, idx, c0);
    lemma_scalar_of_reduced(le_value(sha512(m + basepoint_mul(u) + first_pk)));
    lemma_chain_value_canonical(m, pks, s, start, idx + 1, (n - 1) as nat);
    lemma_chain_value_canonical(m, pks, s, c_s, idx, t0 as nat);
}

/// Reducing an encoded scalar gives it back.
proof fn lemma_scalar_of_reduced(w: nat)
    ensures
        scalar_of(le_value(scalar_of(w))) == scalar_of(w),
{
    lemma_scalar_of_value(w);
    vstd::arithmetic::div_mod::lemma_mod_twice(w as int, group_order() as int);
}

/// The signer's link leads back to the start of the first pass, so the chain from the
/// signer's challenge closes after one full turn.
proof fn lemma_cycle_at_signer(m: Seq<u8>, pks: Seq<Seq<u8>>, s: Seq<Seq<u8>>, start: Seq<u8>, c_s: Seq<u8>, idx: int)
    requires
        0 <= idx < pks.len(),
        pks.len() >= 1,
        c_s == ring_chain(m, pks, s, start, idx + 1, (pks.len() - 1) as nat),
        ring_step(m, pks, s, idx, c_s) == start,
    ensures
        ring_chain(m, pks, s, c_s, idx, pks.len()) == c_s,
{
    let n = pks.len() as int;
    vstd::arithmetic::div_mod::lemma_small_mod(idx as nat, n as nat);
    reveal_with_fuel(ring_chain, 2);
    assert(ring_chain(m, pks, s, c_s, idx, 1) == start);
    lemma_chain_compose(m, pks, s, c_s, idx, 1, (n - 1) as nat);
}

/// Where the chain from `c_s` at `idx` closes after one turn, the challenge it reaches at
/// position 0 also comes back to itself after one turn started at position 0.
proof fn lemma_cycle_through_zero(m: Seq<u8>, pks: Seq<Seq<u8>>, s: Seq<Seq<u8>>, c_s: Seq<u8>, idx: int, c0: Seq<u8>)
    requires
        0 <= idx < pks.len(),
        ring_chain(m, pks, s, c_s, idx, pks.len()) == c_s,
        c0 == ring_chain(m, pks, s, c_s, idx, ((pks.len() - idx) % (pks.len() as int)) as nat),
    ensures
        ring_chain(m, pks, s, c0, 0, pks.len()) == c0,
{
    let n = pks.len() as int;
    let t0 = (n - idx) % n;
    vstd::arithmetic::div_mod::lemma_mod_add_multiples_vanish(0, n);
    vstd::arithmetic::div_mod::lemma_small_mod(0, n as nat);
    if idx == 0 {
        assert(t0 == 0);
        assert(idx + t0 == 0);
    } else {
        vstd::arithmetic::div_mod::lemma_small_mod((n - idx) as nat, n as nat);
        assert(idx + t0 == n);
    }
    assert((idx + t0) % n == 0int % n);
    lemma_chain_shift(m, pks, s, c0, 0, idx + t0, n as nat);
    lemma_chain_compose(m, pks, s, c_s, idx, t0 as nat, n as nat);
    lemma_chain_compose(m, pks, s, c_s, idx, n as nat, t0 as nat);
    vstd::arithmetic::div_mod::lemma_mod_add_multiples_vanish(idx, n);
    lemma_chain_shift(m, pks, s, c_s, idx + n, idx, t0 as nat);
    assert((t0 + n) as nat == (n + t0) as nat);
}

/// A signature made with the secret key of the signer's public key, over a ring whose
/// keys all decode, is accepted by `verify`.
pub proof fn lemma_sign_then_verify(m: Seq<u8>, pks: Seq<Seq<u8>>, idx: int, seed: Seq<u8>, ring_size: usize, c0: Seq<u8>, s: Seq<Seq<u8>>)
    requires
        signed_ring(m, pks, idx, seed, pks[idx], c0, s),
        check_keys(pks) is Ok,
        0 <= idx < pks.len(),
        ring_size == pks.len(),
        pks[idx] == ed25519_public(seed),
    ensures
        verify_result(m, pks, ring_size, c0, s) == Ok::<bool, RingError>(true),
{
    lemma_signature_closes(m, pks, idx, seed, pks[idx], c0, s);
}

/// Every challenge on a chain after `start` is a reduced scalar, unchanged by reduction;
/// and so is `start` when it is itself a chain value.
proof fn lemma_chain_value_canonical(m: Seq<u8>, pks: Seq<Seq<u8>>, s: Seq<Seq<u8>>, c: Seq<u8>, f: int, k: nat)
    requires
        scalar_of(le_value(c)) == c,
    ensures
        scalar_of(le_value(ring_chain(m, pks, s, c, f, k))) == ring_chain(m, pks, s, c, f, k),
{
    if k > 0 {
        let j = (f + k - 1) % (pks.len() as int);
        let prev = ring_chain(m, pks, s, c, f, (k - 1) as nat);
        lemma_scalar_of_reduced(le_value(sha512(m + schnorr_commitment(s[j], pks[j], prev) + pks[j])));
    }
}

} // verus!
