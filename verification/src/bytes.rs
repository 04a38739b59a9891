use vstd::prelude::*;

verus! {

broadcast use vstd::array::group_array_axioms;

/// A list of 32-byte arrays, each taken as its byte sequence.
pub open spec fn arrays_view(a: Seq<[u8; 32]>) -> Seq<Seq<u8>> {
    Seq::new(a.len(), |i: int| a[i]@)
}

/// The concatenation of `parts`, in order.
pub open spec fn flatten(parts: Seq<Seq<u8>>) -> Seq<u8>
    decreases parts.len(),
{
    if parts.len() == 0 {
        seq![]
    } else {
        flatten(parts.drop_last()) + parts.last()
    }
}

/// The `n` consecutive 32-byte blocks at the start of `b`.
pub open spec fn blocks32(b: Seq<u8>, n: nat) -> Seq<Seq<u8>> {
    Seq::new(n, |i: int| b.subrange(32 * i, 32 * i + 32))
}

/// Concatenating 32-byte blocks and cutting the result into 32-byte blocks gives the
/// blocks back.
pub proof fn lemma_flatten_blocks(parts: Seq<Seq<u8>>)
    requires
        forall|i: int| 0 <= i < parts.len() ==> #[trigger] parts[i].len() == 32,
    ensures
        flatten(parts).len() == 32 * parts.len(),
        blocks32(flatten(parts), parts.len()) == parts,
    decreases parts.len(),
{
    if parts.len() > 0 {
        let init = parts.drop_last();
        lemma_flatten_blocks(init);
        let f = flatten(parts);
        assert(f == flatten(init) + parts.last());
        assert forall|i: int| 0 <= i < parts.len() implies #[trigger] f.subrange(32 * i, 32 * i + 32)
            == parts[i] by {
            if i < parts.len() - 1 {
                assert(f.subrange(32 * i, 32 * i + 32) =~= flatten(init).subrange(32 * i, 32 * i + 32));
                assert(blocks32(flatten(init), init.len())[i] == init[i]);
            } else {
                assert(f.subrange(32 * i, 32 * i + 32) =~= parts.last());
            }
        }
        assert(blocks32(f, parts.len()) =~= parts);
    }
}

/// Cutting `b` into 32-byte blocks and concatenating them gives `b` back.
pub proof fn lemma_blocks_flatten(b: Seq<u8>, n: nat)
    requires
        b.len() == 32 * n,
    ensures
        flatten(blocks32(b, n)) == b,
    decreases n,
{
    if n == 0 {
        assert(b =~= Seq::<u8>::empty());
    } else {
        let m = (n - 1) as nat;
        let front = b.take((32 * m) as int);
        lemma_blocks_flatten(front, m);
        assert forall|i: int| 0 <= i < m implies #[trigger] blocks32(b, n)[i] == blocks32(front, m)[i] by {
            assert(front.subrange(32 * i, 32 * i + 32) =~= b.subrange(32 * i, 32 * i + 32));
        }
        assert(blocks32(b, n).drop_last() =~= blocks32(front, m));
        assert(b =~= front + b.subrange((32 * m) as int, (32 * m + 32) as int));
    }
}

/// Appends `bytes` to the end of `out`.
pub fn append_bytes(out: &mut Vec<u8>, bytes: &[u8])
    ensures
        final(out)@ == old(out)@ + bytes@,
{
    let ghost start = out@;
    let mut i: usize = 0;
    while i < bytes.len()
        invariant
            i <= bytes@.len(),
            out@ == start + bytes@.take(i as int),
        decreases bytes@.len() - i,
    {
        out.push(bytes[i]);
        i = i + 1;
        assert(bytes@.take(i as int) =~= bytes@.take(i - 1) + seq![bytes@[i - 1]]);
    }
    assert(bytes@.take(i as int) =~= bytes@);
}

/// Appends every array of `parts`, in order, to the end of `out`.
pub fn append_arrays(out: &mut Vec<u8>, parts: &[[u8; 32]])
    ensures
        final(out)@ == old(out)@ + flatten(arrays_view(parts@)),
{
    let ghost start = out@;
    let mut i: usize = 0;
    assert(arrays_view(parts@).take(0) =~= Seq::<Seq<u8>>::empty());
    while i < parts.len()
        invariant
            i <= parts@.len(),
            out@ == start + flatten(arrays_view(parts@).take(i as int)),
        decreases parts@.len() - i,
    {
        append_bytes(out, &parts[i]);
        i = i + 1;
        proof {
            let t = arrays_view(parts@).take(i as int);
            assert(t.drop_last() =~= arrays_view(parts@).take(i - 1));
            assert(t.last() == parts@[i - 1]@);
        }
    }
    assert(arrays_view(parts@).take(i as int) =~= arrays_view(parts@));
}

/// The 32 bytes of `b` as an array.
pub fn to_array32(b: &[u8]) -> (res: [u8; 32])
    requires
        b@.len() == 32,
    ensures
        res@ == b@,
{
    let mut res = [0u8; 32];
    let mut i: usize = 0;
    while i < 32
        invariant
            i <= 32,
            b@.len() == 32,
            forall|j: int| 0 <= j < i ==> res@[j] == b@[j],
        decreases 32 - i,
    {
        res[i] = b[i];
        i = i + 1;
    }
    assert(res@ =~= b@);
    res
}

/// `n` arrays of zero bytes.
pub fn zero_arrays(n: usize) -> (res: Vec<[u8; 32]>)
    ensures
        res@.len() == n,
        forall|i: int| 0 <= i < n ==> #[trigger] res@[i]@ == Seq::new(32, |j: int| 0u8),
{
    let mut res: Vec<[u8; 32]> = Vec::new();
    let mut i: usize = 0;
    while i < n
        invariant
            i <= n,
            res@.len() == i,
            forall|k: int| 0 <= k < i ==> #[trigger] res@[k]@ == Seq::new(32, |j: int| 0u8),
        decreases n - i,
    {
        let zero = [0u8; 32];
        assert(zero@ =~= Seq::new(32, |j: int| 0u8));
        res.push(zero);
        i = i + 1;
    }
    res
}

/// The bytes of `b` in a new vector.
pub fn bytes_to_vec(b: &[u8]) -> (res: Vec<u8>)
    ensures
        res@ == b@,
{
    let mut res: Vec<u8> = Vec::new();
    append_bytes(&mut res, b);
    assert(res@ =~= b@);
    res
}

} // verus!
