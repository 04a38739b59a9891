use vstd::prelude::*;
use crate::bytes::{append_bytes, arrays_view};
use crate::crypto::{sha256, sha256_digest};
use vstd::arithmetic::power2::{lemma_pow2_pos, lemma_pow2_unfold, pow2};

verus! {

broadcast use vstd::array::group_array_axioms;

/// A node of the tree: a 32-byte SHA-256 digest.
pub type Hash = [u8; 32];

/// Lexicographic order on byte strings: `a` comes strictly before `b`.
pub open spec fn lex_lt(a: Seq<u8>, b: Seq<u8>) -> bool
    decreases a.len(),
{
    if a.len() == 0 {
        b.len() > 0
    } else if b.len() == 0 {
        false
    } else if a[0] < b[0] {
        true
    } else if a[0] > b[0] {
        false
    } else {
        lex_lt(a.drop_first(), b.drop_first())
    }
}

/// Two byte strings are equal or one comes strictly before the other, not both ways.
pub proof fn lemma_lex_lt_total(a: Seq<u8>, b: Seq<u8>)
    ensures
        lex_lt(a, b) || lex_lt(b, a) || a == b,
        !(lex_lt(a, b) && lex_lt(b, a)),
    decreases a.len(),
{
    if a.len() > 0 && b.len() > 0 && a[0] == b[0] {
        lemma_lex_lt_total(a.drop_first(), b.drop_first());
        if a.drop_first() == b.drop_first() {
            assert(a =~= seq![a[0]] + a.drop_first());
            assert(b =~= seq![b[0]] + b.drop_first());
        }
    } else if a.len() == 0 && b.len() == 0 {
        assert(a =~= b);
    }
}

/// The hash of an inner node whose children are `left` and `right`: SHA-256 of the two
/// hashes in sorted order, so that the order of the children does not matter.
pub open spec fn node_hash(left: Seq<u8>, right: Seq<u8>) -> Seq<u8> {
    if lex_lt(right, left) {
        sha256(right + left)
    } else {
        sha256(left + right)
    }
}

/// The hash of a pair of children does not depend on their order.
pub proof fn lemma_node_hash_symmetric(a: Seq<u8>, b: Seq<u8>)
    ensures
        node_hash(a, b) == node_hash(b, a),
{
    lemma_lex_lt_total(a, b);
}

/// The level above `level`: nodes are paired from the left, and an odd last node is
/// paired with itself.
pub open spec fn parent_level(level: Seq<Seq<u8>>) -> Seq<Seq<u8>> {
    Seq::new(
        ((level.len() + 1) / 2) as nat,
        |j: int|
            node_hash(
                level[2 * j],
                if 2 * j + 1 < level.len() {
                    level[2 * j + 1]
                } else {
                    level[2 * j]
                },
            ),
    )
}

/// All levels of the tree built over `leaves`, from the leaves up to the level of
/// at most one node.
pub open spec fn tree_levels(leaves: Seq<Seq<u8>>) -> Seq<Seq<Seq<u8>>>
    decreases leaves.len(),
{
    if leaves.len() <= 1 {
        seq![leaves]
    } else {
        seq![leaves] + tree_levels(parent_level(leaves))
    }
}

/// The root of the tree built over non-empty `leaves`.
pub open spec fn merkle_root(leaves: Seq<Seq<u8>>) -> Seq<u8> {
    tree_levels(leaves).last()[0]
}

/// The node that a proof records next to the node at `idx` of `level`: its pair
/// partner, or the last node of the level where the partner is missing.
pub open spec fn sibling(level: Seq<Seq<u8>>, idx: int) -> Seq<u8> {
    let s = if idx % 2 == 0 {
        idx + 1
    } else {
        idx - 1
    };
    if s < level.len() {
        level[s]
    } else {
        level[level.len() - 1]
    }
}

/// The proof for the node at `idx` of `levels[0]`: one sibling per level below the top.
pub open spec fn auth_path(levels: Seq<Seq<Seq<u8>>>, idx: int) -> Seq<Seq<u8>>
    decreases levels.len(),
{
    if levels.len() <= 1 {
        seq![]
    } else {
        seq![sibling(levels[0], idx)] + auth_path(levels.drop_first(), idx / 2)
    }
}

/// A proof holds one node per level below the top.
pub proof fn lemma_auth_path_len(levels: Seq<Seq<Seq<u8>>>, idx: int)
    requires
        levels.len() >= 1,
    ensures
        auth_path(levels, idx).len() == levels.len() - 1,
    decreases levels.len(),
{
    if levels.len() > 1 {
        lemma_auth_path_len(levels.drop_first(), idx / 2);
    }
}

/// The value that checking `proof` from `leaf` arrives at: each step hashes the
/// current value with the next proof entry, as a pair.
pub open spec fn path_root(leaf: Seq<u8>, proof: Seq<Seq<u8>>) -> Seq<u8>
    decreases proof.len(),
{
    if proof.len() == 0 {
        leaf
    } else {
        path_root(node_hash(leaf, proof[0]), proof.drop_first())
    }
}

/// Facts about the levels of a tree over non-empty leaves.
pub proof fn lemma_tree_levels(leaves: Seq<Seq<u8>>)
    requires
        leaves.len() >= 1,
    ensures
        tree_levels(leaves).len() >= 1,
        tree_levels(leaves)[0] == leaves,
        tree_levels(leaves).last().len() == 1,
        forall|k: int|
            0 <= k < tree_levels(leaves).len() ==> #[trigger] tree_levels(leaves)[k].len() >= 1,
        forall|k: int|
            0 <= k < tree_levels(leaves).len() - 1 ==> #[trigger] tree_levels(leaves)[k].len() > 1
                && tree_levels(leaves)[k + 1] == parent_level(tree_levels(leaves)[k]),
    decreases leaves.len(),
{
    if leaves.len() > 1 {
        let p = parent_level(leaves);
        lemma_tree_levels(p);
        let t = tree_levels(leaves);
        let tp = tree_levels(p);
        assert(t == seq![leaves] + tp);
        assert forall|k: int| 0 <= k < t.len() implies #[trigger] t[k].len() >= 1 by {
            if k > 0 {
                assert(t[k] == tp[k - 1]);
            }
        }
        assert forall|k: int| 0 <= k < t.len() - 1 implies #[trigger] t[k].len() > 1 && t[k + 1]
            == parent_level(t[k]) by {
            if k > 0 {
                assert(t[k] == tp[k - 1]);
                assert(t[k + 1] == tp[k]);
            }
        }
    }
}

/// The proof of every leaf leads from that leaf to the root: checking it with
/// `verify_proof` succeeds.
pub proof fn lemma_leaf_proof_reaches_root(leaves: Seq<Seq<u8>>, idx: int)
    requires
        0 <= idx < leaves.len(),
    ensures
        path_root(leaves[idx], auth_path(tree_levels(leaves), idx)) == merkle_root(leaves),
    decreases leaves.len(),
{
    let t = tree_levels(leaves);
    if leaves.len() > 1 {
        let n = leaves.len() as int;
        let p = parent_level(leaves);
        lemma_leaf_proof_reaches_root(p, idx / 2);
        assert(t == seq![leaves] + tree_levels(p));
        assert(t.drop_first() =~= tree_levels(p));
        let sib = sibling(leaves, idx);
        let path = auth_path(t, idx);
        assert(path == seq![sib] + auth_path(tree_levels(p), idx / 2));
        assert(path.drop_first() =~= auth_path(tree_levels(p), idx / 2));
        let j = idx / 2;
        if idx % 2 == 0 {
            assert(2 * j == idx);
            assert(node_hash(leaves[idx], sib) == p[j]);
        } else {
            assert(2 * j + 1 == idx);
            lemma_node_hash_symmetric(leaves[idx], leaves[idx - 1]);
            assert(node_hash(leaves[idx], sib) == p[j]);
        }
        assert(t.last() == tree_levels(p).last());
    }
}

/// The number of halvings, rounding up, that bring `n` down to one.
pub open spec fn ceil_log2(n: nat) -> nat
    decreases n,
{
    if n <= 1 {
        0
    } else {
        1 + ceil_log2(((n + 1) / 2) as nat)
    }
}

/// `ceil_log2(n)` is the least `d` with `2^d >= n`.
pub proof fn lemma_ceil_log2_least(n: nat)
    requires
        n >= 1,
    ensures
        pow2(ceil_log2(n)) >= n,
        forall|d: nat| d < ceil_log2(n) ==> #[trigger] pow2(d) < n,
    decreases n,
{
    reveal(vstd::arithmetic::power::pow);
    if n > 1 {
        let m = ((n + 1) / 2) as nat;
        lemma_ceil_log2_least(m);
        lemma_pow2_unfold(ceil_log2(n));
        assert forall|d: nat| d < ceil_log2(n) implies #[trigger] pow2(d) < n by {
            if d == 0 {
                assert(pow2(0) == 1);
            } else {
                lemma_pow2_unfold(d);
                assert(pow2((d - 1) as nat) < m);
            }
        }
    } else {
        assert(pow2(0) == 1);
    }
}

/// A tree over `n` leaves has `ceil_log2(n)` levels above the leaves, so every proof
/// has that many entries.
pub proof fn lemma_tree_depth(leaves: Seq<Seq<u8>>)
    requires
        leaves.len() >= 1,
    ensures
        tree_levels(leaves).len() == ceil_log2(leaves.len()) + 1,
    decreases leaves.len(),
{
    if leaves.len() > 1 {
        lemma_tree_depth(parent_level(leaves));
    }
}

/// Entry `k` of the proof for position `index` is the sibling, on level `k`, of position
/// `index / 2^k` (that is, `index >> k`): the node at that position with its lowest bit
/// flipped, or the level's last node where that position is past the end.
pub proof fn lemma_auth_path_entry(levels: Seq<Seq<Seq<u8>>>, index: int, k: int)
    requires
        0 <= k < levels.len() - 1,
        index >= 0,
    ensures
        auth_path(levels, index)[k] == sibling(levels[k], index / (pow2(k as nat) as int)),
    decreases k,
{
    reveal(vstd::arithmetic::power::pow);
    lemma_auth_path_len(levels.drop_first(), index / 2);
    let rest = auth_path(levels.drop_first(), index / 2);
    assert(auth_path(levels, index) == seq![sibling(levels[0], index)] + rest);
    if k == 0 {
        assert(pow2(0) == 1);
    } else {
        lemma_auth_path_entry(levels.drop_first(), index / 2, k - 1);
        assert(levels.drop_first()[k - 1] == levels[k]);
        lemma_pow2_unfold(k as nat);
        lemma_pow2_pos((k - 1) as nat);
        vstd::arithmetic::div_mod::lemma_div_denominator(index, 2, pow2((k - 1) as nat) as int);
    }
}

/// Flipping the lowest bit of a position gives the partner that `sibling` takes.
pub proof fn lemma_partner_is_xor(i: u64)
    ensures
        i % 2 == 0 && i < u64::MAX ==> i ^ 1u64 == i + 1,
        i % 2 == 1 ==> i ^ 1u64 == i - 1,
{
    assert(i % 2 == 0 && i < u64::MAX ==> i ^ 1u64 == i + 1) by (bit_vector);
    assert(i % 2 == 1 ==> i ^ 1u64 == i - 1) by (bit_vector);
}

/// How a level is paired into its parent: nodes `2j` and `2j + 1` hash together, and the
/// odd last node of a level of any length is hashed with itself.
pub proof fn lemma_parent_pairs(level: Seq<Seq<u8>>)
    ensures
        parent_level(level).len() == (level.len() + 1) / 2,
        forall|j: int|
            0 <= j && 2 * j + 1 < level.len() ==> #[trigger] parent_level(level)[j] == node_hash(level[2 * j], level[2 * j + 1]),
        level.len() % 2 == 1 ==> parent_level(level).last() == node_hash(level.last(), level.last()),
{
}

/// An odd level has the same parent as the level with its last node repeated once, and
/// so a tree over an odd number of leaves has the root of the tree over those leaves with
/// the last one repeated.
pub proof fn lemma_odd_level_padding(level: Seq<Seq<u8>>)
    requires
        level.len() % 2 == 1,
    ensures
        parent_level(level) == parent_level(level.push(level.last())),
        level.len() > 1 ==> merkle_root(level) == merkle_root(level.push(level.last())),
{
    let padded = level.push(level.last());
    assert(parent_level(level) =~= parent_level(padded)) by {
        assert forall|j: int| 0 <= j < parent_level(level).len() implies parent_level(level)[j] == parent_level(padded)[j] by {
            assert(padded[2 * j] == level[2 * j]);
            if 2 * j + 1 < level.len() {
                assert(padded[2 * j + 1] == level[2 * j + 1]);
            } else {
                assert(2 * j + 1 == level.len());
                assert(padded[2 * j + 1] == level[2 * j]);
            }
        }
    }
    if level.len() > 1 {
        let p = parent_level(level);
        lemma_tree_levels(p);
        assert(tree_levels(level) == seq![level] + tree_levels(p));
        assert(tree_levels(padded) == seq![padded] + tree_levels(p));
        assert(tree_levels(level).last() == tree_levels(p).last());
        assert(tree_levels(padded).last() == tree_levels(p).last());
    }
}

/// What a proof records next to a node: the node it is paired with in the parent (so
/// that hashing the two gives the parent node); for the odd last node of a level, the
/// node itself.
pub proof fn lemma_sibling_pairs(level: Seq<Seq<u8>>, idx: int)
    requires
        0 <= idx < level.len(),
    ensures
        node_hash(level[idx], sibling(level, idx)) == parent_level(level)[idx / 2],
        idx % 2 == 1 ==> sibling(level, idx) == level[idx - 1],
        idx % 2 == 0 && idx + 1 < level.len() ==> sibling(level, idx) == level[idx + 1],
        idx % 2 == 0 && idx + 1 == level.len() ==> sibling(level, idx) == level[idx],
{
    if idx % 2 == 1 {
        lemma_node_hash_symmetric(level[idx], level[idx - 1]);
        assert(2 * (idx / 2) == idx - 1);
    } else {
        assert(2 * (idx / 2) == idx);
    }
}

/// A tree of SHA-256 hashes over a non-empty list of leaves, holding every level.
pub struct MerkleTree {
    levels: Vec<Vec<Hash>>,
}

impl MerkleTree {
    /// The levels of the tree, from the leaves (first) to the root level (last).
    pub closed spec fn levels_view(self) -> Seq<Seq<Seq<u8>>> {
        Seq::new(self.levels@.len(), |k: int| arrays_view(self.levels@[k]@))
    }

    /// The leaves the tree was built over.
    pub open spec fn leaves(self) -> Seq<Seq<u8>> {
        self.levels_view()[0]
    }

    #[verifier::type_invariant]
    closed spec fn well_formed(self) -> bool {
        &&& self.levels@.len() >= 1
        &&& self.levels@[0]@.len() >= 1
        &&& self.levels_view() == tree_levels(self.levels_view()[0])
    }

    /// Builds the tree over `leaf_hashes`; `None` when there are no leaves.
    pub fn new(leaf_hashes: &[Hash]) -> (res: Option<MerkleTree>)
        ensures
            res is None <==> leaf_hashes@.len() == 0,
            res matches Some(tree) ==> tree.levels_view() == tree_levels(arrays_view(leaf_hashes@)),
    {
        if leaf_hashes.len() == 0 {
            return None;
        }
        let ghost leaves = arrays_view(leaf_hashes@);
        let mut first: Vec<Hash> = Vec::new();
        let mut i: usize = 0;
        while i < leaf_hashes.len()
            invariant
                i <= leaf_hashes@.len(),
                first@ == leaf_hashes@.take(i as int),
            decreases leaf_hashes@.len() - i,
        {
            first.push(leaf_hashes[i]);
            i = i + 1;
            assert(leaf_hashes@.take(i as int) =~= leaf_hashes@.take(i - 1) + seq![leaf_hashes@[i - 1]]);
        }
        assert(first@ =~= leaf_hashes@);
        let mut levels: Vec<Vec<Hash>> = Vec::new();
        levels.push(first);
        proof {
            let lv = Seq::new(levels@.len(), |k: int| arrays_view(levels@[k]@));
            assert(lv.take(0) + tree_levels(lv.last()) =~= tree_levels(leaves)) by {
                assert(lv.last() =~= leaves);
            }
        }
        while levels[levels.len() - 1].len() > 1
            invariant
                levels@.len() >= 1,
                levels@[0]@.len() >= 1,
                arrays_view(levels@[0]@) == leaves,
                leaves == arrays_view(leaf_hashes@),
                ({
                    let lv = Seq::new(levels@.len(), |k: int| arrays_view(levels@[k]@));
                    lv.take(lv.len() - 1) + tree_levels(lv.last()) == tree_levels(leaves)
                }),
                forall|k: int| 0 <= k < levels@.len() ==> #[trigger] levels@[k]@.len() >= 1,
            decreases levels@[levels@.len() - 1]@.len(),
        {
            let ghost lv_old = Seq::new(levels@.len(), |k: int| arrays_view(levels@[k]@));
            let last = levels.len() - 1;
            let current = &levels[last];
            let n = current.len();
            let mut next: Vec<Hash> = Vec::new();
            let half = n - n / 2;
            let mut j: usize = 0;
            while j < half
                invariant
                    n == current@.len(),
                    n > 1,
                    half == (n + 1) / 2,
                    j <= half,
                    arrays_view(next@) =~= parent_level(arrays_view(current@)).take(j as int),
                decreases half - j,
            {
                let left = current[2 * j];
                let right = if 2 * j + 1 < n {
                    current[2 * j + 1]
                } else {
                    current[2 * j]
                };
                let parent = hash_pair(&left, &right);
                let ghost old_next = next@;
                next.push(parent);
                proof {
                    let cur = arrays_view(current@);
                    assert(left@ == cur[2 * j]);
                    assert(right@ == (if 2 * j + 1 < n { cur[2 * j + 1] } else { cur[2 * j] }));
                    assert(parent@ == parent_level(cur)[j as int]);
                    assert(arrays_view(next@) =~= arrays_view(old_next) + seq![parent@]);
                    assert(parent_level(cur).take(j + 1) =~= parent_level(cur).take(j as int) + seq![parent_level(cur)[j as int]]);
                }
                j = j + 1;
            }
            assert(arrays_view(next@) =~= parent_level(arrays_view(current@)));
            levels.push(next);
            proof {
                let lv = Seq::new(levels@.len(), |k: int| arrays_view(levels@[k]@));
                let cur = lv_old.last();
                assert(tree_levels(cur) == seq![cur] + tree_levels(parent_level(cur)));
                assert(lv.take(lv.len() - 1) =~= lv_old.take(lv_old.len() - 1) + seq![cur]);
                assert(lv.last() == parent_level(cur));
            }
        }
        proof {
            let lv = Seq::new(levels@.len(), |k: int| arrays_view(levels@[k]@));
            assert(lv.last().len() <= 1);
            assert(tree_levels(lv.last()) == seq![lv.last()]);
            assert(lv =~= lv.take(lv.len() - 1) + seq![lv.last()]);
            assert(lv == tree_levels(leaves));
            lemma_tree_levels(leaves);
            assert(lv[0] == leaves);
        }
        let tree = MerkleTree { levels };
        Some(tree)
    }

    /// The root hash.
    pub fn root(&self) -> (res: Hash)
        ensures
            res@ == merkle_root(self.leaves()),
    {
        proof {
            use_type_invariant(self);
            lemma_tree_levels(self.leaves());
        }
        let last = self.levels.len() - 1;
        proof {
            assert(self.levels_view()[last as int] == arrays_view(self.levels@[last as int]@));
        }
        self.levels[last][0]
    }

    /// The proof for the leaf at `index`: one sibling hash per level below the root;
    /// `None` when `index` is not a leaf position.
    pub fn proof_of(&self, index: usize) -> (res: Option<Vec<Hash>>)
        ensures
            res is None <==> index >= self.leaves().len(),
            res matches Some(p) ==> arrays_view(p@) == auth_path(tree_levels(self.leaves()), index as int),
            res matches Some(p) ==> p@.len() == tree_levels(self.leaves()).len() - 1,
            res matches Some(p) ==> p@.len() == ceil_log2(self.leaves().len()),
    {
        proof {
            use_type_invariant(self);
            lemma_tree_levels(self.leaves());
        }
        if index >= self.levels[0].len() {
            return None;
        }
        let ghost lv = self.levels_view();
        let mut path: Vec<Hash> = Vec::new();
        let mut idx = index;
        let mut k: usize = 0;
        let count = self.levels.len() - 1;
        assert(lv.skip(0) =~= lv);
        while k < count
            invariant
                count == self.levels@.len() - 1,
                lv == self.levels_view(),
                lv == tree_levels(lv[0]),
                lv.len() == self.levels@.len(),
                lv[0].len() >= 1,
                k <= count,
                idx < lv[k as int].len(),
                auth_path(lv, index as int) == arrays_view(path@) + auth_path(lv.skip(k as int), idx as int),
            decreases count - k,
        {
            proof {
                lemma_tree_levels(lv[0]);
                assert(lv[k as int].len() > 1);
                assert(lv[k + 1] == parent_level(lv[k as int]));
            }
            let level = &self.levels[k];
            assert(arrays_view(level@) == lv[k as int]);
            let sibling_idx = if idx % 2 == 0 {
                idx + 1
            } else {
                idx - 1
            };
            let sib = if sibling_idx < level.len() {
                level[sibling_idx]
            } else {
                level[level.len() - 1]
            };
            let ghost old_path = path@;
            path.push(sib);
            proof {
                let rest = lv.skip(k as int);
                assert(rest.len() > 1);
                assert(rest[0] == lv[k as int]);
                assert(rest.drop_first() =~= lv.skip(k + 1));
                assert(sib@ == sibling(lv[k as int], idx as int));
                assert(arrays_view(path@) =~= arrays_view(old_path) + seq![sib@]);
            }
            idx = idx / 2;
            k = k + 1;
        }
        proof {
            assert(lv.skip(k as int).len() == 1);
        }
        assert(arrays_view(path@) =~= arrays_view(path@) + auth_path(lv.skip(k as int), idx as int));
        proof {
            lemma_auth_path_len(lv, index as int);
            lemma_tree_depth(lv[0]);
            assert(arrays_view(path@).len() == path@.len());
        }
        Some(path)
    }
}

/// Hashes the pair of child nodes `left` and `right` into their parent, the smaller
/// hash first.
fn hash_pair(left: &Hash, right: &Hash) -> (res: Hash)
    ensures
        res@ == node_hash(left@, right@),
{
    let mut data: Vec<u8> = Vec::new();
    if hash_less(right, left) {
        append_bytes(&mut data, right);
        append_bytes(&mut data, left);
    } else {
        append_bytes(&mut data, left);
        append_bytes(&mut data, right);
    }
    sha256_digest(&data)
}

/// Whether `a` comes strictly before `b` in lexicographic order.
fn hash_less(a: &Hash, b: &Hash) -> (res: bool)
    ensures
        res == lex_lt(a@, b@),
{
    let mut i: usize = 0;
    assert(a@.skip(0) =~= a@);
    assert(b@.skip(0) =~= b@);
    while i < 32
        invariant
            i <= 32,
            a@.len() == 32,
            b@.len() == 32,
            lex_lt(a@, b@) == lex_lt(a@.skip(i as int), b@.skip(i as int)),
        decreases 32 - i,
    {
        let ghost sa = a@.skip(i as int);
        let ghost sb = b@.skip(i as int);
        assert(sa[0] == a@[i as int] && sb[0] == b@[i as int]);
        if a[i] < b[i] {
            return true;
        }
        if a[i] > b[i] {
            return false;
        }
        assert(sa.drop_first() =~= a@.skip(i + 1));
        assert(sb.drop_first() =~= b@.skip(i + 1));
        i = i + 1;
    }
    assert(a@.skip(32).len() == 0);
    false
}

/// Checks a proof: folds `proof` into `leaf`, hashing each pair in sorted order, and
/// compares the outcome with `root`.
pub fn verify_proof(leaf: &Hash, proof: &[Hash], root: &Hash) -> (res: bool)
    ensures
        res == (path_root(leaf@, arrays_view(proof@)) == root@),
{
    let mut current = *leaf;
    let mut i: usize = 0;
    assert(arrays_view(proof@).skip(0) =~= arrays_view(proof@));
    while i < proof.len()
        invariant
            i <= proof@.len(),
            path_root(leaf@, arrays_view(proof@)) == path_root(current@, arrays_view(proof@).skip(i as int)),
        decreases proof@.len() - i,
    {
        let ghost rest = arrays_view(proof@).skip(i as int);
        assert(rest.drop_first() =~= arrays_view(proof@).skip(i + 1));
        current = hash_pair(&current, &proof[i]);
        i = i + 1;
    }
    assert(arrays_view(proof@).skip(i as int) =~= Seq::<Seq<u8>>::empty());
    hashes_equal(&current, root)
}

/// Whether two hashes hold the same bytes.
fn hashes_equal(a: &Hash, b: &Hash) -> (res: bool)
    ensures
        res == (a@ == b@),
{
    let mut i: usize = 0;
    while i < 32
        invariant
            i <= 32,
            forall|j: int| 0 <= j < i ==> a@[j] == b@[j],
        decreases 32 - i,
    {
        if a[i] != b[i] {
            return false;
        }
        i = i + 1;
    }
    assert(a@ =~= b@);
    true
}

} // verus!
