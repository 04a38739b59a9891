use ringxkem::merkle_tree::{verify_proof, MerkleTree};
use sha2::{Digest, Sha256};

fn leaf(i: u8) -> ringxkem::merkle_tree::Hash {
    Sha256::digest([i]).into()
}

fn parent(left: &ringxkem::merkle_tree::Hash, right: &ringxkem::merkle_tree::Hash) -> ringxkem::merkle_tree::Hash {
    let (a, b) = if right < left { (right, left) } else { (left, right) };
    let mut h = Sha256::new();
    h.update(a);
    h.update(b);
    h.finalize().into()
}

#[test]
fn new_without_leaves_is_none() {
    assert!(MerkleTree::new(&[]).is_none());
}

#[test]
fn single_leaf_is_its_own_root() {
    let l = leaf(7);
    let tree = MerkleTree::new(&[l]).unwrap();
    assert_eq!(tree.root(), l);
    let p = tree.proof_of(0).unwrap();
    assert!(p.is_empty());
    assert!(verify_proof(&l, &p, &tree.root()));
    assert!(tree.proof_of(1).is_none());
}

#[test]
fn root_of_four_leaves_hashes_pairs() {
    let leaves: Vec<ringxkem::merkle_tree::Hash> = (0..4).map(leaf).collect();
    let tree = MerkleTree::new(&leaves).unwrap();
    let left = parent(&leaves[0], &leaves[1]);
    let right = parent(&leaves[2], &leaves[3]);
    assert_eq!(tree.root(), parent(&left, &right));
    assert_ne!(tree.root(), leaves[0]);
}

#[test]
fn odd_last_node_is_paired_with_itself() {
    let leaves: Vec<ringxkem::merkle_tree::Hash> = (0..3).map(leaf).collect();
    let tree = MerkleTree::new(&leaves).unwrap();
    let left = parent(&leaves[0], &leaves[1]);
    let right = parent(&leaves[2], &leaves[2]);
    assert_eq!(tree.root(), parent(&left, &right));
}

#[test]
fn proof_lists_one_sibling_per_level() {
    let leaves: Vec<ringxkem::merkle_tree::Hash> = (0..5).map(leaf).collect();
    let tree = MerkleTree::new(&leaves).unwrap();
    let p = tree.proof_of(4).unwrap();
    assert_eq!(p.len(), 3);
    // Leaf 4 has no partner on the first level: the last node stands in, here itself.
    assert_eq!(p[0], leaves[4]);
    let p1 = tree.proof_of(1).unwrap();
    assert_eq!(p1[0], leaves[0]);
    assert_eq!(p1[1], parent(&leaves[2], &leaves[3]));
    assert!(tree.proof_of(5).is_none());
    // Entry k is the node at (index >> k) ^ 1 on level k, or the level's last node.
    let p6 = tree.proof_of(3).unwrap();
    assert_eq!(p6[0], leaves[2]);
    assert_eq!(p6[1], parent(&leaves[0], &leaves[1]));
}

#[test]
fn proof_length_is_ceiling_log2() {
    for (n, d) in [(1u8, 0usize), (2, 1), (3, 2), (4, 2), (5, 3), (8, 3), (9, 4)] {
        let leaves: Vec<ringxkem::merkle_tree::Hash> = (0..n).map(leaf).collect();
        let tree = MerkleTree::new(&leaves).unwrap();
        for i in 0..n as usize {
            assert_eq!(tree.proof_of(i).unwrap().len(), d);
        }
    }
}

#[test]
fn every_leaf_proof_verifies() {
    for n in 1..10u8 {
        let leaves: Vec<ringxkem::merkle_tree::Hash> = (0..n).map(leaf).collect();
        let tree = MerkleTree::new(&leaves).unwrap();
        for i in 0..n as usize {
            let p = tree.proof_of(i).unwrap();
            assert!(verify_proof(&leaves[i], &p, &tree.root()));
        }
    }
}

#[test]
fn proof_for_a_right_child_verifies() {
    let leaves: Vec<ringxkem::merkle_tree::Hash> = (0..2).map(leaf).collect();
    let tree = MerkleTree::new(&leaves).unwrap();
    let p = tree.proof_of(1).unwrap();
    assert!(verify_proof(&leaves[1], &p, &tree.root()));
    assert_eq!(parent(&leaves[0], &leaves[1]), parent(&leaves[1], &leaves[0]));
}

#[test]
fn verify_proof_rejects_wrong_root_or_leaf() {
    let leaves: Vec<ringxkem::merkle_tree::Hash> = (0..4).map(leaf).collect();
    let tree = MerkleTree::new(&leaves).unwrap();
    let p = tree.proof_of(0).unwrap();
    assert!(!verify_proof(&leaves[2], &p, &tree.root()));
    assert!(!verify_proof(&leaves[0], &p, &leaves[0]));
}
