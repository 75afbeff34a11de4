use identity_tree::hash::Hash256;
use identity_tree::indices::{leaf_to_storage_idx, storage_idx_to_coords, storage_to_leaf_idx};
use identity_tree::maps::NodeMap;
use identity_tree::merkle::{verify_inclusion, Branch};
use identity_tree::tree::{flatten_leaf_updates, IdentityTree, LeafUpdates, Root, TreeError};

fn h64(v: u64) -> Hash256 {
    Hash256::from_u64(v)
}

fn zero() -> Hash256 {
    Hash256::zero()
}

fn poseidon(a: &Hash256, b: &Hash256) -> Hash256 {
    let fa = semaphore_rs::Field::from_limbs([a.l0, a.l1, a.l2, a.l3]);
    let fb = semaphore_rs::Field::from_limbs([b.l0, b.l1, b.l2, b.l3]);
    let out = semaphore_rs_poseidon::poseidon::hash2(fa, fb);
    let l = out.as_limbs();
    Hash256::from_limbs([l[0], l[1], l[2], l[3]])
}

fn node_map(pairs: &[(u32, Hash256)]) -> NodeMap {
    let mut m = NodeMap::new();
    for (k, v) in pairs {
        m.insert(*k, *v);
    }
    m
}

#[test]
fn test_leaf_to_storage_idx() {
    let tree_depth = 10;

    for i in 0..1 << tree_depth {
        let storage_idx = leaf_to_storage_idx(i, tree_depth);
        let expected_storage_idx = (1 << tree_depth) + i - 1;
        assert_eq!(storage_idx, expected_storage_idx);
    }
}

#[test]
fn test_storage_to_leaf_idx() {
    let tree_depth = 10;

    for i in 0..1 << tree_depth {
        let storage_idx = leaf_to_storage_idx(i, tree_depth);
        let leaf_idx = storage_to_leaf_idx(storage_idx, tree_depth);
        assert_eq!(leaf_idx, i);
    }
}

#[test]
fn test_storage_idx_to_coords() {
    let tree_depth = 10;

    for i in 0..1 << tree_depth {
        let storage_idx = leaf_to_storage_idx(i, tree_depth);

        let (depth, offset) = storage_idx_to_coords(storage_idx as usize);

        let expected_depth = (storage_idx + 1).ilog2();
        let expected_offset = storage_idx - (2_u32.pow(expected_depth) - 1);

        assert_eq!(depth, expected_depth as usize);
        assert_eq!(offset, expected_offset as usize);
    }
}

#[test]
fn test_insert() {
    let mut tree = IdentityTree::new(2);
    let a = h64(7);
    tree.insert(0, a);

    let expected_root = poseidon(&poseidon(&a, &zero()), &poseidon(&zero(), &zero()));
    assert_eq!(tree.tree.root(), expected_root);
    assert_eq!(tree.leaves.get(&a), Some(0));
    assert_eq!(tree.tree.num_leaves(), 1);
}

#[test]
fn test_insert_many() {
    let mut tree = IdentityTree::new(2);
    let a = h64(7);
    let b = h64(8);
    tree.insert_many(&[(0, a), (1, b)]);

    let expected_root = poseidon(&poseidon(&a, &b), &poseidon(&zero(), &zero()));
    assert_eq!(tree.tree.root(), expected_root);
    assert_eq!(tree.leaves.get(&a), Some(0));
    assert_eq!(tree.leaves.get(&b), Some(1));
}

#[test]
fn test_insert_leaves() {
    let mut tree = IdentityTree::new(2);
    let c = h64(9);
    tree.insert_many_leaves(&[(2, c)]);

    // Only the leaf index changes; the canonical tree is untouched.
    assert_eq!(tree.leaves.get(&c), Some(2));
    assert_eq!(tree.tree.num_leaves(), 0);
}

#[test]
fn test_insert_many_leaves() {
    let mut tree = IdentityTree::new(3);
    let a = h64(1);
    let b = h64(2);
    tree.insert_many_leaves(&[(0, a), (5, b)]);

    assert_eq!(tree.leaves.get(&a), Some(0));
    assert_eq!(tree.leaves.get(&b), Some(5));
    assert_eq!(tree.tree.num_leaves(), 0);
}

#[test]
fn test_remove() {
    let mut tree = IdentityTree::new(2);
    let a = h64(7);
    tree.insert(0, a);
    tree.remove(0);

    let empty_root = poseidon(
        &poseidon(&zero(), &zero()),
        &poseidon(&zero(), &zero()),
    );
    assert_eq!(tree.tree.root(), empty_root);
    assert_eq!(tree.leaves.get(&a), None);
}

#[test]
fn test_remove_many() {
    let mut tree = IdentityTree::new(2);
    let a = h64(7);
    let b = h64(8);
    tree.insert_many(&[(0, a), (1, b)]);
    tree.remove_many(&[0, 1]);

    let empty_root = poseidon(
        &poseidon(&zero(), &zero()),
        &poseidon(&zero(), &zero()),
    );
    assert_eq!(tree.tree.root(), empty_root);
    assert_eq!(tree.leaves.get(&a), None);
    assert_eq!(tree.leaves.get(&b), None);
}

#[test]
fn test_remove_leaves() {
    let mut tree = IdentityTree::new(2);
    let c = h64(9);
    tree.insert_many_leaves(&[(1, c)]);
    tree.remove_many_leaves(&[c]);

    assert_eq!(tree.leaves.get(&c), None);
}

#[test]
fn test_remove_many_leaves() {
    let mut tree = IdentityTree::new(3);
    let a = h64(1);
    let b = h64(2);
    tree.insert_many_leaves(&[(0, a), (5, b)]);
    tree.remove_many_leaves(&[a, b]);

    assert_eq!(tree.leaves.get(&a), None);
    assert_eq!(tree.leaves.get(&b), None);
}

#[test]
fn test_append_updates() {
    // Depth 2; A at leaf 0; stage Insert({1 -> B}) at a future root.
    let mut tree = IdentityTree::new(2);
    let a = h64(7);
    let b = h64(8);
    tree.insert(0, a);
    let root_before = tree.tree.root();

    let expected_staged_root = poseidon(&poseidon(&a, &b), &poseidon(&zero(), &zero()));
    let r1 = Root { hash: expected_staged_root, block_number: 10 };
    tree.append_updates(r1, LeafUpdates::Insert(node_map(&[(1, b)])));

    // The canonical tree is untouched.
    assert_eq!(tree.tree.root(), root_before);
    // The leaf index now knows B.
    assert_eq!(tree.leaves.get(&b), Some(1));
    // The patch holds the dirtied leaf, its path, and the new root.
    assert_eq!(tree.tree_updates.len(), 1);
    let patch = &tree.tree_updates[0].1;
    assert_eq!(patch.get(4), Some(b));
    assert_eq!(patch.get(1), Some(poseidon(&a, &b)));
    assert_eq!(patch.get(0), Some(expected_staged_root));
    assert_eq!(patch.entries.len(), 3);
}

#[test]
fn test_apply_updates_to_root() {
    // Promote the staged root: leaf 1 becomes B in the canonical tree,
    // the overlay empties, and the canonical root equals the staged one.
    let mut tree = IdentityTree::new(2);
    let a = h64(7);
    let b = h64(8);
    tree.insert(0, a);

    let staged_root = poseidon(&poseidon(&a, &b), &poseidon(&zero(), &zero()));
    let r1 = Root { hash: staged_root, block_number: 10 };
    tree.append_updates(r1, LeafUpdates::Insert(node_map(&[(1, b)])));
    tree.apply_updates_to_root(&r1);

    assert_eq!(tree.tree.get_leaf(1), b);
    assert_eq!(tree.tree_updates.len(), 0);
    assert_eq!(tree.tree.root(), staged_root);
}

#[test]
fn test_flatten_leaf_updates() {
    // Chronological patches [(R1, {0->A}), (R2, {0->B, 1->C}), (R3, {1->D})]
    // flatten to [(0, B), (1, D)]: the latest writer wins per leaf.
    let a = h64(1);
    let b = h64(2);
    let c = h64(3);
    let d = h64(4);
    let r1 = Root { hash: h64(100), block_number: 1 };
    let r2 = Root { hash: h64(200), block_number: 2 };
    let r3 = Root { hash: h64(300), block_number: 3 };
    let updates = vec![
        (r1, LeafUpdates::Insert(node_map(&[(0, a)]))),
        (r2, LeafUpdates::Insert(node_map(&[(0, b), (1, c)]))),
        (r3, LeafUpdates::Insert(node_map(&[(1, d)]))),
    ];

    let flattened = flatten_leaf_updates(updates);
    assert_eq!(flattened, vec![(0, b), (1, d)]);
}

#[test]
fn test_inclusion_proof() {
    // Depth 2, A at leaf 0: the canonical proof is the two siblings on
    // the path, and verifying it reproduces the canonical root.
    let mut tree = IdentityTree::new(2);
    let a = h64(7);
    tree.insert(0, a);

    let proof = tree.inclusion_proof(a, None).unwrap().unwrap();
    assert_eq!(proof.root, tree.tree.root());
    assert_eq!(
        proof.branches,
        vec![
            Branch::Left(zero()),
            Branch::Left(poseidon(&zero(), &zero())),
        ]
    );
    assert_eq!(verify_inclusion(&a, &proof.branches), tree.tree.root());
}

#[test]
fn test_construct_proof_from_root() {
    // A proof against a staged overlay root verifies to that root's
    // hash, while the canonical root stays the old one.
    let mut tree = IdentityTree::new(2);
    let a = h64(7);
    let b = h64(8);
    tree.insert(0, a);
    let canonical_root = tree.tree.root();

    let staged_root = poseidon(&poseidon(&a, &b), &poseidon(&zero(), &zero()));
    let r1 = Root { hash: staged_root, block_number: 10 };
    tree.append_updates(r1, LeafUpdates::Insert(node_map(&[(1, b)])));

    let branches = tree.construct_proof_from_root(1, &r1).unwrap();
    assert_eq!(verify_inclusion(&b, &branches), staged_root);
    assert_eq!(tree.tree.root(), canonical_root);

    let proof = tree.inclusion_proof(b, Some(&r1)).unwrap().unwrap();
    assert_eq!(proof.root, staged_root);
    assert_eq!(verify_inclusion(&b, &proof.branches), staged_root);
}

#[test]
fn test_get_root_by_hash() {
    let mut tree = IdentityTree::new(2);
    let a = h64(7);
    let b = h64(8);
    let r1 = Root { hash: h64(100), block_number: 10 };
    let r2 = Root { hash: h64(200), block_number: 20 };
    tree.append_updates(r1, LeafUpdates::Insert(node_map(&[(0, a)])));
    tree.append_updates(r2, LeafUpdates::Insert(node_map(&[(1, b)])));

    let found = tree.get_root_by_hash(&h64(200)).unwrap();
    assert_eq!(found.block_number, 20);
    assert_eq!(found.hash, h64(200));
    assert!(tree.get_root_by_hash(&h64(999)).is_none());
}

#[test]
fn delete_round_trip() {
    // Insert A at 0, stage Delete({0: A}): the patch's leaf entry is the
    // zero value, A leaves the leaf index, and a proof query for A fails
    // with the unknown-leaf error.
    let mut tree = IdentityTree::new(2);
    let a = h64(7);
    tree.insert(0, a);

    let r2 = Root { hash: h64(200), block_number: 20 };
    tree.append_updates(r2, LeafUpdates::Delete(node_map(&[(0, a)])));

    let patch = &tree.tree_updates[0].1;
    assert_eq!(patch.get(3), Some(zero()));
    assert_eq!(tree.leaves.get(&a), None);
    assert_eq!(
        tree.inclusion_proof(a, Some(&r2)).unwrap_err(),
        TreeError::LeafNotFound
    );
}

#[test]
fn unknown_root_is_rejected() {
    let mut tree = IdentityTree::new(2);
    let a = h64(7);
    tree.insert(0, a);

    let unknown = Root { hash: h64(123), block_number: 5 };
    assert_eq!(
        tree.inclusion_proof(a, Some(&unknown)).unwrap_err(),
        TreeError::RootNotFound
    );
}

#[test]
fn append_copies_previous_patch_forward() {
    // A second staged patch carries the first patch's entries forward,
    // so proofs against it never chain backwards.
    let mut tree = IdentityTree::new(2);
    let a = h64(7);
    let b = h64(8);
    let c = h64(9);
    tree.insert(0, a);

    let r1 = Root { hash: h64(100), block_number: 10 };
    tree.append_updates(r1, LeafUpdates::Insert(node_map(&[(1, b)])));
    let r2 = Root { hash: h64(200), block_number: 20 };
    tree.append_updates(r2, LeafUpdates::Insert(node_map(&[(2, c)])));

    let second = &tree.tree_updates[1].1;
    // The dirtied leaf of the first patch is still present.
    assert_eq!(second.get(4), Some(b));
    // The new leaf and its recomputed path are present.
    assert_eq!(second.get(5), Some(c));
    assert_eq!(second.get(2), Some(poseidon(&c, &zero())));
    assert_eq!(
        second.get(0),
        Some(poseidon(&poseidon(&a, &b), &poseidon(&c, &zero())))
    );
}

#[test]
fn apply_keeps_later_overlay_entries() {
    // Promoting a root discards it and everything older, keeping only
    // strictly newer overlay entries.
    let mut tree = IdentityTree::new(2);
    let a = h64(7);
    let b = h64(8);
    tree.insert(0, a);

    let r1 = Root { hash: h64(100), block_number: 10 };
    tree.append_updates(r1, LeafUpdates::Insert(node_map(&[(1, b)])));
    let c = h64(9);
    let r2 = Root { hash: h64(200), block_number: 20 };
    tree.append_updates(r2, LeafUpdates::Insert(node_map(&[(2, c)])));

    tree.apply_updates_to_root(&r1);
    assert_eq!(tree.tree_updates.len(), 1);
    assert_eq!(tree.tree_updates[0].0.hash, h64(200));
    assert_eq!(tree.tree.get_leaf(1), b);
}

#[test]
fn flatten_of_nothing_is_empty() {
    let flattened = flatten_leaf_updates(Vec::new());
    assert!(flattened.is_empty());
}

#[test]
fn zero_value_round_trip() {
    assert!(zero().is_zero());
    assert!(!h64(1).is_zero());
    assert_eq!(Hash256::from_limbs([3, 0, 0, 0]), h64(3));
}
