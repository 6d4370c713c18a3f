use merkle_tree::{hash_two_values, hash_value, MerkleTree};

#[test]
fn from_hashes_stores_the_given_values_as_leaves() {
    let tree = MerkleTree::from_hashes(vec![1, 2, 3]);
    let padding = hash_value(&0);
    let left = hash_two_values(&1, &2);
    let right = hash_two_values(&3, &padding);
    assert_eq!(
        tree.get_tree(),
        &vec![
            vec![1, 2, 3, padding],
            vec![left, right],
            vec![hash_two_values(&left, &right)]
        ]
    );
    assert_eq!(tree.get_root(), hash_two_values(&left, &right));
}

#[test]
fn from_hashes_of_item_digests_is_the_tree_of_the_items() {
    for count in 0..=9u64 {
        let data: Vec<u64> = (0..count).map(|i| 50 + i).collect();
        let digests: Vec<u64> = data.iter().map(|item| hash_value(item)).collect();
        assert_eq!(
            MerkleTree::from_hashes(digests).get_tree(),
            MerkleTree::new(&data).get_tree()
        );
    }
}

#[test]
fn from_hashes_of_nothing_is_a_single_padding_leaf() {
    let tree = MerkleTree::from_hashes(Vec::new());
    assert_eq!(tree.get_tree(), &vec![vec![hash_value(&0)]]);
}

#[test]
fn push_hash_stores_the_value_itself() {
    let mut tree = MerkleTree::from_hashes(vec![1, 2, 3]);
    assert_eq!(tree.push_hash(4), Ok(()));
    assert_eq!(tree.get_tree()[0], vec![1, 2, 3, 4]);
    assert_eq!(
        tree.get_tree(),
        MerkleTree::from_hashes(vec![1, 2, 3, 4]).get_tree()
    );
    assert_eq!(tree.push_hash(5), Ok(()));
    assert_eq!(
        tree.get_tree(),
        MerkleTree::from_hashes(vec![1, 2, 3, 4, 5]).get_tree()
    );
    assert_eq!(tree.get_tree()[0].len(), 8);
}

#[test]
fn push_is_push_hash_of_the_item_digest() {
    let mut by_item = MerkleTree::new(&[7, 8, 9]);
    let mut by_hash = MerkleTree::new(&[7, 8, 9]);
    for item in 10..20u64 {
        assert_eq!(by_item.push(&item), Ok(()));
        assert_eq!(by_hash.push_hash(hash_value(&item)), Ok(()));
        assert_eq!(by_item.get_tree(), by_hash.get_tree());
    }
}

#[test]
fn verify_hash_accepts_every_leaf_with_its_proof() {
    let leaves: Vec<u64> = (0..6).map(|i| 900 + i).collect();
    let tree = MerkleTree::from_hashes(leaves.clone());
    for index in 0..8 {
        let proof = tree.generate_proof(index).unwrap();
        let leaf = tree.get_tree()[0][index];
        assert!(tree.verify_hash(leaf, index, &proof));
        if index < 6 {
            assert_eq!(leaf, leaves[index]);
        }
    }
}

#[test]
fn verify_hash_recomputes_the_root_by_hand() {
    let tree = MerkleTree::from_hashes(vec![1, 2, 3, 4]);
    let left = hash_two_values(&1, &2);
    let right = hash_two_values(&3, &4);
    assert!(tree.verify_hash(3, 2, &[4, left]));
    assert!(tree.verify_hash(2, 1, &[1, right]));
    assert_eq!(tree.verify_hash(3, 2, &[left, 4]), false);
    assert_eq!(tree.verify_hash(3, 3, &[4, left]), false);
    assert_eq!(tree.verify_hash(4, 2, &[4, left]), false);
    assert_eq!(tree.verify_hash(3, 2, &[4]), false);
    assert_eq!(tree.verify_hash(3, 2, &[4, left, right]), false);
}

#[test]
fn verify_hash_looks_only_at_the_levels_that_the_proof_covers() {
    let tree = MerkleTree::from_hashes(vec![1, 2, 3, 4]);
    let left = hash_two_values(&1, &2);
    assert!(tree.verify_hash(3, 2, &[4, left]));
    assert!(tree.verify_hash(3, 2 + 4, &[4, left]));
    assert!(tree.verify_hash(3, 2 + 8, &[4, left]));
}

#[test]
fn verify_is_verify_hash_of_the_item_digest() {
    let tree = MerkleTree::new(&[5, 6, 7, 8, 9]);
    for index in 0..8 {
        let mut proof = tree.generate_proof(index).unwrap();
        for item in [0u64, 5, 6, 7, 8, 9] {
            assert_eq!(
                tree.verify(item, index, &mut proof),
                tree.verify_hash(hash_value(&item), index, &proof)
            );
        }
    }
}
