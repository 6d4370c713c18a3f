use merkle_tree::{
    add_padding, generate_tree_from_hashes, hash_two_values, hash_value, merge_trees, MerkleTree,
};

fn items(count: u64) -> Vec<u64> {
    (1..=count).map(|i| i * 7 + 1).collect()
}

fn assert_is_tree(levels: &Vec<Vec<u64>>) {
    assert!(levels.len() >= 1);
    assert_eq!(levels[levels.len() - 1].len(), 1);
    for k in 0..levels.len() - 1 {
        assert_eq!(levels[k].len(), 2 * levels[k + 1].len());
        for i in 0..levels[k + 1].len() {
            assert_eq!(
                levels[k + 1][i],
                hash_two_values(&levels[k][2 * i], &levels[k][2 * i + 1])
            );
        }
    }
}

#[test]
fn leaf_level_is_as_wide_as_the_next_power_of_two() {
    let expected: [usize; 18] = [1, 1, 2, 4, 4, 8, 8, 8, 8, 16, 16, 16, 16, 16, 16, 16, 16, 32];
    for count in 0..expected.len() {
        let tree = MerkleTree::new(&items(count as u64));
        assert_eq!(tree.get_tree()[0].len(), expected[count]);
    }
}

#[test]
fn level_lengths_halve_up_to_the_root() {
    let tree = MerkleTree::new(&items(5));
    let lengths: Vec<usize> = tree.get_tree().iter().map(|level| level.len()).collect();
    assert_eq!(lengths, vec![8, 4, 2, 1]);
}

#[test]
fn leaves_are_item_digests_followed_by_padding() {
    let data = items(5);
    let tree = MerkleTree::new(&data);
    let leaves = &tree.get_tree()[0];
    for i in 0..5 {
        assert_eq!(leaves[i], hash_value(&data[i]));
    }
    for i in 5..8 {
        assert_eq!(leaves[i], hash_value(&0));
    }
}

#[test]
fn every_node_is_the_digest_of_its_children() {
    for count in 0..20 {
        let tree = MerkleTree::new(&items(count));
        assert_is_tree(tree.get_tree());
    }
}

#[test]
fn root_is_the_only_node_of_the_last_level() {
    let tree = MerkleTree::new(&items(6));
    let levels = tree.get_tree();
    assert_eq!(tree.get_root(), levels[levels.len() - 1][0]);
    assert_eq!(levels.len(), 4);
}

#[test]
fn two_item_tree_by_hand() {
    let tree = MerkleTree::new(&[11, 22]);
    let left = hash_value(&11);
    let right = hash_value(&22);
    assert_eq!(
        tree.get_tree(),
        &vec![vec![left, right], vec![hash_two_values(&left, &right)]]
    );
    assert_eq!(tree.get_root(), hash_two_values(&left, &right));
}

#[test]
fn three_item_tree_by_hand() {
    let tree = MerkleTree::new(&[11, 22, 33]);
    let leaves = vec![
        hash_value(&11),
        hash_value(&22),
        hash_value(&33),
        hash_value(&0),
    ];
    let middle = vec![
        hash_two_values(&leaves[0], &leaves[1]),
        hash_two_values(&leaves[2], &leaves[3]),
    ];
    let root = hash_two_values(&middle[0], &middle[1]);
    assert_eq!(tree.get_tree(), &vec![leaves, middle, vec![root]]);
}

#[test]
fn empty_input_gives_a_single_padding_leaf() {
    let tree = MerkleTree::new(&[]);
    assert_eq!(tree.get_tree(), &vec![vec![hash_value(&0)]]);
    assert_eq!(tree.get_root(), hash_value(&0));
}

#[test]
fn single_item_tree_is_its_own_root() {
    let tree = MerkleTree::new(&[99]);
    assert_eq!(tree.get_tree(), &vec![vec![hash_value(&99)]]);
    assert_eq!(tree.get_root(), hash_value(&99));
}

#[test]
fn padding_is_the_same_as_stored_padding_items() {
    for count in 0..=17usize {
        let data = items(count as u64);
        let mut extended = data.clone();
        let width = MerkleTree::new(&data).get_tree()[0].len();
        while extended.len() < width {
            extended.push(0);
        }
        let short = MerkleTree::new(&data);
        let long = MerkleTree::new(&extended);
        assert_eq!(short.get_root(), long.get_root());
        assert_eq!(short.get_tree(), long.get_tree());
    }
}

#[test]
fn add_padding_fills_up_to_the_given_length() {
    let mut level = vec![5, 6];
    add_padding(&mut level, 4);
    assert_eq!(level, vec![5, 6, hash_value(&0), hash_value(&0)]);
}

#[test]
fn add_padding_leaves_a_long_enough_level_alone() {
    let mut level = vec![5, 6, 7];
    add_padding(&mut level, 3);
    assert_eq!(level, vec![5, 6, 7]);
    add_padding(&mut level, 2);
    assert_eq!(level, vec![5, 6, 7]);
    add_padding(&mut level, 0);
    assert_eq!(level, vec![5, 6, 7]);
}

#[test]
fn add_padding_fills_an_empty_level() {
    let mut level: Vec<u64> = Vec::new();
    add_padding(&mut level, 2);
    assert_eq!(level, vec![hash_value(&0), hash_value(&0)]);
}

#[test]
fn generate_tree_from_hashes_keeps_the_leaves_and_raises_the_levels() {
    let mut leaves = vec![1, 2, 3, 4];
    let tree = generate_tree_from_hashes(&mut leaves);
    let left = hash_two_values(&1, &2);
    let right = hash_two_values(&3, &4);
    assert_eq!(
        tree,
        vec![
            vec![1, 2, 3, 4],
            vec![left, right],
            vec![hash_two_values(&left, &right)]
        ]
    );
    assert_eq!(leaves, vec![1, 2, 3, 4]);
}

#[test]
fn generate_tree_from_hashes_of_one_leaf_is_that_leaf() {
    assert_eq!(generate_tree_from_hashes(&mut vec![17]), vec![vec![17]]);
}

#[test]
fn generate_tree_from_hashes_of_no_leaves_is_one_empty_level() {
    let mut leaves: Vec<u64> = Vec::new();
    assert_eq!(
        generate_tree_from_hashes(&mut leaves),
        vec![Vec::<u64>::new()]
    );
}

#[test]
fn merge_puts_left_leaves_before_right_leaves() {
    let a0 = hash_value(&10);
    let a1 = hash_value(&11);
    let b0 = hash_value(&20);
    let b1 = hash_value(&21);
    let mut left = generate_tree_from_hashes(&mut vec![a0, a1]);
    let right = generate_tree_from_hashes(&mut vec![b0, b1]);
    assert_eq!(merge_trees(&mut left, right), Ok(()));
    let direct = generate_tree_from_hashes(&mut vec![a0, a1, b0, b1]);
    assert_eq!(left, direct);
    assert_eq!(left[0], vec![a0, a1, b0, b1]);
}

#[test]
fn merge_is_not_symmetric() {
    let a = vec![hash_value(&10), hash_value(&11)];
    let b = vec![hash_value(&20), hash_value(&21)];
    let mut left_first = generate_tree_from_hashes(&mut a.clone());
    let _ = merge_trees(&mut left_first, generate_tree_from_hashes(&mut b.clone()));
    let mut right_first = generate_tree_from_hashes(&mut b.clone());
    let _ = merge_trees(&mut right_first, generate_tree_from_hashes(&mut a.clone()));
    assert_ne!(left_first[2][0], right_first[2][0]);
}

#[test]
fn merge_of_wide_trees_matches_direct_construction() {
    let left_leaves: Vec<u64> = (0..8).map(|i| hash_value(&i)).collect();
    let right_leaves: Vec<u64> = (8..16).map(|i| hash_value(&i)).collect();
    let mut all = left_leaves.clone();
    all.extend(right_leaves.iter());
    let mut left = generate_tree_from_hashes(&mut left_leaves.clone());
    let right = generate_tree_from_hashes(&mut right_leaves.clone());
    assert_eq!(merge_trees(&mut left, right), Ok(()));
    assert_eq!(left, generate_tree_from_hashes(&mut all));
}

#[test]
fn merge_of_single_leaves_hashes_the_two_roots() {
    let mut left = vec![vec![3]];
    assert_eq!(merge_trees(&mut left, vec![vec![4]]), Ok(()));
    assert_eq!(left, vec![vec![3, 4], vec![hash_two_values(&3, &4)]]);
}

#[test]
fn merge_rejects_trees_of_different_depth() {
    let mut left = generate_tree_from_hashes(&mut vec![1, 2, 3, 4]);
    let before = left.clone();
    let right = generate_tree_from_hashes(&mut vec![5, 6]);
    assert_eq!(
        merge_trees(&mut left, right),
        Err(String::from("Trees must have the same amount of floors"))
    );
    assert_eq!(left, before);
}
