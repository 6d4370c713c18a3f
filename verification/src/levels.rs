//! Building blocks that work on bare levels: padding a leaf level, raising
//! the levels above it, and joining two trees under a common root.

use crate::digest::{hash_two_values, hash_value};
use crate::shape::{
    filled, height, is_power_of_two, lemma_level_width, level_above, merged, next_level,
    padding_digest, tree_levels, PADDING_ITEM,
};
use vstd::prelude::*;

verus! {

/// What a vector of levels holds, as plain sequences.
pub open spec fn levels_of(tree: &Vec<Vec<u64>>) -> Seq<Seq<u64>> {
    Seq::new(tree@.len(), |k: int| tree@[k]@)
}

/// The message of the error that [`merge_trees`] returns.
pub open spec fn shape_mismatch_message() -> Seq<char> {
    "Trees must have the same amount of floors"@
}

/// Whether two trees of equal depth have the two roots that a merge hashes.
pub open spec fn have_roots(left: Seq<Seq<u64>>, right: Seq<Seq<u64>>) -> bool {
    &&& left.len() >= 1
    &&& left.last().len() >= 1
    &&& right.last().len() >= 1
}

/// Appends padding leaves to `tree_level` until it has `up_to` entries.
/// A level that is already that long is left alone.
pub fn add_padding(tree_level: &mut Vec<u64>, up_to: usize)
    ensures
        final(tree_level)@ == filled(old(tree_level)@, up_to as nat),
{
    let ghost before = tree_level@;
    let padding = hash_value(&PADDING_ITEM);
    while tree_level.len() < up_to
        invariant
            padding == padding_digest(),
            before.len() <= tree_level@.len(),
            tree_level@.len() <= up_to || tree_level@.len() == before.len(),
            tree_level@ == before + Seq::new(
                (tree_level@.len() - before.len()) as nat,
                |i: int| padding_digest(),
            ),
        decreases up_to - tree_level.len(),
    {
        tree_level.push(padding);
    }
}

/// Raises the whole tree over `leaves`: the leaves themselves as level 0,
/// then level upon level of pairwise digests until one node is left.
///
/// The number of leaves must be a power of two, so that every node has a
/// sibling. No leaves at all give a single empty level.
pub fn generate_tree_from_hashes(leaves: &mut [u64]) -> (tree: Vec<Vec<u64>>)
    requires
        old(leaves)@.len() == 0 || is_power_of_two(old(leaves)@.len()),
    ensures
        levels_of(&tree) == tree_levels(old(leaves)@),
        final(leaves)@ == old(leaves)@,
{
    let ghost bottom = leaves@;
    let mut level: Vec<u64> = Vec::new();
    let mut i: usize = 0;
    while i < leaves.len()
        invariant
            leaves@ == bottom,
            i <= leaves.len(),
            level@ == bottom.take(i as int),
        decreases leaves.len() - i,
    {
        level.push(leaves[i]);
        i += 1;
    }
    let mut tree: Vec<Vec<u64>> = Vec::new();
    tree.push(level);
    let mut level_index: usize = 0;
    while tree[level_index].len() > 1
        invariant
            leaves@ == bottom,
            bottom.len() == 0 || is_power_of_two(bottom.len()),
            tree@.len() == level_index + 1,
            level_index <= height(bottom.len()),
            forall|k: int|
                0 <= k <= level_index ==> (#[trigger] tree@[k])@ == level_above(bottom, k as nat),
        decreases height(bottom.len()) - level_index,
    {
        proof {
            lemma_level_width(bottom, level_index as nat);
        }
        let ghost below = tree@[level_index as int]@;
        let mut next_level_nodes: Vec<u64> = Vec::new();
        let mut index: usize = 0;
        while index < tree[level_index].len()
            invariant
                level_index < tree@.len(),
                tree@[level_index as int]@ == below,
                below.len() % 2 == 0,
                index % 2 == 0,
                index <= below.len(),
                next_level_nodes@ == next_level(below).take(index as int / 2),
            decreases below.len() - index,
        {
            let left_data = tree[level_index][index];
            let right_data = tree[level_index][index + 1];
            next_level_nodes.push(hash_two_values(&left_data, &right_data));
            index += 2;
        }
        assert(level_index < tree.len());
        level_index += 1;
        tree.push(next_level_nodes);
    }
    proof {
        if bottom.len() > 0 {
            lemma_level_width(bottom, level_index as nat);
        }
    }
    tree
}

/// Merges `right_subtree` into `left_subtree`: every level of the right tree
/// is appended to the same level of the left one, and a new root, the digest
/// of the two former roots, is put on top.
///
/// Fails, and leaves `left_subtree` as it was, when the two trees differ in
/// their number of levels.
pub fn merge_trees(left_subtree: &mut Vec<Vec<u64>>, right_subtree: Vec<Vec<u64>>) -> (result:
    Result<(), String>)
    requires
        old(left_subtree)@.len() == right_subtree@.len() ==> have_roots(
            levels_of(old(left_subtree)),
            levels_of(&right_subtree),
        ),
    ensures
        result is Ok <==> old(left_subtree)@.len() == right_subtree@.len(),
        result is Ok ==> levels_of(final(left_subtree)) == merged(
            levels_of(old(left_subtree)),
            levels_of(&right_subtree),
        ),
        result is Err ==> result->Err_0@ == shape_mismatch_message() && *final(left_subtree)
            == *old(left_subtree),
{
    if left_subtree.len() != right_subtree.len() {
        return Err("Trees must have the same amount of floors".to_string());
    }
    let ghost left_before = levels_of(left_subtree);
    let ghost right_before = levels_of(&right_subtree);
    let mut right_subtree = right_subtree;
    let len = left_subtree.len();
    let root = hash_two_values(&left_subtree[len - 1][0], &right_subtree[len - 1][0]);
    let mut index: usize = 0;
    while index < len
        invariant
            index <= len,
            left_subtree@.len() == len,
            right_subtree@.len() == len,
            left_before.len() == len,
            right_before.len() == len,
            forall|k: int|
                0 <= k < index ==> (#[trigger] left_subtree@[k])@ == left_before[k]
                    + right_before[k],
            forall|k: int| index <= k < len ==> (#[trigger] left_subtree@[k])@ == left_before[k],
            forall|k: int|
                index <= k < len ==> (#[trigger] right_subtree@[k])@ == right_before[k],
        decreases len - index,
    {
        left_subtree[index].append(&mut right_subtree[index]);
        index += 1;
    }
    let ghost joined = left_subtree@;
    left_subtree.push(vec![root]);
    proof {
        let after = levels_of(left_subtree);
        let expected = merged(left_before, right_before);
        assert(after.len() == expected.len());
        assert forall|k: int| 0 <= k < after.len() implies after[k] == expected[k] by {
            if k < len {
                assert(left_subtree@[k] == joined[k]);
            }
        }
        assert(after =~= expected);
    }
    Ok(())
}

} // verus!
