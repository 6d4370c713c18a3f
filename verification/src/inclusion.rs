//! Inclusion proofs: which siblings prove that a leaf is part of a tree, and
//! what a verifier computes from them.

use crate::digest::{leaf_digest, node_digest};
use crate::shape::{
    built, height, is_power_of_two, is_tree, lemma_built_is_tree, lemma_level_halves,
    lemma_root_level, level_above, next_level, tree_levels,
};
use vstd::arithmetic::div_mod::lemma_div_denominator;
use vstd::arithmetic::power2::{lemma2_to64, lemma_pow2_pos, lemma_pow2_unfold, pow2};
use vstd::prelude::*;

verus! {

/// The position beside `position` under the same parent.
pub open spec fn sibling(position: nat) -> nat {
    if position % 2 == 0 {
        position + 1
    } else {
        (position - 1) as nat
    }
}

/// The inclusion proof for the leaf at `index`: for every level below the
/// root, from the leaves upwards, the sibling of the node that lies on the way
/// from that leaf to the root.
pub open spec fn proof_for(levels: Seq<Seq<u64>>, index: nat) -> Seq<u64> {
    Seq::new(
        (levels.len() - 1) as nat,
        |k: int| levels[k][sibling(index / pow2(k as nat)) as int],
    )
}

/// The parent of `node` and the proof entry beside it: `node` is the left
/// child where its position is even, the right child where it is odd.
pub open spec fn parent_digest(node: u64, position: nat, entry: u64) -> u64 {
    if position % 2 == 0 {
        node_digest(node, entry)
    } else {
        node_digest(entry, node)
    }
}

/// The value a verifier arrives at when it starts with `digest` at leaf
/// position `index` and combines it with the entries of `proof` in turn,
/// halving the position after each.
pub open spec fn climb(digest: u64, index: nat, proof: Seq<u64>) -> u64
    decreases proof.len(),
{
    if proof.len() == 0 {
        digest
    } else {
        parent_digest(
            climb(digest, index, proof.drop_last()),
            index / pow2((proof.len() - 1) as nat),
            proof.last(),
        )
    }
}

/// Whether `proof` leads from the leaf value `digest` at `index` to the root
/// of the tree with these levels: the proof has one entry per level below the
/// root, and climbing from `digest` arrives at the root.
pub open spec fn reaches_root(
    levels: Seq<Seq<u64>>,
    digest: u64,
    index: nat,
    proof: Seq<u64>,
) -> bool {
    &&& proof.len() + 1 == levels.len()
    &&& climb(digest, index, proof) == levels.last()[0]
}

/// Whether the tree with these levels accepts `proof` as evidence that the
/// leaf at `index` holds the item `value`.
pub open spec fn accepts(levels: Seq<Seq<u64>>, value: u64, index: nat, proof: Seq<u64>) -> bool {
    reaches_root(levels, leaf_digest(value), index, proof)
}

/// On the leaf level the position is the index itself.
pub proof fn lemma_position_start(index: nat)
    ensures
        index / pow2(0) == index,
{
    lemma2_to64();
    let one = pow2(0);
    assert(index / one == index) by (nonlinear_arith)
        requires
            one == 1,
    ;
}

/// Halving a position once more is dividing the index by the next power of two.
pub proof fn lemma_position_step(index: nat, k: nat)
    ensures
        pow2(k) > 0,
        index / pow2(k + 1) == (index / pow2(k)) / 2,
{
    let width = pow2(k);
    let doubled = pow2(k + 1);
    lemma_pow2_pos(k);
    lemma_pow2_unfold(k + 1);
    lemma_div_denominator(index as int, width as int, 2);
    assert(doubled == width * 2);
}

/// One more entry of a proof takes the climb one step further.
pub proof fn lemma_climb_step(digest: u64, index: nat, proof: Seq<u64>, k: nat)
    requires
        k < proof.len(),
    ensures
        climb(digest, index, proof.take(k as int + 1)) == parent_digest(
            climb(digest, index, proof.take(k as int)),
            index / pow2(k),
            proof[k as int],
        ),
{
    assert(proof.take(k as int + 1).drop_last() =~= proof.take(k as int));
}

/// After `k` entries of the proof for `index`, a climb that started from the
/// leaf at `index` has reached the node above that leaf on level `k`.
pub proof fn lemma_climb_follows_path(leaves: Seq<u64>, index: nat, k: nat)
    requires
        is_power_of_two(leaves.len()),
        index < leaves.len(),
        k <= height(leaves.len()),
    ensures
        index / pow2(k) < level_above(leaves, k).len(),
        climb(leaves[index as int], index, proof_for(tree_levels(leaves), index).take(k as int))
            == level_above(leaves, k)[(index / pow2(k)) as int],
    decreases k,
{
    let leaf = leaves[index as int];
    let proof = proof_for(tree_levels(leaves), index);
    if k == 0 {
        lemma_position_start(index);
        assert(proof.take(0).len() == 0);
    } else {
        let j = (k - 1) as nat;
        lemma_climb_follows_path(leaves, index, j);
        lemma_position_step(index, j);
        lemma_level_halves(leaves, j);
        lemma_climb_step(leaf, index, proof, j);
        let below = level_above(leaves, j);
        let above = level_above(leaves, k);
        let position = index / pow2(j);
        let parent = position as int / 2;
        assert(index / pow2(k) == parent);
        assert(above == next_level(below));
        assert(0 <= parent < above.len());
        assert(above[parent] == node_digest(below[2 * parent], below[2 * parent + 1]));
        assert(proof[j as int] == below[sibling(position) as int]);
        assert(climb(leaf, index, proof.take(j as int)) == below[position as int]);
        assert(proof.take(k as int) == proof.take(j as int + 1));
        assert(climb(leaf, index, proof.take(k as int)) == parent_digest(
            below[position as int],
            position,
            below[sibling(position) as int],
        ));
        if position % 2 == 0 {
            assert(2 * parent == position);
        } else {
            assert(2 * parent + 1 == position);
        }
    }
}

/// For every one of its leaves, the proof that a tree generates leads from
/// the value of that leaf to the root. So the tree accepts the proof together
/// with any item whose digest the leaf holds.
pub proof fn theorem_proof_round_trip(levels: Seq<Seq<u64>>, index: nat)
    requires
        is_tree(levels),
        index < levels[0].len(),
    ensures
        reaches_root(levels, levels[0][index as int], index, proof_for(levels, index)),
        forall|item: u64|
            levels[0][index as int] == leaf_digest(item) ==> accepts(
                levels,
                item,
                index,
                proof_for(levels, index),
            ),
{
    let leaves = levels[0];
    let top = height(leaves.len());
    lemma_climb_follows_path(leaves, index, top);
    lemma_root_level(leaves);
    assert(levels.len() == top + 1);
    assert(levels.last() == level_above(leaves, top));
    assert(index / pow2(top) == 0) by {
        lemma_pow2_pos(top);
    }
    assert(proof_for(levels, index).take(top as int) =~= proof_for(levels, index));
}

/// The tree that stores `items` accepts each of them, at its own index, with
/// the proof that the tree generates for that index.
pub proof fn theorem_built_tree_proves_its_items(items: Seq<u64>, index: nat)
    requires
        index < items.len(),
    ensures
        accepts(built(items), items[index as int], index, proof_for(built(items), index)),
{
    lemma_built_is_tree(items);
    theorem_proof_round_trip(built(items), index);
}

} // verus!
