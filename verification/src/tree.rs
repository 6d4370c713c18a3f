//! The Merkle tree: built once from a sequence of items, grown one item at a
//! time, and asked for inclusion proofs, which it also verifies.

use crate::digest::{hash_two_values, hash_value, leaf_digest};
use crate::inclusion::{
    accepts, climb, lemma_climb_step, lemma_position_start, lemma_position_step, proof_for,
    reaches_root,
};
use crate::levels::{add_padding, generate_tree_from_hashes, levels_of, merge_trees};
use crate::shape::{
    appended, built, capacity_for, digests_of, filled, height, is_power_of_two, is_tree,
    lemma_append_is_rebuild, lemma_capacity_is_least, lemma_capacity_is_power_of_two,
    lemma_level_halves, lemma_next_level_of_update, lemma_next_power_of_two, lemma_root_level,
    level_above, padded, tree_levels,
};
use vstd::arithmetic::power2::pow2;
use vstd::prelude::*;

verus! {

/// A Merkle tree over 64-bit items.
///
/// The tree keeps every level, the leaves first. The leaf level is as wide as
/// the least power of two that holds all items; the slots that no item has
/// taken yet hold the digest of [`crate::shape::PADDING_ITEM`], so a padding
/// leaf cannot be told from a leaf that stores that item.
///
/// Every operation on items has a twin on leaf values, for a host that hashes
/// its items itself: [`MerkleTree::from_hashes`], [`MerkleTree::push_hash`] and
/// [`MerkleTree::verify_hash`].
pub struct MerkleTree {
    tree: Vec<Vec<u64>>,
    data_amount: usize,
}

impl View for MerkleTree {
    type V = Seq<Seq<u64>>;

    /// The levels of the tree, the leaves first and the root last.
    closed spec fn view(&self) -> Seq<Seq<u64>> {
        levels_of(&self.tree)
    }
}

/// The message of the error that [`MerkleTree::generate_proof`] returns.
pub open spec fn index_out_of_bounds_message() -> Seq<char> {
    "Index out of bounds"@
}

/// The least power of two that is at least `count`.
fn next_power_of_two(count: usize) -> (width: usize)
    requires
        capacity_for(count as nat) <= usize::MAX,
    ensures
        width == capacity_for(count as nat),
{
    let mut width: usize = 1;
    proof {
        lemma_capacity_is_power_of_two(count as nat);
    }
    while width < count
        invariant
            is_power_of_two(width as nat),
            is_power_of_two(capacity_for(count as nat)),
            capacity_for(count as nat) >= count,
            width <= capacity_for(count as nat),
            capacity_for(count as nat) <= usize::MAX,
        decreases capacity_for(count as nat) - width,
    {
        proof {
            lemma_next_power_of_two(width as nat, capacity_for(count as nat));
        }
        width = width * 2;
    }
    proof {
        lemma_capacity_is_least(count as nat, width as nat);
    }
    width
}

impl MerkleTree {
    /// The number of leaves that were stored: the leaves that are no padding.
    pub closed spec fn leaf_count(&self) -> nat {
        self.data_amount as nat
    }

    /// The leaves that were stored, in the order in which they came: the leaf
    /// level without its padding.
    pub open spec fn stored_leaves(&self) -> Seq<u64> {
        self@[0].take(self.leaf_count() as int)
    }

    /// The value at the top of the tree, which commits to every leaf.
    pub open spec fn root(&self) -> u64 {
        self@.last()[0]
    }

    /// The invariant of a tree: its levels are those of the tree over its
    /// stored leaves, padded to the least power of two that holds them.
    pub open spec fn wf(&self) -> bool {
        &&& self@.len() >= 1
        &&& self.leaf_count() <= self@[0].len()
        &&& self@ == tree_levels(padded(self.stored_leaves()))
    }

    /// What the invariant says of the shape of the tree.
    pub proof fn lemma_wf_shape(&self)
        requires
            self.wf(),
        ensures
            is_tree(self@),
            self@[0] == padded(self.stored_leaves()),
            self@[0].len() == capacity_for(self.leaf_count()),
            self@.len() == height(self@[0].len()) + 1,
            self@.last().len() == 1,
    {
        lemma_capacity_is_power_of_two(self.leaf_count());
        lemma_root_level(self@[0]);
    }

    /// Creates the tree whose stored leaves are `hashes`: the given values in
    /// their order, then padding up to the next power of two. Without any
    /// value the tree consists of a single padding leaf.
    pub fn from_hashes(hashes: Vec<u64>) -> (tree: MerkleTree)
        requires
            capacity_for(hashes@.len()) <= usize::MAX,
        ensures
            tree.wf(),
            tree@ == tree_levels(padded(hashes@)),
            tree.leaf_count() == hashes@.len(),
            tree.stored_leaves() == hashes@,
    {
        let mut leaves = hashes;
        let data_amount = leaves.len();
        let width = next_power_of_two(data_amount);
        add_padding(&mut leaves, width);
        proof {
            lemma_capacity_is_power_of_two(hashes@.len());
        }
        let hashed_tree = generate_tree_from_hashes(&mut leaves);
        let tree = MerkleTree { tree: hashed_tree, data_amount };
        proof {
            assert(tree@[0] == padded(hashes@));
            assert(tree.stored_leaves() =~= hashes@);
        }
        tree
    }

    /// Creates the tree that stores `data`: one leaf per item, in the order of
    /// `data`, then padding up to the next power of two. Without any item the
    /// tree consists of a single padding leaf.
    pub fn new(data: &[u64]) -> (tree: MerkleTree)
        requires
            capacity_for(data@.len()) <= usize::MAX,
        ensures
            tree.wf(),
            tree@ == built(data@),
            tree.leaf_count() == data@.len(),
            tree.stored_leaves() == digests_of(data@),
    {
        let mut leaves: Vec<u64> = Vec::new();
        let mut i: usize = 0;
        while i < data.len()
            invariant
                i <= data.len(),
                leaves@ == digests_of(data@).take(i as int),
            decreases data.len() - i,
        {
            leaves.push(hash_value(&data[i]));
            i += 1;
        }
        proof {
            assert(digests_of(data@).take(data@.len() as int) =~= digests_of(data@));
        }
        MerkleTree::from_hashes(leaves)
    }

    /// Adds `hash` behind the leaves that the tree stores.
    ///
    /// While the leaf level has a padding slot left, `hash` takes the first of
    /// them, and only the nodes between that leaf and the root are computed
    /// anew. Once the leaf level is full, a second tree of the same width is
    /// raised, with `hash` as its first leaf, and the two are merged under a
    /// new root: the tree is then twice as wide and one level higher.
    ///
    /// Either way the tree afterwards is the tree over the stored leaves with
    /// the new one added, and the call succeeds.
    pub fn push_hash(&mut self, hash: u64) -> (result: Result<(), String>)
        requires
            old(self).wf(),
        ensures
            result is Ok,
            final(self).wf(),
            final(self).leaf_count() == old(self).leaf_count() + 1,
            final(self).stored_leaves() == old(self).stored_leaves().push(hash),
            final(self)@ == appended(old(self)@, old(self).leaf_count(), hash),
    {
        let ghost before = self@;
        let ghost stored = self.stored_leaves();
        let ghost old_leaves = self@[0];
        let ghost top = height(old_leaves.len());
        proof {
            self.lemma_wf_shape();
            lemma_append_is_rebuild(stored, hash);
            lemma_capacity_is_power_of_two(stored.len() + 1);
        }
        if self.tree[0].len() > self.data_amount {
            let mut index = self.data_amount;
            let mut level: usize = 0;
            let ghost new_leaves = old_leaves.update(index as int, hash);
            proof {
                assert forall|k: int| 0 <= k <= top implies (#[trigger] self.tree@[k])@
                    == level_above(old_leaves, k as nat) by {
                    assert(self.tree@[k]@ == self@[k]);
                }
            }
            self.tree[0][index] = hash;
            while level + 1 < self.tree.len()
                invariant
                    is_power_of_two(old_leaves.len()),
                    top == height(old_leaves.len()),
                    new_leaves.len() == old_leaves.len(),
                    self.tree.len() == top + 1,
                    self.data_amount == old(self).data_amount,
                    level <= top,
                    index < level_above(old_leaves, level as nat).len(),
                    level_above(new_leaves, level as nat) == level_above(
                        old_leaves,
                        level as nat,
                    ).update(index as int, level_above(new_leaves, level as nat)[index as int]),
                    forall|k: int|
                        0 <= k <= level ==> (#[trigger] self.tree@[k])@ == level_above(
                            new_leaves,
                            k as nat,
                        ),
                    forall|k: int|
                        level < k <= top ==> (#[trigger] self.tree@[k])@ == level_above(
                            old_leaves,
                            k as nat,
                        ),
                decreases top - level,
            {
                proof {
                    lemma_level_halves(old_leaves, level as nat);
                    lemma_next_level_of_update(
                        level_above(old_leaves, level as nat),
                        index as nat,
                        level_above(new_leaves, level as nat)[index as int],
                    );
                }
                let parent = if index % 2 == 0 {
                    hash_two_values(&self.tree[level][index], &self.tree[level][index + 1])
                } else {
                    hash_two_values(&self.tree[level][index - 1], &self.tree[level][index])
                };
                self.tree[level + 1][index / 2] = parent;
                level += 1;
                index /= 2;
            }
            proof {
                assert(self@ =~= tree_levels(new_leaves));
            }
        } else {
            let mut leaves = vec![hash];
            add_padding(&mut leaves, self.tree[0].len());
            let right_subtree = generate_tree_from_hashes(&mut leaves);
            proof {
                assert(leaves@ == filled(seq![hash], old_leaves.len()));
                assert(leaves@.len() == old_leaves.len());
                assert(levels_of(&right_subtree).len() == top + 1);
                assert(right_subtree@.len() == self.tree@.len());
                lemma_root_level(leaves@);
            }
            match merge_trees(&mut self.tree, right_subtree) {
                Ok(_) => (),
                Err(m) => return Err(m),
            };
        }
        proof {
            assert(self@ == appended(before, stored.len(), hash));
            assert(self@[0] == padded(stored.push(hash)));
        }
        self.data_amount += 1;
        proof {
            assert(self.stored_leaves() =~= stored.push(hash));
        }
        Ok(())
    }

    /// Adds one item behind those that the tree stores: the digest of `data`
    /// becomes the next stored leaf, as [`MerkleTree::push_hash`] describes.
    pub fn push(&mut self, data: &u64) -> (result: Result<(), String>)
        requires
            old(self).wf(),
        ensures
            result is Ok,
            final(self).wf(),
            final(self).leaf_count() == old(self).leaf_count() + 1,
            final(self).stored_leaves() == old(self).stored_leaves().push(leaf_digest(*data)),
            final(self)@ == appended(old(self)@, old(self).leaf_count(), leaf_digest(*data)),
    {
        self.push_hash(hash_value(data))
    }

    /// Generates the inclusion proof for the leaf at `index`: the sibling of
    /// every node on the way from that leaf to the root, the root excluded,
    /// from the bottom up.
    ///
    /// Fails when the leaf level has no position `index`.
    pub fn generate_proof(&self, index: usize) -> (result: Result<Vec<u64>, String>)
        requires
            self.wf(),
        ensures
            result is Ok <==> index < self@[0].len(),
            result is Ok ==> result->Ok_0@ == proof_for(self@, index as nat),
            result is Err ==> result->Err_0@ == index_out_of_bounds_message(),
    {
        proof {
            self.lemma_wf_shape();
        }
        if index >= self.tree[0].len() {
            return Err("Index out of bounds".to_string());
        }
        let ghost leaves = self@[0];
        let ghost top = height(leaves.len());
        let mut position = index;
        let mut proof: Vec<u64> = Vec::new();
        let mut level_index: usize = 0;
        proof {
            lemma_position_start(index as nat);
            assert forall|k: int| 0 <= k <= top implies (#[trigger] self.tree@[k])@
                == level_above(leaves, k as nat) by {
                assert(self.tree@[k]@ == self@[k]);
            }
        }
        while level_index + 1 < self.tree.len()
            invariant
                is_power_of_two(leaves.len()),
                top == height(leaves.len()),
                self.tree.len() == top + 1,
                forall|k: int| 0 <= k <= top ==> (#[trigger] self.tree@[k])@ == level_above(
                    leaves,
                    k as nat,
                ),
                level_index <= top,
                position == index as nat / pow2(level_index as nat),
                position < level_above(leaves, level_index as nat).len(),
                proof@ == proof_for(self@, index as nat).take(level_index as int),
            decreases top - level_index,
        {
            proof {
                lemma_level_halves(leaves, level_index as nat);
                lemma_position_step(index as nat, level_index as nat);
            }
            if position % 2 == 0 {
                proof.push(self.tree[level_index][position + 1]);
            } else {
                proof.push(self.tree[level_index][position - 1]);
            }
            proof {
                assert(proof@ =~= proof_for(self@, index as nat).take(level_index as int + 1));
            }
            position /= 2;
            level_index += 1;
        }
        proof {
            assert(proof@ =~= proof_for(self@, index as nat));
        }
        Ok(proof)
    }

    /// Verifies that the leaf at `index` holds `hash`, on the evidence of
    /// `proof`.
    ///
    /// Starting from `hash`, every entry of `proof` is combined with the value
    /// reached so far, which stands left where the position is even and right
    /// where it is odd; the position is halved after each step. The answer is
    /// `true` when `proof` has one entry for each level below the root and the
    /// value reached in the end is the root.
    pub fn verify_hash(&self, hash: u64, index: usize, proof: &[u64]) -> (valid: bool)
        requires
            self.wf(),
        ensures
            valid == reaches_root(self@, hash, index as nat, proof@),
    {
        proof {
            self.lemma_wf_shape();
        }
        if proof.len() != self.tree.len() - 1 {
            return false;
        }
        let mut hashed_value = hash;
        let mut position = index;
        let mut i: usize = 0;
        proof {
            lemma_position_start(index as nat);
        }
        while i < proof.len()
            invariant
                i <= proof.len(),
                position == index as nat / pow2(i as nat),
                hashed_value == climb(hash, index as nat, proof@.take(i as int)),
            decreases proof.len() - i,
        {
            proof {
                lemma_position_step(index as nat, i as nat);
                lemma_climb_step(hash, index as nat, proof@, i as nat);
            }
            if position % 2 == 0 {
                hashed_value = hash_two_values(&hashed_value, &proof[i]);
            } else {
                hashed_value = hash_two_values(&proof[i], &hashed_value);
            }
            position /= 2;
            i += 1;
        }
        proof {
            assert(proof@.take(proof@.len() as int) =~= proof@);
        }
        hashed_value == self.get_root()
    }

    /// Verifies that `value` is the item at `index`, on the evidence of
    /// `proof`: that `proof` leads from the digest of `value` at `index` to the
    /// root, as [`MerkleTree::verify_hash`] describes. `proof` is not changed.
    pub fn verify(&self, value: u64, index: usize, proof: &mut Vec<u64>) -> (valid: bool)
        requires
            self.wf(),
        ensures
            valid == accepts(self@, value, index as nat, old(proof)@),
            *final(proof) == *old(proof),
    {
        self.verify_hash(hash_value(&value), index, proof.as_slice())
    }

    /// All levels of the tree, the leaves first and the root last.
    pub fn get_tree(&self) -> (levels: &Vec<Vec<u64>>)
        ensures
            levels_of(levels) == self@,
    {
        &self.tree
    }

    /// The root of the tree.
    pub fn get_root(&self) -> (root: u64)
        requires
            self.wf(),
        ensures
            root == self.root(),
    {
        proof {
            self.lemma_wf_shape();
        }
        self.tree[self.tree.len() - 1][0]
    }
}

} // verus!
