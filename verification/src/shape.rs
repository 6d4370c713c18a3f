//! The mathematical model of a Merkle tree: how wide its leaf level is, how
//! many levels stand above it, and what every level holds.
//!
//! A tree is a sequence of levels. Level 0 holds the leaves; every further
//! level holds one node for each pair of neighbours in the level below, and the
//! last level holds the root alone.

use crate::digest::{leaf_digest, node_digest};
use vstd::prelude::*;

verus! {

/// The item whose digest fills the unused slots of the leaf level.
pub const PADDING_ITEM: u64 = 0;

/// The value of a padding leaf.
pub open spec fn padding_digest() -> u64 {
    leaf_digest(PADDING_ITEM)
}

/// Whether `n` is one of 1, 2, 4, 8, ...
pub open spec fn is_power_of_two(n: nat) -> bool
    decreases n,
{
    if n <= 1 {
        n == 1
    } else {
        n % 2 == 0 && is_power_of_two(n / 2)
    }
}

/// The width of the leaf level of a tree that stores `count` items: the least
/// power of two that is at least `count` (see [`lemma_capacity_is_least`]).
/// A tree without items still has one leaf.
pub open spec fn capacity_for(count: nat) -> nat
    decreases count,
{
    if count <= 1 {
        1
    } else {
        2 * capacity_for((count + 1) / 2)
    }
}

/// The number of levels above a leaf level of the given width: how often the
/// width can be halved before it reaches 1.
pub open spec fn height(width: nat) -> nat
    decreases width,
{
    if width <= 1 {
        0
    } else {
        1 + height(width / 2)
    }
}

/// The level that stands on `level`: entry `i` is the digest of entries `2i`
/// and `2i + 1` below it, in that order.
pub open spec fn next_level(level: Seq<u64>) -> Seq<u64> {
    Seq::new(level.len() / 2, |i: int| node_digest(level[2 * i], level[2 * i + 1]))
}

/// The level `k` steps above `leaves`.
pub open spec fn level_above(leaves: Seq<u64>, k: nat) -> Seq<u64>
    decreases k,
{
    if k == 0 {
        leaves
    } else {
        next_level(level_above(leaves, (k - 1) as nat))
    }
}

/// All levels of the tree over `leaves`, the leaves first and the root last.
pub open spec fn tree_levels(leaves: Seq<u64>) -> Seq<Seq<u64>> {
    Seq::new(height(leaves.len()) + 1, |k: int| level_above(leaves, k as nat))
}

/// `level`, followed by as many padding leaves as it takes to reach `up_to`
/// entries. A level that is already that long stays as it is.
pub open spec fn filled(level: Seq<u64>, up_to: nat) -> Seq<u64> {
    if level.len() >= up_to {
        level
    } else {
        level + Seq::new((up_to - level.len()) as nat, |i: int| padding_digest())
    }
}

/// The leaf level of the tree that stores the leaves `stored`: these, then
/// padding up to the width chosen for their number.
pub open spec fn padded(stored: Seq<u64>) -> Seq<u64> {
    filled(stored, capacity_for(stored.len()))
}

/// The digests of `items`, in the same order.
pub open spec fn digests_of(items: Seq<u64>) -> Seq<u64> {
    Seq::new(items.len(), |i: int| leaf_digest(items[i]))
}

/// The tree that stores `items`.
pub open spec fn built(items: Seq<u64>) -> Seq<Seq<u64>> {
    tree_levels(padded(digests_of(items)))
}

/// Two trees of equal depth laid side by side under a new root: level by
/// level the entries of `left` followed by those of `right`, topped by the
/// digest of the two former roots.
pub open spec fn merged(left: Seq<Seq<u64>>, right: Seq<Seq<u64>>) -> Seq<Seq<u64>> {
    Seq::new(left.len(), |k: int| left[k] + right[k]).push(
        seq![node_digest(left.last()[0], right.last()[0])],
    )
}

/// The tree with levels `levels` and `count` items after one more item, whose
/// digest is `digest`, was appended to it.
///
/// While the leaf level has a free slot, the digest takes the first one, at
/// position `count`. Once the leaf level is full, the tree is merged with a
/// second tree of the same width, which holds the digest in its first leaf and
/// padding in the others.
pub open spec fn appended(levels: Seq<Seq<u64>>, count: nat, digest: u64) -> Seq<Seq<u64>> {
    if count < levels[0].len() {
        tree_levels(levels[0].update(count as int, digest))
    } else {
        merged(levels, tree_levels(filled(seq![digest], levels[0].len())))
    }
}

/// Whether `levels` has the shape of a tree and every node in it is the digest
/// of its two children.
pub open spec fn is_tree(levels: Seq<Seq<u64>>) -> bool {
    &&& levels.len() >= 1
    &&& is_power_of_two(levels[0].len())
    &&& levels == tree_levels(levels[0])
}

/// The width chosen for `count` items is a power of two that holds them all.
pub proof fn lemma_capacity_is_power_of_two(count: nat)
    ensures
        is_power_of_two(capacity_for(count)),
        capacity_for(count) >= count,
        capacity_for(count) >= 1,
    decreases count,
{
    if count > 1 {
        lemma_capacity_is_power_of_two((count + 1) / 2);
    }
}

/// No power of two between `count` and `capacity_for(count)` was passed over.
pub proof fn lemma_capacity_is_least(count: nat, width: nat)
    requires
        is_power_of_two(width),
        width >= count,
    ensures
        width >= capacity_for(count),
    decreases count,
{
    if count > 1 {
        lemma_capacity_is_least((count + 1) / 2, width / 2);
    }
}

/// A power of two that exceeds another is at least twice as large.
pub proof fn lemma_next_power_of_two(small: nat, large: nat)
    requires
        is_power_of_two(small),
        is_power_of_two(large),
        small < large,
    ensures
        2 * small <= large,
        is_power_of_two(2 * small),
    decreases small,
{
    if small > 1 {
        lemma_next_power_of_two(small / 2, large / 2);
    }
}

/// A leaf level whose width is a power of two needs no padding.
pub proof fn lemma_capacity_of_power_of_two(width: nat)
    requires
        is_power_of_two(width),
    ensures
        capacity_for(width) == width,
    decreases width,
{
    if width > 1 {
        lemma_capacity_of_power_of_two(width / 2);
    }
}

/// While a tree has a free slot, one more item leaves its width as it is.
pub proof fn lemma_capacity_with_room(count: nat)
    requires
        count < capacity_for(count),
    ensures
        capacity_for(count + 1) == capacity_for(count),
{
    lemma_capacity_is_power_of_two(count);
    lemma_capacity_is_power_of_two(count + 1);
    lemma_capacity_is_least(count + 1, capacity_for(count));
    lemma_capacity_is_least(count, capacity_for(count + 1));
}

/// Once a tree is full, one more item doubles its width.
pub proof fn lemma_capacity_when_full(count: nat)
    requires
        count == capacity_for(count),
    ensures
        capacity_for(count + 1) == 2 * count,
{
    lemma_capacity_is_power_of_two(count);
    lemma_capacity_is_power_of_two(count + 1);
    lemma_next_power_of_two(count, capacity_for(count + 1));
    lemma_capacity_is_least(count + 1, 2 * count);
}

/// The widths of the levels of a tree: each level of a tree over a power of
/// two of leaves is itself a power of two wide, and the levels that remain
/// above it are as many as its own width allows.
pub proof fn lemma_level_width(leaves: Seq<u64>, k: nat)
    requires
        is_power_of_two(leaves.len()),
        k <= height(leaves.len()),
    ensures
        is_power_of_two(level_above(leaves, k).len()),
        height(level_above(leaves, k).len()) + k == height(leaves.len()),
    decreases k,
{
    if k > 0 {
        lemma_level_width(leaves, (k - 1) as nat);
    }
}

/// The last level of a tree holds exactly one node.
pub proof fn lemma_root_level(leaves: Seq<u64>)
    requires
        is_power_of_two(leaves.len()),
    ensures
        level_above(leaves, height(leaves.len())).len() == 1,
{
    lemma_level_width(leaves, height(leaves.len()));
}

/// Each level of a tree below the root is twice as wide as the one above it.
pub proof fn lemma_level_halves(leaves: Seq<u64>, k: nat)
    requires
        is_power_of_two(leaves.len()),
        k < height(leaves.len()),
    ensures
        level_above(leaves, k).len() == 2 * level_above(leaves, k + 1).len(),
        level_above(leaves, k + 1).len() >= 1,
{
    lemma_level_width(leaves, k);
    lemma_level_width(leaves, k + 1);
}

/// The level above two levels laid side by side is the two levels above them
/// laid side by side, as long as no pair straddles the seam.
pub proof fn lemma_next_level_of_concat(left: Seq<u64>, right: Seq<u64>)
    requires
        left.len() % 2 == 0,
    ensures
        next_level(left + right) == next_level(left) + next_level(right),
{
    let joined = next_level(left + right);
    let apart = next_level(left) + next_level(right);
    assert(joined.len() == apart.len());
    assert forall|i: int| 0 <= i < joined.len() implies joined[i] == apart[i] by {
        if i >= next_level(left).len() {
            let j = i - next_level(left).len();
            assert((left + right)[2 * i] == right[2 * j]);
            assert((left + right)[2 * i + 1] == right[2 * j + 1]);
        }
    }
    assert(joined =~= apart);
}

/// Up to the height of the two halves, every level over `left + right` is the
/// level over `left` followed by the level over `right`.
pub proof fn lemma_level_of_concat(left: Seq<u64>, right: Seq<u64>, k: nat)
    requires
        is_power_of_two(left.len()),
        left.len() == right.len(),
        k <= height(left.len()),
    ensures
        level_above(left + right, k) == level_above(left, k) + level_above(right, k),
    decreases k,
{
    if k > 0 {
        let j = (k - 1) as nat;
        lemma_level_of_concat(left, right, j);
        lemma_level_halves(left, j);
        lemma_next_level_of_concat(level_above(left, j), level_above(right, j));
    }
}

/// Merging the trees over two equally wide leaf levels gives the tree over
/// the two leaf levels laid side by side, the left one first.
pub proof fn theorem_merge_is_rebuild(left: Seq<u64>, right: Seq<u64>)
    requires
        is_power_of_two(left.len()),
        left.len() == right.len(),
    ensures
        merged(tree_levels(left), tree_levels(right)) == tree_levels(left + right),
        is_power_of_two((left + right).len()),
{
    let top = height(left.len());
    let joined = merged(tree_levels(left), tree_levels(right));
    let rebuilt = tree_levels(left + right);
    assert(height((left + right).len()) == top + 1);
    assert(joined.len() == rebuilt.len());
    assert forall|k: int| 0 <= k < joined.len() implies joined[k] == rebuilt[k] by {
        if k <= top {
            lemma_level_of_concat(left, right, k as nat);
        } else {
            lemma_level_of_concat(left, right, top);
            lemma_root_level(left);
            lemma_root_level(right);
            let roots = level_above(left, top) + level_above(right, top);
            assert(rebuilt[k] == next_level(roots));
            assert(next_level(roots) =~= seq![node_digest(roots[0], roots[1])]);
        }
    }
    assert(joined =~= rebuilt);
}

/// Changing one entry of a level changes one entry of the level above it: the
/// parent of the changed entry.
pub proof fn lemma_next_level_of_update(level: Seq<u64>, position: nat, value: u64)
    requires
        level.len() % 2 == 0,
        position < level.len(),
    ensures
        next_level(level.update(position as int, value)) == next_level(level).update(
            position as int / 2,
            node_digest(
                level.update(position as int, value)[2 * (position as int / 2)],
                level.update(position as int, value)[2 * (position as int / 2) + 1],
            ),
        ),
{
    let changed = next_level(level.update(position as int, value));
    let patched = next_level(level).update(
        position as int / 2,
        node_digest(
            level.update(position as int, value)[2 * (position as int / 2)],
            level.update(position as int, value)[2 * (position as int / 2) + 1],
        ),
    );
    assert(changed =~= patched);
}

/// The tree that stores `items` is a tree, and its first leaves hold the
/// digests of the items, in their order.
pub proof fn lemma_built_is_tree(items: Seq<u64>)
    ensures
        is_tree(built(items)),
        built(items)[0] == padded(digests_of(items)),
        built(items)[0].len() == capacity_for(items.len()),
        forall|i: int| 0 <= i < items.len() ==> built(items)[0][i] == leaf_digest(items[i]),
        forall|i: int|
            items.len() <= i < capacity_for(items.len()) ==> built(items)[0][i]
                == padding_digest(),
{
    lemma_capacity_is_power_of_two(items.len());
}

/// A tree does not tell padding from stored padding items: the tree that
/// stores `items` is, level for level, the tree that stores `extended`, which
/// is `items` followed by the padding item until the leaf level is full.
pub proof fn theorem_padding_is_stored_padding(items: Seq<u64>, extended: Seq<u64>)
    requires
        extended.len() == capacity_for(items.len()),
        extended.take(items.len() as int) == items,
        forall|i: int| items.len() <= i < extended.len() ==> extended[i] == PADDING_ITEM,
    ensures
        built(items) == built(extended),
        built(items).last()[0] == built(extended).last()[0],
{
    lemma_capacity_is_power_of_two(items.len());
    lemma_capacity_of_power_of_two(extended.len());
    assert forall|i: int| 0 <= i < items.len() implies digests_of(extended)[i] == digests_of(
        items,
    )[i] by {
        assert(extended.take(items.len() as int)[i] == extended[i]);
    }
    assert(padded(digests_of(items)) =~= padded(digests_of(extended)));
}

/// Appending one digest to the tree over the padded digests `stored` gives
/// the tree over the padded digests with the new one added, whether the digest
/// takes a free slot or the tree has to double.
pub proof fn lemma_append_is_rebuild(stored: Seq<u64>, digest: u64)
    ensures
        appended(tree_levels(padded(stored)), stored.len(), digest) == tree_levels(
            padded(stored.push(digest)),
        ),
{
    let leaves = padded(stored);
    let width = capacity_for(stored.len());
    lemma_capacity_is_power_of_two(stored.len());
    assert(tree_levels(leaves)[0] == leaves);
    if stored.len() < width {
        lemma_capacity_with_room(stored.len());
        assert(leaves.update(stored.len() as int, digest) =~= padded(stored.push(digest)));
    } else {
        let beside = filled(seq![digest], width);
        lemma_capacity_when_full(stored.len());
        theorem_merge_is_rebuild(leaves, beside);
        assert(leaves + beside =~= padded(stored.push(digest)));
    }
}

/// Appending to a built tree gives the tree built from the longer sequence:
/// the tree that stores `items`, after `value` was appended to it, is level
/// for level the tree that stores `items` followed by `value`. This holds
/// where the new item takes a padding slot and where the tree has to double.
pub proof fn theorem_append_is_rebuild(items: Seq<u64>, value: u64)
    ensures
        appended(built(items), items.len(), leaf_digest(value)) == built(items.push(value)),
        appended(built(items), items.len(), leaf_digest(value)).last()[0] == built(
            items.push(value),
        ).last()[0],
{
    lemma_append_is_rebuild(digests_of(items), leaf_digest(value));
    assert(digests_of(items).push(leaf_digest(value)) =~= digests_of(items.push(value)));
}

} // verus!
