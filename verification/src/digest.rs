//! The two digests a Merkle tree is made of: the digest of one item, which
//! becomes a leaf, and the digest of an ordered pair of digests, which becomes
//! their parent.
//!
//! Both run the standard library's default hasher from its initial state, so
//! equal inputs give equal digests on every call.

use std::collections::hash_map::DefaultHasher;
use std::hash::{Hash, Hasher};
use vstd::prelude::*;
use vstd::std_specs::hash::DefaultHasherAdditionalSpecFns;

verus! {

/// The write log of a default hasher that held `log` and was then fed `word`
/// through `u64`'s implementation of `Hash`.
pub uninterp spec fn absorbed(log: Seq<Seq<u8>>, word: u64) -> Seq<Seq<u8>>;

/// Feeds `word` to `hasher` by calling `<u64 as Hash>::hash`.
///
/// Trusted: the hasher's write log afterwards depends on nothing but its log
/// before the call and on `word`. What bytes the call writes is left open.
#[verifier::external_body]
fn absorb(hasher: &mut DefaultHasher, word: &u64)
    ensures
        final(hasher)@ == absorbed(old(hasher)@, *word),
{
    word.hash(hasher);
}

/// The digest of a single item: the value of a leaf that holds it.
pub open spec fn leaf_digest(item: u64) -> u64 {
    DefaultHasher::spec_finish(absorbed(Seq::empty(), item))
}

/// The digest of two sibling nodes, `left` before `right`: the value of their
/// parent. The order matters.
pub open spec fn node_digest(left: u64, right: u64) -> u64 {
    DefaultHasher::spec_finish(absorbed(absorbed(Seq::empty(), left), right))
}

/// Hashes one item into the value of its leaf.
pub fn hash_value(data: &u64) -> (digest: u64)
    ensures
        digest == leaf_digest(*data),
{
    let mut hasher = DefaultHasher::new();
    absorb(&mut hasher, data);
    hasher.finish()
}

/// Hashes two sibling values, left first, into the value of their parent.
pub fn hash_two_values(left_child: &u64, right_child: &u64) -> (digest: u64)
    ensures
        digest == node_digest(*left_child, *right_child),
{
    let mut hasher = DefaultHasher::new();
    absorb(&mut hasher, left_child);
    absorb(&mut hasher, right_child);
    hasher.finish()
}

} // verus!
