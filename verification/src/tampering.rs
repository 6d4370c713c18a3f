//! What a verifier detects when a value, an index or a proof entry was
//! exchanged.
//!
//! A tree of 64-bit digests cannot rule out that two different pairs of values
//! have the same digest. What it can promise is this: once two verifications
//! have parted ways, they arrive at different roots unless, at some step, they
//! hash two different pairs into the same digest.

use crate::digest::node_digest;
use crate::inclusion::{climb, lemma_climb_step, reaches_root};
use vstd::arithmetic::power2::pow2;
use vstd::prelude::*;

verus! {

/// The pair of values that a verifier hashes at step `k`: the value it has
/// reached after `k` entries of `proof`, and entry `k` itself. The value
/// reached comes first where the position on level `k` is even.
pub open spec fn hashed_pair(digest: u64, index: nat, proof: Seq<u64>, k: nat) -> (u64, u64) {
    let node = climb(digest, index, proof.take(k as int));
    if (index / pow2(k)) % 2 == 0 {
        (node, proof[k as int])
    } else {
        (proof[k as int], node)
    }
}

/// Whether two verifications hash different pairs into the same digest at
/// step `k`.
pub open spec fn collide_at(
    digest: u64,
    index: nat,
    proof: Seq<u64>,
    other_digest: u64,
    other_index: nat,
    other_proof: Seq<u64>,
    k: nat,
) -> bool {
    let pair = hashed_pair(digest, index, proof, k);
    let other_pair = hashed_pair(other_digest, other_index, other_proof, k);
    pair != other_pair && node_digest(pair.0, pair.1) == node_digest(other_pair.0, other_pair.1)
}

/// Whether two verifications with proofs of the same length never hash
/// different pairs into the same digest.
pub open spec fn collision_free(
    digest: u64,
    index: nat,
    proof: Seq<u64>,
    other_digest: u64,
    other_index: nat,
    other_proof: Seq<u64>,
) -> bool {
    forall|k: nat|
        k < proof.len() ==> !#[trigger] collide_at(
            digest,
            index,
            proof,
            other_digest,
            other_index,
            other_proof,
            k,
        )
}

/// Whether `index` and `other_index` lead to the same side, left or right, on
/// level `k`.
pub open spec fn same_side(index: nat, other_index: nat, k: nat) -> bool {
    (index / pow2(k)) % 2 == (other_index / pow2(k)) % 2
}

/// Step `k` of a verification hashes the pair of that step.
pub proof fn lemma_step_hashes_pair(digest: u64, index: nat, proof: Seq<u64>, k: nat)
    requires
        k < proof.len(),
    ensures
        climb(digest, index, proof.take(k as int + 1)) == node_digest(
            hashed_pair(digest, index, proof, k).0,
            hashed_pair(digest, index, proof, k).1,
        ),
{
    lemma_climb_step(digest, index, proof, k);
}

/// Two verifications that have reached different values after `from` steps,
/// and meet the same proof entries from there on, stay apart to the end unless
/// they collide.
pub proof fn lemma_climbs_stay_apart(
    digest: u64,
    index: nat,
    proof: Seq<u64>,
    other_digest: u64,
    other_index: nat,
    other_proof: Seq<u64>,
    from: nat,
)
    requires
        proof.len() == other_proof.len(),
        from <= proof.len(),
        forall|m: int| from <= m < proof.len() ==> proof[m] == other_proof[m],
        climb(digest, index, proof.take(from as int)) != climb(
            other_digest,
            other_index,
            other_proof.take(from as int),
        ),
        collision_free(digest, index, proof, other_digest, other_index, other_proof),
    ensures
        climb(digest, index, proof) != climb(other_digest, other_index, other_proof),
    decreases proof.len() - from,
{
    if from == proof.len() {
        assert(proof.take(from as int) =~= proof);
        assert(other_proof.take(from as int) =~= other_proof);
    } else {
        lemma_step_hashes_pair(digest, index, proof, from);
        lemma_step_hashes_pair(other_digest, other_index, other_proof, from);
        assert(!collide_at(digest, index, proof, other_digest, other_index, other_proof, from));
        lemma_climbs_stay_apart(
            digest,
            index,
            proof,
            other_digest,
            other_index,
            other_proof,
            from + 1,
        );
    }
}

/// Whether the verifications of one digest with one proof at `index` and at
/// `other_index` part on level `k`: the two indices lead to different sides
/// there, and the node on the way from `index` differs from the proof entry
/// beside it. Where the two are equal, they can change places unnoticed.
pub open spec fn part_at(
    digest: u64,
    index: nat,
    other_index: nat,
    proof: Seq<u64>,
    k: nat,
) -> bool {
    !same_side(index, other_index, k) && climb(digest, index, proof.take(k as int))
        != proof[k as int]
}

/// Two verifications of the same digest with the same proof reach the same
/// value on every level below the first on which they part.
pub proof fn lemma_climbs_run_together(
    digest: u64,
    index: nat,
    other_index: nat,
    proof: Seq<u64>,
    k: nat,
)
    requires
        k <= proof.len(),
        forall|m: nat| m < k ==> !part_at(digest, index, other_index, proof, m),
    ensures
        climb(digest, index, proof.take(k as int)) == climb(
            digest,
            other_index,
            proof.take(k as int),
        ),
    decreases k,
{
    if k > 0 {
        let j = (k - 1) as nat;
        lemma_climbs_run_together(digest, index, other_index, proof, j);
        lemma_climb_step(digest, index, proof, j);
        lemma_climb_step(digest, other_index, proof, j);
        assert(!part_at(digest, index, other_index, proof, j));
    }
}

/// Below a level on which two verifications part lies the first such level.
pub proof fn lemma_first_parting(
    digest: u64,
    index: nat,
    other_index: nat,
    proof: Seq<u64>,
    k: nat,
) -> (first: nat)
    requires
        part_at(digest, index, other_index, proof, k),
    ensures
        first <= k,
        part_at(digest, index, other_index, proof, first),
        forall|m: nat| m < first ==> !part_at(digest, index, other_index, proof, m),
    decreases k,
{
    if exists|m: nat| m < k && part_at(digest, index, other_index, proof, m) {
        let m = choose|m: nat| m < k && part_at(digest, index, other_index, proof, m);
        lemma_first_parting(digest, index, other_index, proof, m)
    } else {
        k
    }
}

/// A substituted value is rejected: where `proof` leads from `digest` at
/// `index` to the root, it does not lead there from a different digest at the
/// same index, unless the two verifications collide. So a tree that accepts an
/// item rejects, at the same index and with the same proof, every item with
/// another digest.
pub proof fn theorem_substituted_value_is_rejected(
    levels: Seq<Seq<u64>>,
    digest: u64,
    other_digest: u64,
    index: nat,
    proof: Seq<u64>,
)
    requires
        reaches_root(levels, digest, index, proof),
        other_digest != digest,
        collision_free(digest, index, proof, other_digest, index, proof),
    ensures
        !reaches_root(levels, other_digest, index, proof),
{
    assert(proof.take(0) =~= Seq::<u64>::empty());
    lemma_climbs_stay_apart(digest, index, proof, other_digest, index, proof, 0);
}

/// An exchanged proof entry is rejected: where `proof` leads from `digest` at
/// `index` to the root, the proof in which entry `k` was replaced by a
/// different `entry` does not, unless the two verifications collide.
pub proof fn theorem_exchanged_entry_is_rejected(
    levels: Seq<Seq<u64>>,
    digest: u64,
    index: nat,
    proof: Seq<u64>,
    k: nat,
    entry: u64,
)
    requires
        reaches_root(levels, digest, index, proof),
        k < proof.len(),
        entry != proof[k as int],
        collision_free(digest, index, proof, digest, index, proof.update(k as int, entry)),
    ensures
        !reaches_root(levels, digest, index, proof.update(k as int, entry)),
{
    let forged = proof.update(k as int, entry);
    assert(forged.take(k as int) =~= proof.take(k as int));
    lemma_step_hashes_pair(digest, index, proof, k);
    lemma_step_hashes_pair(digest, index, forged, k);
    assert(!collide_at(digest, index, proof, digest, index, forged, k));
    lemma_climbs_stay_apart(digest, index, proof, digest, index, forged, k + 1);
}

/// A different index is rejected: where `proof` leads from `digest` at `index`
/// to the root, it does not lead there from the same digest at an
/// `other_index` whose verification parts from that of `index` on some level
/// `k` of the proof, unless the two verifications collide.
pub proof fn theorem_different_index_is_rejected(
    levels: Seq<Seq<u64>>,
    digest: u64,
    index: nat,
    other_index: nat,
    proof: Seq<u64>,
    k: nat,
)
    requires
        reaches_root(levels, digest, index, proof),
        k < proof.len(),
        part_at(digest, index, other_index, proof, k),
        collision_free(digest, index, proof, digest, other_index, proof),
    ensures
        !reaches_root(levels, digest, other_index, proof),
{
    let first = lemma_first_parting(digest, index, other_index, proof, k);
    lemma_climbs_run_together(digest, index, other_index, proof, first);
    lemma_step_hashes_pair(digest, index, proof, first);
    lemma_step_hashes_pair(digest, other_index, proof, first);
    assert(!collide_at(digest, index, proof, digest, other_index, proof, first));
    lemma_climbs_stay_apart(digest, index, proof, digest, other_index, proof, first + 1);
}

/// Two indices whose verifications part on no level of the proof are not told
/// apart: they differ only above the levels that the proof covers, or only
/// where a node equals its sibling, and they are accepted or rejected together.
pub proof fn theorem_indices_that_never_part_agree(
    levels: Seq<Seq<u64>>,
    digest: u64,
    index: nat,
    other_index: nat,
    proof: Seq<u64>,
)
    requires
        forall|m: nat| m < proof.len() ==> !part_at(digest, index, other_index, proof, m),
    ensures
        reaches_root(levels, digest, index, proof) == reaches_root(
            levels,
            digest,
            other_index,
            proof,
        ),
{
    lemma_climbs_run_together(digest, index, other_index, proof, proof.len());
    assert(proof.take(proof.len() as int) =~= proof);
}

} // verus!
