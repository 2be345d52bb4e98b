//! What holds of every tree that the builder makes, and of the paths that
//! come with it.

use crate::hash::CryptoHash;
use crate::path::{spec_compute_root, spec_verify_path, MerklePathItem};
use crate::tree::{lemma_path_reaches_root, spec_leaves, spec_path, spec_paths, spec_root};
use vstd::prelude::*;

verus! {

/// Without items the root is the empty hash and there is no path.
pub proof fn lemma_empty_input(items: Seq<i32>)
    requires
        items.len() == 0,
    ensures
        spec_root(items) == CryptoHash::spec_new(),
        spec_paths(items) == Seq::<Seq<MerklePathItem>>::empty(),
{
    assert(spec_paths(items) =~= Seq::<Seq<MerklePathItem>>::empty());
}

/// A single item is its own root: the root is the item's hash, its path is
/// empty, and the empty path leads from the item to that root.
pub proof fn lemma_singleton(item: i32)
    ensures
        spec_root(seq![item]) == CryptoHash::spec_hash(item),
        spec_paths(seq![item]) == seq![Seq::<MerklePathItem>::empty()],
        spec_verify_path(CryptoHash::spec_hash(item), Seq::<MerklePathItem>::empty(), item),
{
    let items = seq![item];
    assert(spec_leaves(items).len() == 1);
    assert(spec_paths(items) =~= seq![Seq::<MerklePathItem>::empty()]);
}

/// There is one path for each item.
pub proof fn lemma_path_count(items: Seq<i32>)
    ensures
        spec_paths(items).len() == items.len(),
{
}

/// Each item's own path leads from the item to the root.
pub proof fn lemma_round_trip(items: Seq<i32>, i: int)
    requires
        0 <= i < items.len(),
    ensures
        spec_verify_path(spec_root(items), spec_paths(items)[i], items[i]),
{
    lemma_path_reaches_root(spec_leaves(items), i);
}

/// Another item, with another hash, is refused on the path of item `i`
/// wherever that path takes the two hashes to different hashes.
pub proof fn lemma_tamper_detection(items: Seq<i32>, i: int, j: int)
    requires
        0 <= i < items.len(),
        0 <= j < items.len(),
        CryptoHash::spec_hash(items[j]) != CryptoHash::spec_hash(items[i]),
        spec_compute_root(spec_paths(items)[i], CryptoHash::spec_hash(items[j]))
            != spec_compute_root(spec_paths(items)[i], CryptoHash::spec_hash(items[i])),
    ensures
        !spec_verify_path(spec_root(items), spec_paths(items)[i], items[j]),
{
    lemma_round_trip(items, i);
}

/// A path with at least one step takes two hashes with the same byte sum
/// to the same hash: the combination reads nothing of a hash but that sum.
pub proof fn lemma_fold_reads_byte_sum(
    path: Seq<MerklePathItem>,
    first: CryptoHash,
    second: CryptoHash,
)
    requires
        path.len() > 0,
        first.byte_sum() == second.byte_sum(),
    ensures
        spec_compute_root(path, first) == spec_compute_root(path, second),
    decreases path.len(),
{
    if path.len() == 1 {
        assert(path.drop_last().len() == 0);
        reveal_with_fuel(spec_compute_root, 2);
    } else {
        lemma_fold_reads_byte_sum(path.drop_last(), first, second);
    }
}

/// The same items give the same root and the same paths.
pub proof fn lemma_deterministic(first: Seq<i32>, second: Seq<i32>)
    requires
        first.len() == second.len(),
        forall|i: int| 0 <= i < first.len() ==> first[i] == second[i],
    ensures
        spec_root(first) == spec_root(second),
        spec_paths(first) == spec_paths(second),
{
    assert(first =~= second);
}

} // verus!
