//! Inclusion paths and the fold that recomputes a root from a leaf.

use crate::hash::CryptoHash;
use vstd::prelude::*;

verus! {

/// The side on which a recorded sibling stands when it is combined with the
/// node being proved.
#[derive(Debug, Copy, Clone, PartialEq, Eq, Structural)]
pub enum Direction {
    Left,
    Right,
}

/// One step of an inclusion path: the sibling's hash and its side.
#[derive(Debug, Copy, Clone, PartialEq, Eq)]
pub struct MerklePathItem {
    pub hash: CryptoHash,
    pub direction: Direction,
}

/// The steps of one leaf, from the leaf's own level up to the root.
pub type MerklePath = Vec<MerklePathItem>;

/// The parent reached from `node` by one path step: a left sibling is the
/// first argument of the combination, a right sibling the second.
pub open spec fn spec_step(item: MerklePathItem, node: CryptoHash) -> CryptoHash {
    match item.direction {
        Direction::Left => CryptoHash::spec_combine_hash(item.hash, node),
        Direction::Right => CryptoHash::spec_combine_hash(node, item.hash),
    }
}

/// The hash reached from `item_hash` by taking the steps of `path` in order,
/// first step first.
pub open spec fn spec_compute_root(path: Seq<MerklePathItem>, item_hash: CryptoHash) -> CryptoHash
    decreases path.len(),
{
    if path.len() == 0 {
        item_hash
    } else {
        spec_step(path.last(), spec_compute_root(path.drop_last(), item_hash))
    }
}

/// Whether `path` leads from `item_hash` to `root`.
pub open spec fn spec_verify_hash(
    root: CryptoHash,
    path: Seq<MerklePathItem>,
    item_hash: CryptoHash,
) -> bool {
    spec_compute_root(path, item_hash) == root
}

/// Whether `path` leads from the hash of `item` to `root`.
pub open spec fn spec_verify_path(root: CryptoHash, path: Seq<MerklePathItem>, item: i32) -> bool {
    spec_verify_hash(root, path, CryptoHash::spec_hash(item))
}

/// Taking the steps of `front + back` is taking those of `front`, then
/// those of `back`.
pub proof fn lemma_compute_root_concat(
    front: Seq<MerklePathItem>,
    back: Seq<MerklePathItem>,
    item_hash: CryptoHash,
)
    ensures
        spec_compute_root(front + back, item_hash) == spec_compute_root(
            back,
            spec_compute_root(front, item_hash),
        ),
    decreases back.len(),
{
    if back.len() == 0 {
        assert(front + back =~= front);
    } else {
        assert((front + back).drop_last() =~= front + back.drop_last());
        assert((front + back).last() == back.last());
        lemma_compute_root_concat(front, back.drop_last(), item_hash);
    }
}

/// Folds `path` over `item_hash`, first step first, and returns the hash
/// that it ends on.
pub fn compute_root_from_path(path: &MerklePath, item_hash: CryptoHash) -> (res: CryptoHash)
    ensures
        res == spec_compute_root(path@, item_hash),
{
    let mut res = item_hash;
    let mut i: usize = 0;
    while i < path.len()
        invariant
            i <= path.len(),
            res == spec_compute_root(path@.take(i as int), item_hash),
        decreases path.len() - i,
    {
        let item = &path[i];
        proof {
            assert(path@.take(i + 1).drop_last() =~= path@.take(i as int));
        }
        match item.direction {
            Direction::Left => {
                res = CryptoHash::combine_hash(&item.hash, &res);
            },
            Direction::Right => {
                res = CryptoHash::combine_hash(&res, &item.hash);
            },
        }
        i = i + 1;
    }
    proof {
        assert(path@.take(i as int) =~= path@);
    }
    res
}

/// Whether `path` leads from the leaf hash `item_hash` to `root`.
pub fn verify_hash(root: CryptoHash, path: &MerklePath, item_hash: CryptoHash) -> (ok: bool)
    ensures
        ok == spec_verify_hash(root, path@, item_hash),
{
    compute_root_from_path(path, item_hash) == root
}

/// Whether `path` leads from the leaf that holds `item` to `root`.
pub fn verify_path(root: CryptoHash, path: &MerklePath, item: i32) -> (ok: bool)
    ensures
        ok == spec_verify_path(root, path@, item),
{
    verify_hash(root, path, CryptoHash::hash(item))
}

} // verus!
