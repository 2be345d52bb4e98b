//! The tree builder: the root of the hash tree over a sequence of items and
//! one inclusion path per item.

use crate::hash::CryptoHash;
use crate::path::{
    lemma_compute_root_concat, spec_compute_root, spec_verify_path, Direction, MerklePath,
    MerklePathItem,
};
use vstd::prelude::*;

verus! {

/// The lowest level of the tree: the hash of each item, in order.
pub open spec fn spec_leaves(items: Seq<i32>) -> Seq<CryptoHash> {
    Seq::new(items.len(), |i: int| CryptoHash::spec_hash(items[i]))
}

/// The node above the nodes `2k` and `2k + 1` of `level`: their combination
/// where both exist, the node `2k` itself where it stands alone.
pub open spec fn spec_parent(level: Seq<CryptoHash>, k: int) -> CryptoHash {
    if 2 * k + 1 < level.len() {
        CryptoHash::spec_combine_hash(level[2 * k], level[2 * k + 1])
    } else {
        level[2 * k]
    }
}

/// The level above `level`: one parent for each pair, and the last node
/// carried over unchanged where the count is odd.
pub open spec fn spec_next_level(level: Seq<CryptoHash>) -> Seq<CryptoHash> {
    Seq::new(((level.len() + 1) / 2) as nat, |k: int| spec_parent(level, k))
}

/// The single hash that is left when `level` is reduced level by level.
pub open spec fn spec_root_of(level: Seq<CryptoHash>) -> CryptoHash
    decreases level.len(),
{
    if level.len() <= 1 {
        level[0]
    } else {
        spec_root_of(spec_next_level(level))
    }
}

/// What the node `index` of `level` adds to a path at this level: its
/// partner in the pair, or nothing where it stands alone.
pub open spec fn spec_sibling(level: Seq<CryptoHash>, index: int) -> Seq<MerklePathItem> {
    if index % 2 == 1 {
        seq![MerklePathItem { hash: level[index - 1], direction: Direction::Left }]
    } else if index + 1 < level.len() {
        seq![MerklePathItem { hash: level[index + 1], direction: Direction::Right }]
    } else {
        Seq::empty()
    }
}

/// The path from the node `index` of `level` up to the root.
pub open spec fn spec_path_of(level: Seq<CryptoHash>, index: int) -> Seq<MerklePathItem>
    decreases level.len(),
{
    if level.len() <= 1 {
        Seq::empty()
    } else {
        spec_sibling(level, index) + spec_path_of(spec_next_level(level), index / 2)
    }
}

/// The root for `items`: the empty hash where there are none.
pub open spec fn spec_root(items: Seq<i32>) -> CryptoHash {
    if items.len() == 0 {
        CryptoHash::spec_new()
    } else {
        spec_root_of(spec_leaves(items))
    }
}

/// The inclusion path of the item at `index`.
pub open spec fn spec_path(items: Seq<i32>, index: int) -> Seq<MerklePathItem> {
    spec_path_of(spec_leaves(items), index)
}

/// The inclusion paths of all items, in the order of the items.
pub open spec fn spec_paths(items: Seq<i32>) -> Seq<Seq<MerklePathItem>> {
    Seq::new(items.len(), |i: int| spec_path(items, i))
}

/// The steps that each of `paths` holds.
pub open spec fn spec_path_views(paths: Seq<MerklePath>) -> Seq<Seq<MerklePathItem>> {
    Seq::new(paths.len(), |i: int| paths[i]@)
}

/// One step up: the sibling step of a node leads to the node's parent.
pub proof fn lemma_sibling_reaches_parent(level: Seq<CryptoHash>, index: int)
    requires
        0 <= index < level.len(),
    ensures
        spec_compute_root(spec_sibling(level, index), level[index]) == spec_parent(
            level,
            index / 2,
        ),
{
    let sibling = spec_sibling(level, index);
    if sibling.len() == 1 {
        assert(sibling.drop_last().len() == 0);
        reveal_with_fuel(spec_compute_root, 2);
    }
}

/// The path of a node leads from that node to the root of its level.
pub proof fn lemma_path_reaches_root(level: Seq<CryptoHash>, index: int)
    requires
        0 <= index < level.len(),
    ensures
        spec_compute_root(spec_path_of(level, index), level[index]) == spec_root_of(level),
    decreases level.len(),
{
    if level.len() > 1 {
        let next = spec_next_level(level);
        lemma_sibling_reaches_parent(level, index);
        lemma_compute_root_concat(
            spec_sibling(level, index),
            spec_path_of(next, index / 2),
            level[index],
        );
        lemma_path_reaches_root(next, index / 2);
    }
}

/// Whether level `d` has more than one node and level `d + 1` is the one
/// above it.
spec fn spec_linked(levels: Seq<Vec<CryptoHash>>, d: int) -> bool {
    levels[d]@.len() > 1 && levels[d + 1]@ == spec_next_level(levels[d]@)
}

/// The levels of one tree, lowest first: each but the last has more than
/// one node and the next one above it, and the last is the root alone.
spec fn spec_levels_wf(levels: Seq<Vec<CryptoHash>>) -> bool {
    &&& levels.len() >= 1
    &&& levels.last()@.len() == 1
    &&& forall|d: int| 0 <= d < levels.len() - 1 ==> #[trigger] spec_linked(levels, d)
}

/// Hashes each item.
fn leaf_hashes(arr: &[i32]) -> (level: Vec<CryptoHash>)
    ensures
        level@ == spec_leaves(arr@),
{
    let mut level: Vec<CryptoHash> = Vec::new();
    let mut i: usize = 0;
    while i < arr.len()
        invariant
            i <= arr.len(),
            level@ == spec_leaves(arr@.take(i as int)),
        decreases arr.len() - i,
    {
        level.push(CryptoHash::hash(arr[i]));
        i = i + 1;
        proof {
            assert(level@ =~= spec_leaves(arr@.take(i as int)));
        }
    }
    proof {
        assert(arr@.take(i as int) =~= arr@);
    }
    level
}

/// Reduces one level to the level above it.
fn next_level(level: &Vec<CryptoHash>) -> (next: Vec<CryptoHash>)
    ensures
        next@ == spec_next_level(level@),
{
    let pairs: usize = level.len() / 2;
    let mut next: Vec<CryptoHash> = Vec::new();
    let mut k: usize = 0;
    while k < pairs
        invariant
            pairs == level.len() / 2,
            k <= pairs,
            next@ == Seq::new(k as nat, |j: int| spec_parent(level@, j)),
        decreases pairs - k,
    {
        next.push(CryptoHash::combine_hash(&level[2 * k], &level[2 * k + 1]));
        k = k + 1;
        proof {
            assert(next@ =~= Seq::new(k as nat, |j: int| spec_parent(level@, j)));
        }
    }
    if level.len() % 2 == 1 {
        next.push(level[level.len() - 1]);
    }
    proof {
        assert(next@ =~= spec_next_level(level@));
    }
    next
}

/// Collects the siblings of the leaf `index` on its way up through
/// `levels`.
fn path_of(levels: &Vec<Vec<CryptoHash>>, index: usize) -> (path: MerklePath)
    requires
        spec_levels_wf(levels@),
        index < levels@[0]@.len(),
    ensures
        path@ == spec_path_of(levels@[0]@, index as int),
{
    let mut path: MerklePath = Vec::new();
    let mut at: usize = index;
    let mut d: usize = 0;
    while d + 1 < levels.len()
        invariant
            spec_levels_wf(levels@),
            d < levels.len(),
            at < levels@[d as int]@.len(),
            path@ + spec_path_of(levels@[d as int]@, at as int) == spec_path_of(
                levels@[0]@,
                index as int,
            ),
        decreases levels.len() - d,
    {
        let level = &levels[d];
        let ghost before = path@;
        proof {
            assert(spec_linked(levels@, d as int));
        }
        if at % 2 == 1 {
            path.push(MerklePathItem { hash: level[at - 1], direction: Direction::Left });
        } else if at + 1 < level.len() {
            path.push(MerklePathItem { hash: level[at + 1], direction: Direction::Right });
        }
        proof {
            let rest = spec_path_of(levels@[d + 1]@, at as int / 2);
            assert(path@ =~= before + spec_sibling(level@, at as int));
            assert(path@ + rest =~= before + (spec_sibling(level@, at as int) + rest));
        }
        at = at / 2;
        d = d + 1;
    }
    proof {
        assert(path@ + Seq::<MerklePathItem>::empty() =~= path@);
    }
    path
}

/// Builds the tree over `arr` and returns its root with one inclusion path
/// for each item, in the order of the items. Each path leads from its own
/// item to the root.
pub fn merklize(arr: &[i32]) -> (res: (CryptoHash, Vec<MerklePath>))
    ensures
        res.0 == spec_root(arr@),
        res.1@.len() == arr@.len(),
        spec_path_views(res.1@) == spec_paths(arr@),
        forall|i: int|
            0 <= i < arr@.len() ==> spec_verify_path(res.0, (#[trigger] res.1@[i])@, arr@[i]),
{
    if arr.len() == 0 {
        let paths: Vec<MerklePath> = Vec::new();
        proof {
            assert(spec_path_views(paths@) =~= spec_paths(arr@));
        }
        return (CryptoHash::default(), paths);
    }
    let mut levels: Vec<Vec<CryptoHash>> = Vec::new();
    let leaves = leaf_hashes(arr);
    let mut width: usize = leaves.len();
    levels.push(leaves);
    while width > 1
        invariant
            levels@.len() >= 1,
            levels@[0]@ == spec_leaves(arr@),
            width == levels@.last()@.len(),
            width >= 1,
            forall|d: int| 0 <= d < levels@.len() - 1 ==> #[trigger] spec_linked(levels@, d),
            spec_root_of(levels@.last()@) == spec_root_of(spec_leaves(arr@)),
        decreases width,
    {
        let ghost below = levels@;
        let next = next_level(&levels[levels.len() - 1]);
        width = next.len();
        levels.push(next);
        proof {
            assert forall|d: int| 0 <= d < levels@.len() - 1 implies #[trigger] spec_linked(
                levels@,
                d,
            ) by {
                if d < below.len() - 1 {
                    assert(spec_linked(below, d));
                }
            }
        }
    }
    let root = levels[levels.len() - 1][0];
    let mut paths: Vec<MerklePath> = Vec::new();
    let mut i: usize = 0;
    while i < arr.len()
        invariant
            spec_levels_wf(levels@),
            levels@[0]@ == spec_leaves(arr@),
            i <= arr.len(),
            paths@.len() == i,
            forall|j: int| 0 <= j < i ==> (#[trigger] paths@[j])@ == spec_path(arr@, j),
        decreases arr.len() - i,
    {
        let path = path_of(&levels, i);
        paths.push(path);
        i = i + 1;
    }
    proof {
        assert forall|j: int| 0 <= j < arr@.len() implies spec_verify_path(
            root,
            (#[trigger] paths@[j])@,
            arr@[j],
        ) by {
            lemma_path_reaches_root(spec_leaves(arr@), j);
        }
        assert(spec_path_views(paths@) =~= spec_paths(arr@));
    }
    (root, paths)
}

} // verus!
