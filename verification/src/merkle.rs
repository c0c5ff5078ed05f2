use crate::hasher::Hasher;
use vstd::prelude::*;

verus! {

/// Number of field elements in the value of a leaf that was never written.
pub const DEFAULT_LEAF_WIDTH: usize = 4;

/// The path of the other child of the same parent: `path` with its last bit
/// flipped.
pub open spec fn sibling(path: Seq<bool>) -> Seq<bool>
    recommends
        path.len() > 0,
{
    path.drop_last().push(!path.last())
}

/// The value of a leaf that was never written: zeros.
pub open spec fn default_leaf<F, H: Hasher<F>>(hasher: &H) -> Seq<F> {
    Seq::new(DEFAULT_LEAF_WIDTH as nat, |i: int| hasher.zero_spec())
}

/// The hash of a subtree with `levels` levels of inner nodes above its
/// leaves, all of whose leaves hold the default value.
pub open spec fn default_hash<F, H: Hasher<F>>(hasher: &H, levels: nat) -> H::Hash
    decreases levels,
{
    if levels == 0 {
        hasher.leaf_hash_spec(default_leaf(hasher))
    } else {
        let below = default_hash(hasher, (levels - 1) as nat);
        hasher.two_to_one_spec(below, below)
    }
}

/// The value of the leaf at `path`: what was written there, or the default.
pub open spec fn leaf_at<F, H: Hasher<F>>(
    hasher: &H,
    leaves: Map<Seq<bool>, Seq<F>>,
    path: Seq<bool>,
) -> Seq<F> {
    if leaves.contains_key(path) {
        leaves[path]
    } else {
        default_leaf(hasher)
    }
}

/// The Merkle hash of the subtree below `path` in the full tree of the given
/// height whose written leaves are `leaves`: the leaf hash of the value at
/// depth `height`, the two-to-one hash of the two children above it.
pub open spec fn subtree_hash<F, H: Hasher<F>>(
    hasher: &H,
    leaves: Map<Seq<bool>, Seq<F>>,
    height: nat,
    path: Seq<bool>,
) -> H::Hash
    decreases height - path.len(),
{
    if path.len() >= height {
        hasher.leaf_hash_spec(leaf_at(hasher, leaves, path))
    } else {
        hasher.two_to_one_spec(
            subtree_hash(hasher, leaves, height, path.push(false)),
            subtree_hash(hasher, leaves, height, path.push(true)),
        )
    }
}

/// The siblings met on the way from the leaf at `path` up to the root, the
/// leaf's own sibling first.
pub open spec fn sibling_hashes<F, H: Hasher<F>>(
    hasher: &H,
    leaves: Map<Seq<bool>, Seq<F>>,
    path: Seq<bool>,
) -> Seq<H::Hash> {
    Seq::new(
        path.len(),
        |i: int| subtree_hash(hasher, leaves, path.len(), sibling(path.take(path.len() - i))),
    )
}

/// What a verifier computes from the hash of a node at `path` and the first
/// `steps` entries of `siblings`: at each step the last bit of the path says
/// on which side the node stands, and the path loses that bit.
pub open spec fn fold_siblings<F, H: Hasher<F>>(
    hasher: &H,
    start: H::Hash,
    path: Seq<bool>,
    siblings: Seq<H::Hash>,
    steps: nat,
) -> H::Hash
    decreases steps,
{
    if steps == 0 {
        start
    } else {
        let below = fold_siblings(hasher, start, path, siblings, (steps - 1) as nat);
        let other = siblings[steps - 1];
        if path[path.len() - steps] {
            hasher.two_to_one_spec(other, below)
        } else {
            hasher.two_to_one_spec(below, other)
        }
    }
}

/// The root that a verifier computes from a leaf's value, its path and a
/// proof.
pub open spec fn root_from_proof<F, H: Hasher<F>>(
    hasher: &H,
    value: Seq<F>,
    path: Seq<bool>,
    siblings: Seq<H::Hash>,
) -> H::Hash {
    fold_siblings(hasher, hasher.leaf_hash_spec(value), path, siblings, siblings.len())
}

} // verus!
