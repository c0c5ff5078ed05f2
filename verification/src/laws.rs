use crate::hasher::Hasher;
use crate::merkle::{
    default_hash, fold_siblings, leaf_at, root_from_proof, sibling, sibling_hashes, subtree_hash,
};
use crate::tree::{on_path, Node, SparseMerkleTree};
use vstd::prelude::*;

verus! {

/// A leaf that was written is read back: after `value` is written to the
/// leaf at `path`, that leaf is among the written leaves and holds `value`.
pub proof fn law_round_trip<F: Copy, H: Hasher<F>>(
    before: &SparseMerkleTree<F, H>,
    after: &SparseMerkleTree<F, H>,
    path: Seq<bool>,
    value: Seq<F>,
)
    requires
        before.wf(),
        path.len() == before.height(),
        after.is_update_of(before, path, value),
    ensures
        after@.contains_key(path),
        after@[path] == value,
{
    after.lemma_leaves_after_update(before, path, value);
}

/// Folding the first `steps` sibling hashes of a leaf's proof onto the hash
/// of the leaf gives the hash of the leaf's ancestor `steps` levels up.
pub proof fn lemma_fold_siblings<F, H: Hasher<F>>(
    hasher: &H,
    leaves: Map<Seq<bool>, Seq<F>>,
    path: Seq<bool>,
    steps: nat,
)
    requires
        steps <= path.len(),
    ensures
        fold_siblings(
            hasher,
            hasher.leaf_hash_spec(leaf_at(hasher, leaves, path)),
            path,
            sibling_hashes(hasher, leaves, path),
            steps,
        ) == subtree_hash(hasher, leaves, path.len(), path.take(path.len() - steps)),
    decreases steps,
{
    if steps == 0 {
        assert(path.take(path.len() as int) == path);
    } else {
        lemma_fold_siblings(hasher, leaves, path, (steps - 1) as nat);
        let parent = path.take(path.len() - steps);
        let child = path.take(path.len() - steps + 1);
        let bit = path[path.len() - steps];
        assert(child == parent.push(bit));
        assert(sibling(child) == parent.push(!bit));
        assert(sibling_hashes(hasher, leaves, path)[steps - 1] == subtree_hash(
            hasher,
            leaves,
            path.len(),
            sibling(child),
        ));
    }
}

/// A proof is sound: folding the proof of the leaf at `path` onto the value
/// of that leaf, by the bits of `path`, gives the root of the tree.
pub proof fn law_proof_soundness<F: Copy, H: Hasher<F>>(
    tree: &SparseMerkleTree<F, H>,
    path: Seq<bool>,
)
    requires
        tree.wf(),
        path.len() == tree.height(),
    ensures
        root_from_proof(
            &tree.hasher(),
            leaf_at(&tree.hasher(), tree@, path),
            path,
            sibling_hashes(&tree.hasher(), tree@, path),
        ) == tree.root(),
{
    lemma_fold_siblings(&tree.hasher(), tree@, path, path.len());
    assert(path.take(0) == Seq::<bool>::empty());
    tree.lemma_node_hash(Seq::empty());
}

/// After `value` is written to the leaf at `path`, folding the proof of that
/// leaf onto `value` gives the new root.
pub proof fn law_proof_after_update<F: Copy, H: Hasher<F>>(
    before: &SparseMerkleTree<F, H>,
    after: &SparseMerkleTree<F, H>,
    path: Seq<bool>,
    value: Seq<F>,
)
    requires
        before.wf(),
        path.len() == before.height(),
        after.is_update_of(before, path, value),
    ensures
        root_from_proof(
            &after.hasher(),
            value,
            path,
            sibling_hashes(&after.hasher(), after@, path),
        ) == after.root(),
{
    law_round_trip(before, after, path, value);
    law_proof_soundness(after, path);
}

/// The root of a tree in which nothing was written is the default hash kept
/// for depth 0, and it depends on the height and the hasher alone: two such
/// trees of one height, made with the same hasher, have the same root.
pub proof fn law_default_root<F: Copy, H: Hasher<F>>(
    one: &SparseMerkleTree<F, H>,
    other: &SparseMerkleTree<F, H>,
)
    requires
        one.wf(),
        other.wf(),
        one.nodes() == Map::<Seq<bool>, Node<F, H>>::empty(),
        other.nodes() == Map::<Seq<bool>, Node<F, H>>::empty(),
        one.height() == other.height(),
        one.hasher() == other.hasher(),
    ensures
        one.root() == one.zero_hashes()[0],
        one.root() == default_hash(&one.hasher(), one.height() as nat),
        one.root() == other.root(),
{
    one.lemma_zero_hashes(0);
    other.lemma_zero_hashes(0);
}

/// An update is local: writing the leaf at `path` changes the hash of no
/// node but that leaf and its ancestors.
pub proof fn law_update_locality<F: Copy, H: Hasher<F>>(
    before: &SparseMerkleTree<F, H>,
    after: &SparseMerkleTree<F, H>,
    path: Seq<bool>,
    value: Seq<F>,
    elsewhere: Seq<bool>,
)
    requires
        before.wf(),
        path.len() == before.height(),
        after.is_update_of(before, path, value),
        !on_path(elsewhere, path),
    ensures
        after.node_hash(elsewhere) == before.node_hash(elsewhere),
{
}

/// Writing the same value to the same leaf a second time changes no hash,
/// and so not the root.
pub proof fn law_update_idempotent<F: Copy, H: Hasher<F>>(
    before: &SparseMerkleTree<F, H>,
    once: &SparseMerkleTree<F, H>,
    twice: &SparseMerkleTree<F, H>,
    path: Seq<bool>,
    value: Seq<F>,
)
    requires
        before.wf(),
        path.len() == before.height(),
        once.is_update_of(before, path, value),
        twice.is_update_of(once, path, value),
    ensures
        twice@ == once@,
        twice.root() == once.root(),
        forall|node: Seq<bool>|
            node.len() <= once.height() ==> #[trigger] twice.node_hash(node) == once.node_hash(
                node,
            ),
{
    once.lemma_leaves_after_update(before, path, value);
    twice.lemma_leaves_after_update(once, path, value);
    assert(twice@ =~= once@);
    assert forall|node: Seq<bool>| node.len() <= once.height() implies #[trigger]
        twice.node_hash(node) == once.node_hash(node) by {
        once.lemma_node_hash(node);
        twice.lemma_node_hash(node);
    }
}

} // verus!
