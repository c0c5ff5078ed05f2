use crate::error::TreeError;
use crate::hasher::Hasher;
use crate::merkle::{
    default_hash, default_leaf, sibling, sibling_hashes, subtree_hash, DEFAULT_LEAF_WIDTH,
};
use crate::path_map::PathMap;
use vstd::prelude::*;

verus! {

/// What the tree stores under a path.
pub enum Node<F, H: Hasher<F>> {
    /// Under a path shorter than the height: the hashes of the two children.
    InnerNode { left: H::Hash, right: H::Hash },
    /// Under a path as long as the height: the value of the leaf.
    Leaf { value: Vec<F> },
}

impl<F, H: Hasher<F>> Node<F, H> {
    /// The hash of the node: the two-to-one hash of the children's hashes, or
    /// the leaf hash of the value.
    pub open spec fn hash_spec(&self, hasher: &H) -> H::Hash {
        match self {
            Node::InnerNode { left, right } => hasher.two_to_one_spec(*left, *right),
            Node::Leaf { value } => hasher.leaf_hash_spec(value@),
        }
    }

    /// Computes the hash of the node.
    pub fn hash(&self, hasher: &H) -> (digest: H::Hash)
        ensures
            digest == self.hash_spec(hasher),
    {
        match self {
            Node::InnerNode { left, right } => hasher.two_to_one(*left, *right),
            Node::Leaf { value } => hasher.leaf_hash(value),
        }
    }
}

/// Copies a sequence of `Copy` items.
fn copy_vec<T: Copy>(items: &Vec<T>) -> (out: Vec<T>)
    ensures
        out@ == items@,
{
    let mut out: Vec<T> = Vec::new();
    let mut i: usize = 0;
    while i < items.len()
        invariant
            i <= items.len(),
            out@ == items@.take(i as int),
        decreases items.len() - i,
    {
        out.push(items[i]);
        i += 1;
    }
    out
}

/// The witness that a leaf belongs to a tree: the hashes of the siblings met
/// on the way from the leaf up to the root, the leaf's own sibling first.
pub struct MerkleProof<F, H: Hasher<F>> {
    pub siblings: Vec<H::Hash>,
}

/// `prefix` is `path` cut after some number of its bits: it names the node
/// at `path` or one of its ancestors.
pub open spec fn on_path(prefix: Seq<bool>, path: Seq<bool>) -> bool {
    prefix.len() <= path.len() && prefix == path.take(prefix.len() as int)
}

/// A sparse Merkle tree of a fixed height. Only the nodes on the way to a
/// written leaf are stored; every other node stands for a subtree of default
/// leaves, whose hash depends on its depth alone.
pub struct SparseMerkleTree<F, H: Hasher<F>> {
    height: usize,
    nodes: PathMap<Node<F, H>>,
    zero_hashes: Vec<H::Hash>,
    hasher: H,
}

/// Seen from outside, a tree is the map of the leaves that were written.
impl<F: Copy, H: Hasher<F>> View for SparseMerkleTree<F, H> {
    type V = Map<Seq<bool>, Seq<F>>;

    open spec fn view(&self) -> Map<Seq<bool>, Seq<F>> {
        self.leaves()
    }
}

impl<F: Copy, H: Hasher<F>> SparseMerkleTree<F, H> {
    /// The length of the path of a leaf.
    pub closed spec fn spec_height(&self) -> usize {
        self.height
    }

    /// The length of the path of a leaf.
    #[verifier::when_used_as_spec(spec_height)]
    pub fn height(&self) -> (height: usize)
        ensures
            height == self.spec_height(),
    {
        self.height
    }

    /// The hash functions and the zero element that the tree was made with.
    pub closed spec fn hasher(&self) -> H {
        self.hasher
    }

    /// The stored nodes, by path.
    pub closed spec fn nodes(&self) -> Map<Seq<bool>, Node<F, H>> {
        self.nodes@
    }

    /// The hashes of the subtrees of default leaves, by the depth of their
    /// top node.
    pub closed spec fn zero_hashes(&self) -> Seq<H::Hash> {
        self.zero_hashes@
    }

    /// The leaves that were written, by path, each with the value written
    /// last.
    pub open spec fn leaves(&self) -> Map<Seq<bool>, Seq<F>> {
        Map::new(
            |path: Seq<bool>|
                path.len() == self.height() && self.nodes().contains_key(path)
                    && self.nodes()[path] is Leaf,
            |path: Seq<bool>| self.nodes()[path]->value@,
        )
    }

    /// The hash of the node at `path` as the tree keeps it: that of the
    /// stored node or, where none is stored, the default for that depth.
    pub open spec fn node_hash(&self, path: Seq<bool>) -> H::Hash {
        if self.nodes().contains_key(path) {
            self.nodes()[path].hash_spec(&self.hasher())
        } else {
            self.zero_hashes()[path.len() as int]
        }
    }

    /// The default hashes are those of the leaf level upwards: the leaf hash
    /// of the default value at depth `height`, and above it the two-to-one
    /// hash of the entry one level down with itself.
    pub open spec fn zero_hashes_wf(&self) -> bool {
        &&& self.zero_hashes().len() == self.height() + 1
        &&& self.zero_hashes()[self.height() as int] == self.hasher().leaf_hash_spec(
            default_leaf(&self.hasher()),
        )
        &&& forall|d: int|
            0 <= d < self.height() ==> #[trigger] self.zero_hashes()[d]
                == self.hasher().two_to_one_spec(
                self.zero_hashes()[d + 1],
                self.zero_hashes()[d + 1],
            )
    }

    /// No stored path is longer than the height; leaves are stored under the
    /// paths of that length and inner nodes under the shorter ones.
    pub open spec fn shape_wf(&self) -> bool {
        forall|path: Seq<bool>| #[trigger]
            self.nodes().contains_key(path) ==> path.len() <= self.height() && (
            self.nodes()[path] is Leaf <==> path.len() == self.height())
    }

    /// The parent of a stored node is stored.
    pub open spec fn parents_wf(&self) -> bool {
        forall|path: Seq<bool>| #[trigger]
            self.nodes().contains_key(path) && path.len() > 0 ==> self.nodes().contains_key(
                path.drop_last(),
            )
    }

    /// The inner node stored at `path` holds the hashes of its two children
    /// as the tree keeps them.
    pub open spec fn inner_agrees(&self, path: Seq<bool>) -> bool {
        self.nodes()[path] matches Node::InnerNode { left, right } ==> left == self.node_hash(
            path.push(false),
        ) && right == self.node_hash(path.push(true))
    }

    /// Every stored inner node holds the hashes of its two children.
    pub open spec fn inner_wf(&self) -> bool {
        forall|path: Seq<bool>| #[trigger]
            self.nodes().contains_key(path) ==> self.inner_agrees(path)
    }

    /// The invariant of the tree.
    pub open spec fn wf(&self) -> bool {
        &&& self.zero_hashes_wf()
        &&& self.shape_wf()
        &&& self.parents_wf()
        &&& self.inner_wf()
    }

    /// The root hash as the tree keeps it.
    pub open spec fn root(&self) -> H::Hash {
        self.node_hash(Seq::empty())
    }

    /// A tree of the given height, all of whose leaves hold the default
    /// value.
    pub fn new(height: usize, hasher: H) -> (tree: Self)
        ensures
            tree.wf(),
            tree.height() == height,
            tree.hasher() == hasher,
            tree.nodes() == Map::<Seq<bool>, Node<F, H>>::empty(),
            tree@ == Map::<Seq<bool>, Seq<F>>::empty(),
            tree.root() == default_hash(&hasher, height as nat),
    {
        let mut value: Vec<F> = Vec::new();
        let mut k: usize = 0;
        while k < DEFAULT_LEAF_WIDTH
            invariant
                k <= DEFAULT_LEAF_WIDTH,
                value@.len() == k,
                forall|i: int| 0 <= i < k ==> value@[i] == hasher.zero_spec(),
            decreases DEFAULT_LEAF_WIDTH - k,
        {
            value.push(hasher.zero());
            k += 1;
        }
        assert(value@ =~= default_leaf(&hasher));
        let node: Node<F, H> = Node::Leaf { value };
        let mut h = node.hash(&hasher);
        // Built from the leaf level upwards, then turned over.
        let mut upwards: Vec<H::Hash> = Vec::new();
        upwards.push(h);
        let mut i: usize = 0;
        while i < height
            invariant
                i <= height,
                upwards@.len() == i + 1,
                h == upwards@[i as int],
                forall|j: int| 0 <= j <= i ==> upwards@[j] == default_hash(&hasher, j as nat),
            decreases height - i,
        {
            let node: Node<F, H> = Node::InnerNode { left: h, right: h };
            h = node.hash(&hasher);
            upwards.push(h);
            i += 1;
        }
        let mut zero_hashes: Vec<H::Hash> = Vec::new();
        let mut j: usize = upwards.len();
        while j > 0
            invariant
                j <= upwards@.len(),
                upwards@.len() == height + 1,
                zero_hashes@.len() == upwards@.len() - j,
                forall|d: int|
                    0 <= d < zero_hashes@.len() ==> zero_hashes@[d] == upwards@[height - d],
            decreases j,
        {
            j -= 1;
            zero_hashes.push(upwards[j]);
        }
        let tree = SparseMerkleTree { height, nodes: PathMap::new(), zero_hashes, hasher };
        assert(tree.zero_hashes_wf()) by {
            assert forall|d: int| 0 <= d < tree.height() implies #[trigger] tree.zero_hashes()[d]
                == tree.hasher().two_to_one_spec(
                tree.zero_hashes()[d + 1],
                tree.zero_hashes()[d + 1],
            ) by {
                assert(tree.zero_hashes()[d + 1] == default_hash(
                    &hasher,
                    (height - d - 1) as nat,
                ));
            }
        }
        tree
    }

    /// The default hash kept for a depth is the hash of a subtree of default
    /// leaves whose top node stands at that depth.
    pub proof fn lemma_zero_hashes(&self, depth: int)
        requires
            self.zero_hashes_wf(),
            0 <= depth <= self.height(),
        ensures
            self.zero_hashes()[depth] == default_hash(
                &self.hasher(),
                (self.height() - depth) as nat,
            ),
        decreases self.height() - depth,
    {
        if depth < self.height() {
            self.lemma_zero_hashes(depth + 1);
        }
    }

    /// Below a path that is not stored nothing is stored.
    proof fn lemma_children_absent(&self, path: Seq<bool>, bit: bool)
        requires
            self.parents_wf(),
            !self.nodes().contains_key(path),
        ensures
            !self.nodes().contains_key(path.push(bit)),
    {
        assert(path.push(bit).drop_last() == path);
    }

    /// The hash that the tree keeps for a node is the Merkle hash of the
    /// subtree below it, over the leaves that were written.
    pub proof fn lemma_node_hash(&self, path: Seq<bool>)
        requires
            self.wf(),
            path.len() <= self.height(),
        ensures
            self.node_hash(path) == subtree_hash(&self.hasher(), self@, self.height() as nat, path),
        decreases self.height() - path.len(),
    {
        if path.len() < self.height() {
            self.lemma_node_hash(path.push(false));
            self.lemma_node_hash(path.push(true));
            if !self.nodes().contains_key(path) {
                // Nothing is stored below: both children have the default
                // hash of their depth.
                self.lemma_children_absent(path, false);
                self.lemma_children_absent(path, true);
                assert(self.zero_hashes()[path.len() as int] == self.hasher().two_to_one_spec(
                    self.zero_hashes()[path.len() as int + 1],
                    self.zero_hashes()[path.len() as int + 1],
                ));
            }
        }
    }

    /// Lookup or default, for a tree whose nodes may be between two states
    /// of an update.
    fn node_hash_at(&self, path: &Vec<bool>) -> (digest: H::Hash)
        requires
            self.zero_hashes().len() == self.height() + 1,
            path@.len() <= self.height(),
        ensures
            digest == self.node_hash(path@),
    {
        match self.nodes.get(path) {
            Some(node) => node.hash(&self.hasher),
            None => self.zero_hashes[path.len()],
        }
    }

    /// The hash of the sibling of the node at `path`, under the same
    /// conditions as `node_hash_at`.
    fn sibling_hash_at(&self, path: &Vec<bool>) -> (digest: H::Hash)
        requires
            self.zero_hashes().len() == self.height() + 1,
            0 < path@.len() <= self.height(),
        ensures
            digest == self.node_hash(sibling(path@)),
    {
        let mut other = copy_vec(path);
        let last = other.len() - 1;
        let bit = other[last];
        other.set(last, !bit);
        assert(other@ == sibling(path@));
        self.node_hash_at(&other)
    }

    /// The hash of the node at `path`.
    pub fn get_node_hash(&self, path: &Vec<bool>) -> (digest: H::Hash)
        requires
            self.wf(),
            path@.len() <= self.height(),
        ensures
            digest == self.node_hash(path@),
            digest == subtree_hash(&self.hasher(), self@, self.height() as nat, path@),
    {
        proof {
            self.lemma_node_hash(path@);
        }
        self.node_hash_at(path)
    }

    /// The hash of the whole tree.
    pub fn get_root(&self) -> (digest: H::Hash)
        requires
            self.wf(),
        ensures
            digest == self.root(),
            digest == subtree_hash(
                &self.hasher(),
                self@,
                self.height() as nat,
                Seq::empty(),
            ),
    {
        let path: Vec<bool> = Vec::new();
        self.get_node_hash(&path)
    }

    /// The hash of the other child of the parent of the node at `path`.
    pub fn get_sibling_hash(&self, path: &Vec<bool>) -> (digest: H::Hash)
        requires
            self.wf(),
            0 < path@.len() <= self.height(),
        ensures
            digest == self.node_hash(sibling(path@)),
            digest == subtree_hash(
                &self.hasher(),
                self@,
                self.height() as nat,
                sibling(path@),
            ),
    {
        proof {
            self.lemma_node_hash(sibling(path@));
        }
        self.sibling_hash_at(path)
    }

    /// The node stored under `path`, if there is one.
    pub fn get_node(&self, path: &Vec<bool>) -> (found: Option<&Node<F, H>>)
        ensures
            match found {
                Some(node) => self.nodes().contains_key(path@) && *node == self.nodes()[path@],
                None => !self.nodes().contains_key(path@),
            },
    {
        self.nodes.get(path)
    }

    /// The value written last to the leaf at `path`.
    pub fn get_leaf(&self, path: &Vec<bool>) -> (found: Result<Vec<F>, TreeError>)
        requires
            self.wf(),
        ensures
            match found {
                Ok(value) => path@.len() == self.height() && self@.contains_key(path@) && value@
                    == self@[path@],
                Err(TreeError::InvalidPathLength) => path@.len() != self.height(),
                Err(TreeError::MissingOrWrongVariant) => path@.len() == self.height()
                    && !self@.contains_key(path@),
            },
    {
        if path.len() != self.height {
            return Err(TreeError::InvalidPathLength);
        }
        match self.nodes.get(path) {
            Some(Node::Leaf { value }) => Ok(copy_vec(value)),
            _ => Err(TreeError::MissingOrWrongVariant),
        }
    }

    /// The tree is what `before` becomes when `value` is written to the leaf
    /// at `path`: the nodes on the way from the root to the leaf are stored,
    /// the leaf holds `value`, every other stored node is as it was, and the
    /// invariant holds again.
    pub open spec fn is_update_of(&self, before: &Self, path: Seq<bool>, value: Seq<F>) -> bool {
        &&& self.wf()
        &&& self.height() == before.height()
        &&& self.hasher() == before.hasher()
        &&& self.zero_hashes() == before.zero_hashes()
        &&& forall|p: Seq<bool>|
            #![trigger self.nodes().contains_key(p)]
            #![trigger before.nodes().contains_key(p)]
            #![trigger on_path(p, path)]
            self.nodes().contains_key(p) <==> before.nodes().contains_key(p) || on_path(p, path)
        &&& forall|p: Seq<bool>|
            #![trigger self.nodes()[p]]
            #![trigger before.nodes()[p]]
            before.nodes().contains_key(p) && !on_path(p, path) ==> self.nodes()[p]
                == before.nodes()[p]
        &&& self.nodes()[path] is Leaf
        &&& self.nodes()[path]->value@ == value
    }

    /// The nodes while the leaf at `path` is being written: the leaf holds
    /// `value`, and the nodes on the way to it at depth `depth` or below
    /// have been stored anew and agree with their children. The nodes above
    /// are still those of `before`.
    spec fn mid_update(&self, before: &Self, path: Seq<bool>, value: Seq<F>, depth: nat) -> bool {
        &&& self.height() == before.height()
        &&& self.hasher() == before.hasher()
        &&& self.zero_hashes() == before.zero_hashes()
        &&& forall|p: Seq<bool>|
            #![trigger self.nodes().contains_key(p)]
            #![trigger before.nodes().contains_key(p)]
            #![trigger on_path(p, path)]
            self.nodes().contains_key(p) <==> before.nodes().contains_key(p) || (on_path(
                p,
                path,
            ) && p.len() >= depth)
        &&& forall|p: Seq<bool>|
            #![trigger self.nodes()[p]]
            #![trigger before.nodes()[p]]
            before.nodes().contains_key(p) && !(on_path(p, path) && p.len() >= depth)
                ==> self.nodes()[p] == before.nodes()[p]
        &&& self.nodes()[path] is Leaf
        &&& self.nodes()[path]->value@ == value
        &&& forall|p: Seq<bool>| #[trigger]
            on_path(p, path) && depth <= p.len() < path.len() ==> self.nodes()[p] is InnerNode
                && self.inner_agrees(p)
    }

    /// Storing the leaf is the first state of an update.
    proof fn lemma_update_start(&self, before: &Self, path: Seq<bool>, value: Vec<F>)
        requires
            before.wf(),
            path.len() == before.height(),
            self.height() == before.height(),
            self.hasher() == before.hasher(),
            self.zero_hashes() == before.zero_hashes(),
            self.nodes() == before.nodes().insert(path, Node::Leaf { value }),
        ensures
            self.mid_update(before, path, value@, path.len()),
    {
        assert(path.take(path.len() as int) == path);
        assert forall|p: Seq<bool>| on_path(p, path) && p.len() >= path.len() implies p
            == path by {}
    }

    /// Storing the parent of the lowest node stored anew, with the hashes of
    /// its two children, is the next state of an update.
    proof fn lemma_update_step(
        &self,
        prev: &Self,
        before: &Self,
        path: Seq<bool>,
        value: Seq<F>,
        depth: nat,
        node: Node<F, H>,
    )
        requires
            before.wf(),
            path.len() == before.height(),
            0 < depth <= path.len(),
            prev.mid_update(before, path, value, depth),
            self.height() == prev.height(),
            self.hasher() == prev.hasher(),
            self.zero_hashes() == prev.zero_hashes(),
            self.nodes() == prev.nodes().insert(path.take(depth - 1), node),
            node matches Node::InnerNode { left, right } && left == prev.node_hash(
                path.take(depth - 1).push(false),
            ) && right == prev.node_hash(path.take(depth - 1).push(true)),
        ensures
            self.mid_update(before, path, value, (depth - 1) as nat),
    {
        let parent = path.take(depth - 1);
        // Storing at `parent` changes the hash that is kept for no path of
        // another length.
        assert forall|p: Seq<bool>| p.len() != parent.len() implies self.node_hash(p)
            == prev.node_hash(p) by {}
        assert forall|p: Seq<bool>| on_path(p, path) && p.len() == depth - 1 implies p
            == parent by {}
        assert forall|p: Seq<bool>|
            #![trigger self.nodes().contains_key(p)]
            #![trigger before.nodes().contains_key(p)]
            #![trigger on_path(p, path)]
            self.nodes().contains_key(p) <==> before.nodes().contains_key(p) || (on_path(
                p,
                path,
            ) && p.len() >= depth - 1) by {
            assert(prev.nodes().contains_key(p) <==> before.nodes().contains_key(p) || (on_path(
                p,
                path,
            ) && p.len() >= depth));
        }
        assert forall|p: Seq<bool>| #[trigger]
            on_path(p, path) && depth - 1 <= p.len() < path.len() implies self.nodes()[p] is
            InnerNode && self.inner_agrees(p) by {}
    }

    /// A node below a path's prefix is on the path only if the prefix is.
    proof fn lemma_on_path_parent(p: Seq<bool>, path: Seq<bool>)
        requires
            p.len() > 0,
            on_path(p, path),
        ensures
            on_path(p.drop_last(), path),
    {
        assert(p.drop_last() =~= path.take(p.len() - 1));
    }

    /// When the root has been stored anew, the update is done.
    proof fn lemma_update_done(&self, before: &Self, path: Seq<bool>, value: Seq<F>)
        requires
            before.wf(),
            path.len() == before.height(),
            self.mid_update(before, path, value, 0),
        ensures
            self.is_update_of(before, path, value),
    {
        // A stored path that is not on the way to the leaf was stored
        // before, with the same node; one on the way is the leaf or one of
        // the inner nodes stored anew.
        assert forall|p: Seq<bool>| #[trigger]
            self.nodes().contains_key(p) implies p.len() <= self.height() && (
        self.nodes()[p] is Leaf <==> p.len() == self.height()) by {
            if on_path(p, path) && p.len() == path.len() {
                assert(p == path);
            }
        }
        assert forall|p: Seq<bool>| #[trigger]
            self.nodes().contains_key(p) && p.len() > 0 implies self.nodes().contains_key(
            p.drop_last(),
        ) by {
            if on_path(p, path) {
                Self::lemma_on_path_parent(p, path);
            }
        }
        assert forall|p: Seq<bool>| #[trigger]
            self.nodes().contains_key(p) implies self.inner_agrees(p) by {
            if !on_path(p, path) {
                // Neither child is on the way, so both are kept as before.
                assert forall|bit: bool|
                    self.node_hash(#[trigger] p.push(bit)) == before.node_hash(p.push(bit)) by {
                    let child = p.push(bit);
                    assert(child.drop_last() == p);
                    if on_path(child, path) {
                        Self::lemma_on_path_parent(child, path);
                    }
                    assert(self.nodes().contains_key(child) <==> before.nodes().contains_key(
                        child,
                    ));
                }
            }
        }
    }

    /// Writes `value` to the leaf at `path` and stores anew every node on
    /// the way from the leaf up to the root, each with the hashes of its two
    /// children. A path of another length than the height is turned down
    /// before anything is stored.
    pub fn update(&mut self, path: &Vec<bool>, value: Vec<F>) -> (done: Result<(), TreeError>)
        requires
            old(self).wf(),
        ensures
            final(self).wf(),
            done is Ok <==> path@.len() == old(self).height(),
            done is Err ==> done == Err::<(), TreeError>(TreeError::InvalidPathLength)
                && *final(self) == *old(self),
            done is Ok ==> final(self).is_update_of(old(self), path@, value@),
            done is Ok ==> final(self)@ == old(self)@.insert(path@, value@),
    {
        if path.len() != self.height {
            return Err(TreeError::InvalidPathLength);
        }
        let ghost before = *self;
        let ghost written = value@;
        self.nodes.insert(path, Node::Leaf { value });
        proof {
            self.lemma_update_start(&before, path@, value);
        }
        let mut below = copy_vec(path);
        while below.len() > 0
            invariant
                before.wf(),
                path@.len() == before.height(),
                below@.len() <= path@.len(),
                below@ == path@.take(below@.len() as int),
                self.mid_update(&before, path@, written, below@.len()),
            decreases below.len(),
        {
            let ghost prev = *self;
            let ghost depth = below@.len();
            let hash = self.node_hash_at(&below);
            let other = self.sibling_hash_at(&below);
            let bit = below[below.len() - 1];
            let node: Node<F, H> = if bit {
                Node::InnerNode { left: other, right: hash }
            } else {
                Node::InnerNode { left: hash, right: other }
            };
            assert(below@ == path@.take(depth - 1).push(bit));
            below.pop();
            assert(below@ == path@.take(depth - 1));
            self.nodes.insert(&below, node);
            proof {
                self.lemma_update_step(&prev, &before, path@, written, depth, node);
            }
        }
        proof {
            self.lemma_update_done(&before, path@, written);
            self.lemma_leaves_after_update(&before, path@, written);
        }
        Ok(())
    }

    /// The proof that the leaf at `path` belongs to the tree: the hash of
    /// the sibling at each depth, from that of the leaf up to depth 1.
    pub fn prove(&self, path: &Vec<bool>) -> (proof: Result<MerkleProof<F, H>, TreeError>)
        requires
            self.wf(),
        ensures
            proof is Ok <==> path@.len() == self.height(),
            proof matches Err(reason) ==> reason == TreeError::InvalidPathLength,
            proof matches Ok(witness) ==> {
                &&& witness.siblings@.len() == self.height()
                &&& witness.siblings@ == sibling_hashes(&self.hasher(), self@, path@)
                &&& forall|i: int|
                    0 <= i < self.height() ==> #[trigger] witness.siblings@[i] == self.node_hash(
                        sibling(path@.take(self.height() - i)),
                    )
            },
    {
        if path.len() != self.height {
            return Err(TreeError::InvalidPathLength);
        }
        let mut below = copy_vec(path);
        let mut siblings: Vec<H::Hash> = Vec::new();
        while below.len() > 0
            invariant
                self.wf(),
                path@.len() == self.height(),
                below@.len() <= path@.len(),
                below@ == path@.take(below@.len() as int),
                siblings@.len() == path@.len() - below@.len(),
                forall|i: int|
                    0 <= i < siblings@.len() ==> #[trigger] siblings@[i] == self.node_hash(
                        sibling(path@.take(path@.len() - i)),
                    ),
            decreases below.len(),
        {
            let other = self.sibling_hash_at(&below);
            siblings.push(other);
            below.pop();
        }
        proof {
            assert forall|i: int| 0 <= i < siblings@.len() implies siblings@[i] == subtree_hash(
                &self.hasher(),
                self@,
                path@.len(),
                sibling(path@.take(path@.len() - i)),
            ) by {
                self.lemma_node_hash(sibling(path@.take(path@.len() - i)));
            }
        }
        Ok(MerkleProof { siblings })
    }

    /// Writing a leaf adds it to the written leaves, in place of what was
    /// written there, and changes no other.
    pub proof fn lemma_leaves_after_update(&self, before: &Self, path: Seq<bool>, value: Seq<F>)
        requires
            before.wf(),
            path.len() == before.height(),
            self.is_update_of(before, path, value),
        ensures
            self@ == before@.insert(path, value),
    {
        assert(path.take(path.len() as int) == path);
        assert forall|p: Seq<bool>| p.len() == path.len() && on_path(p, path) implies p
            == path by {}
    }
}

} // verus!
