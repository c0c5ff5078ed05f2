use sparse_merkle_tree::error::TreeError;
use sparse_merkle_tree::hasher::FnHasher;
use sparse_merkle_tree::tree::{Node, SparseMerkleTree};

type Leaf = fn(&Vec<u64>) -> u64;
type Pair = fn(u64, u64) -> u64;
type Toy = FnHasher<u64, u64, Leaf, Pair>;
type Tree = SparseMerkleTree<u64, Toy>;

fn mix(x: u64) -> u64 {
    let mut z = x.wrapping_add(0x9e37_79b9_7f4a_7c15);
    z = (z ^ (z >> 30)).wrapping_mul(0xbf58_476d_1ce4_e5b9);
    z = (z ^ (z >> 27)).wrapping_mul(0x94d0_49bb_1331_11eb);
    z ^ (z >> 31)
}

fn h1(value: &Vec<u64>) -> u64 {
    let mut acc: u64 = 1;
    for x in value {
        acc = mix(acc ^ mix(*x));
    }
    acc
}

fn h2(left: u64, right: u64) -> u64 {
    mix(mix(left).wrapping_mul(3) ^ mix(right).wrapping_add(2))
}

fn toy() -> Toy {
    FnHasher::new(0, h1 as Leaf, h2 as Pair)
}

fn default_hash() -> u64 {
    h1(&vec![0u64; 4])
}

/// Every path of length 0 to `height`.
fn all_paths(height: usize) -> Vec<Vec<bool>> {
    let mut out = vec![vec![]];
    let mut level: Vec<Vec<bool>> = vec![vec![]];
    for _ in 0..height {
        let mut next = vec![];
        for p in &level {
            for bit in [false, true] {
                let mut q = p.clone();
                q.push(bit);
                next.push(q);
            }
        }
        out.extend(next.iter().cloned());
        level = next;
    }
    out
}

fn fold(value: &Vec<u64>, path: &Vec<bool>, siblings: &Vec<u64>) -> u64 {
    let mut current = h1(value);
    for (i, sibling) in siblings.iter().enumerate() {
        current = if path[path.len() - 1 - i] {
            h2(*sibling, current)
        } else {
            h2(current, *sibling)
        };
    }
    current
}

#[test]
fn height_two_scenario() {
    let d = default_hash();
    let mut tree = Tree::new(2, toy());
    assert_eq!(tree.get_root(), h2(h2(d, d), h2(d, d)));

    let v1 = vec![7u64, 8, 9, 10];
    assert_eq!(tree.update(&vec![false, true], v1.clone()), Ok(()));
    assert_eq!(tree.get_leaf(&vec![false, true]), Ok(v1.clone()));
    assert_eq!(tree.get_node_hash(&vec![false]), h2(d, h1(&v1)));
    assert_eq!(tree.get_root(), h2(h2(d, h1(&v1)), h2(d, d)));
    let proof = tree.prove(&vec![false, true]).ok().unwrap();
    assert_eq!(proof.siblings, vec![d, h2(d, d)]);
}

#[test]
fn height_zero_boundary() {
    let mut tree = Tree::new(0, toy());
    assert_eq!(tree.height(), 0);
    assert_eq!(tree.get_root(), default_hash());
    let v = vec![5u64, 6];
    assert_eq!(tree.update(&vec![], v.clone()), Ok(()));
    assert_eq!(tree.get_root(), h1(&v));
    assert_eq!(tree.get_leaf(&vec![]), Ok(v));
    let proof = tree.prove(&vec![]).ok().unwrap();
    assert!(proof.siblings.is_empty());
}

#[test]
fn fresh_tree_has_default_hash_at_every_depth() {
    let d3 = default_hash();
    let d2 = h2(d3, d3);
    let d1 = h2(d2, d2);
    let d0 = h2(d1, d1);
    let tree = Tree::new(3, toy());
    assert_eq!(tree.get_root(), d0);
    assert_eq!(tree.get_node_hash(&vec![]), d0);
    assert_eq!(tree.get_node_hash(&vec![true]), d1);
    assert_eq!(tree.get_node_hash(&vec![false, true]), d2);
    assert_eq!(tree.get_node_hash(&vec![true, false, true]), d3);
    assert_eq!(tree.get_sibling_hash(&vec![true, false, true]), d3);
    assert_eq!(tree.get_sibling_hash(&vec![false]), d1);
}

#[test]
fn fresh_trees_of_one_height_share_their_root() {
    let a = Tree::new(17, toy());
    let b = Tree::new(17, toy());
    assert_eq!(a.get_root(), b.get_root());
    let c = Tree::new(16, toy());
    assert_ne!(a.get_root(), c.get_root());
}

#[test]
fn written_leaves_are_read_back() {
    let mut tree = Tree::new(3, toy());
    let paths = all_paths(3);
    let leaves: Vec<&Vec<bool>> = paths.iter().filter(|p| p.len() == 3).collect();
    for (i, path) in leaves.iter().enumerate() {
        let value = vec![i as u64, 100 + i as u64];
        assert_eq!(tree.update(path, value.clone()), Ok(()));
        assert_eq!(tree.get_leaf(path), Ok(value));
    }
    for (i, path) in leaves.iter().enumerate() {
        assert_eq!(tree.get_leaf(path), Ok(vec![i as u64, 100 + i as u64]));
    }
}

#[test]
fn later_value_replaces_earlier() {
    let mut tree = Tree::new(2, toy());
    let path = vec![true, false];
    tree.update(&path, vec![1]).unwrap();
    let first_root = tree.get_root();
    tree.update(&path, vec![2]).unwrap();
    assert_eq!(tree.get_leaf(&path), Ok(vec![2]));
    assert_ne!(tree.get_root(), first_root);
    let d = default_hash();
    assert_eq!(tree.get_root(), h2(h2(d, d), h2(h1(&vec![2]), d)));
}

#[test]
fn proof_folds_to_root() {
    let mut tree = Tree::new(4, toy());
    let written = [
        (vec![false, false, true, true], vec![1u64, 2, 3, 4]),
        (vec![true, false, true, false], vec![9u64]),
        (vec![true, false, true, true], vec![]),
    ];
    for (path, value) in &written {
        tree.update(path, value.clone()).unwrap();
        let proof = tree.prove(path).ok().unwrap();
        assert_eq!(proof.siblings.len(), 4);
        assert_eq!(fold(value, path, &proof.siblings), tree.get_root());
    }
    for (path, value) in &written {
        let proof = tree.prove(path).ok().unwrap();
        assert_eq!(fold(value, path, &proof.siblings), tree.get_root());
        assert_ne!(fold(&vec![77], path, &proof.siblings), tree.get_root());
    }
    // A leaf that nobody wrote holds the default value.
    let untouched = vec![false, true, true, false];
    let proof = tree.prove(&untouched).ok().unwrap();
    assert_eq!(fold(&vec![0u64; 4], &untouched, &proof.siblings), tree.get_root());
}

#[test]
fn proof_lists_siblings_from_the_leaf_upwards() {
    let mut tree = Tree::new(3, toy());
    tree.update(&vec![false, false, false], vec![1]).unwrap();
    tree.update(&vec![true, true, false], vec![2]).unwrap();
    let path = vec![true, true, true];
    let proof = tree.prove(&path).ok().unwrap();
    assert_eq!(
        proof.siblings,
        vec![
            tree.get_node_hash(&vec![true, true, false]),
            tree.get_node_hash(&vec![true, false]),
            tree.get_node_hash(&vec![false]),
        ]
    );
    assert_eq!(proof.siblings[0], h1(&vec![2]));
}

#[test]
fn update_changes_only_the_leaf_and_its_ancestors() {
    let mut tree = Tree::new(3, toy());
    tree.update(&vec![false, true, false], vec![4]).unwrap();
    tree.update(&vec![true, true, true], vec![5]).unwrap();
    let paths = all_paths(3);
    let before: Vec<u64> = paths.iter().map(|p| tree.get_node_hash(p)).collect();
    let target = vec![true, false, true];
    tree.update(&target, vec![6]).unwrap();
    for (path, old) in paths.iter().zip(before.iter()) {
        let on_the_way = path.len() <= target.len() && target[..path.len()] == path[..];
        if on_the_way {
            assert_ne!(tree.get_node_hash(path), *old);
        } else {
            assert_eq!(tree.get_node_hash(path), *old);
        }
    }
}

#[test]
fn same_update_twice_keeps_the_root() {
    let mut tree = Tree::new(5, toy());
    tree.update(&vec![true, true, false, false, true], vec![3, 3]).unwrap();
    let path = vec![false, true, false, true, true];
    tree.update(&path, vec![8, 9]).unwrap();
    let root = tree.get_root();
    let hashes: Vec<u64> = all_paths(5).iter().map(|p| tree.get_node_hash(p)).collect();
    tree.update(&path, vec![8, 9]).unwrap();
    assert_eq!(tree.get_root(), root);
    let again: Vec<u64> = all_paths(5).iter().map(|p| tree.get_node_hash(p)).collect();
    assert_eq!(hashes, again);
}

#[test]
fn update_turns_down_a_path_of_wrong_length() {
    let mut tree = Tree::new(3, toy());
    tree.update(&vec![true, false, true], vec![1]).unwrap();
    let root = tree.get_root();
    assert_eq!(tree.update(&vec![true, false], vec![2]), Err(TreeError::InvalidPathLength));
    assert_eq!(
        tree.update(&vec![true, false, true, true], vec![2]),
        Err(TreeError::InvalidPathLength)
    );
    assert_eq!(tree.update(&vec![], vec![2]), Err(TreeError::InvalidPathLength));
    assert_eq!(tree.get_root(), root);
    assert_eq!(tree.get_leaf(&vec![true, false, true]), Ok(vec![1]));
    assert!(tree.get_node(&vec![true, false, true, true]).is_none());
    // The tree still takes a well-formed request.
    assert_eq!(tree.update(&vec![true, false, false], vec![2]), Ok(()));
}

#[test]
fn get_leaf_tells_wrong_length_from_missing_leaf() {
    let mut tree = Tree::new(2, toy());
    tree.update(&vec![false, false], vec![1]).unwrap();
    assert_eq!(tree.get_leaf(&vec![false]), Err(TreeError::InvalidPathLength));
    assert_eq!(tree.get_leaf(&vec![false, false, false]), Err(TreeError::InvalidPathLength));
    assert_eq!(tree.get_leaf(&vec![false, true]), Err(TreeError::MissingOrWrongVariant));
    assert_eq!(tree.get_leaf(&vec![true, true]), Err(TreeError::MissingOrWrongVariant));
    assert_eq!(tree.get_leaf(&vec![false, false]), Ok(vec![1]));
}

#[test]
fn prove_turns_down_a_path_of_wrong_length() {
    let tree = Tree::new(2, toy());
    assert_eq!(tree.prove(&vec![true]).err(), Some(TreeError::InvalidPathLength));
    assert_eq!(tree.prove(&vec![true, true, true]).err(), Some(TreeError::InvalidPathLength));
    assert!(tree.prove(&vec![true, true]).is_ok());
}

#[test]
fn default_value_written_is_stored() {
    let mut tree = Tree::new(2, toy());
    let root = tree.get_root();
    let path = vec![true, true];
    assert!(tree.get_node(&path).is_none());
    tree.update(&path, vec![0u64; 4]).unwrap();
    assert_eq!(tree.get_root(), root);
    assert_eq!(tree.get_leaf(&path), Ok(vec![0u64; 4]));
    assert!(matches!(tree.get_node(&path), Some(Node::Leaf { value }) if *value == vec![0u64; 4]));
}

#[test]
fn update_stores_every_ancestor() {
    let d = default_hash();
    let mut tree = Tree::new(2, toy());
    assert!(tree.get_node(&vec![]).is_none());
    let v = vec![11u64];
    tree.update(&vec![true, false], v.clone()).unwrap();
    assert!(matches!(
        tree.get_node(&vec![true]),
        Some(Node::InnerNode { left, right }) if *left == h1(&v) && *right == d
    ));
    assert!(matches!(
        tree.get_node(&vec![]),
        Some(Node::InnerNode { left, right }) if *left == h2(d, d) && *right == h2(h1(&v), d)
    ));
    assert!(tree.get_node(&vec![false]).is_none());
    assert!(tree.get_node(&vec![true, true]).is_none());
}

#[test]
fn sibling_hash_is_hash_of_the_other_child() {
    let mut tree = Tree::new(3, toy());
    tree.update(&vec![false, true, true], vec![1]).unwrap();
    tree.update(&vec![false, true, false], vec![2]).unwrap();
    assert_eq!(tree.get_sibling_hash(&vec![false, true, true]), h1(&vec![2]));
    assert_eq!(tree.get_sibling_hash(&vec![false, true, false]), h1(&vec![1]));
    assert_eq!(
        tree.get_sibling_hash(&vec![false, false]),
        tree.get_node_hash(&vec![false, true])
    );
    assert_eq!(tree.get_sibling_hash(&vec![true]), tree.get_node_hash(&vec![false]));
}

#[test]
fn root_is_hash_of_the_two_halves() {
    let mut tree = Tree::new(6, toy());
    for i in 0..20u64 {
        let path: Vec<bool> = (0..6).map(|b| (i * 7 + 3) >> b & 1 == 1).collect();
        tree.update(&path, vec![i]).unwrap();
        assert_eq!(
            tree.get_root(),
            h2(tree.get_node_hash(&vec![false]), tree.get_node_hash(&vec![true]))
        );
    }
}
