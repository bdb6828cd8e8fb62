use sequencer::error::BlockError;
use sequencer::inclusion::{verify_inclusion, verify_node, InclusionProof};
use sequencer::node::{NamespaceRange, Node, LEAF_TAG, MAX_NAMESPACE, MIN_NAMESPACE, NODE_TAG};
use sequencer::transaction::{Transaction, VmId};
use sequencer::tree::Tree;
use sha3::Digest;

fn hex(bytes: &[u8]) -> String {
    bytes.iter().map(|b| format!("{:02x}", b)).collect()
}

fn tx(ns: u64, payload: &[u8]) -> Transaction {
    Transaction::new(VmId(ns), payload.to_vec())
}

fn tree_of(namespaces: &[u64]) -> Tree {
    let mut tree = Tree::new_empty();
    for (i, ns) in namespaces.iter().enumerate() {
        tree.append(tx(*ns, &[i as u8])).unwrap();
    }
    tree
}

#[test]
fn empty_tree_has_the_absent_root() {
    let tree = Tree::new_empty();
    let root = tree.root();
    assert_eq!(root.digest, [0u8; 32]);
    assert_eq!(root.range, NamespaceRange { min: MAX_NAMESPACE, max: MIN_NAMESPACE });
    assert_eq!(root.range, NamespaceRange { min: u64::MAX, max: 0 });
    assert_eq!(tree.num_leaves(), 0);
    assert!(tree.leaf_at(0).is_none());
    assert!(root.is_empty());
    assert_eq!(root, Node::empty());
}

#[test]
fn leaf_digest_is_sha3_of_tag_namespace_and_payload() {
    let leaf = Node::leaf(&tx(1, b"a"));
    assert_eq!(
        hex(&leaf.digest),
        "25dbf83e8ae477084ca0fe557153aaab2c18f3266f24a1ff20ee563758e20da9"
    );
    assert_eq!(leaf.range, NamespaceRange { min: 1, max: 1 });
    let mut input = vec![LEAF_TAG];
    input.extend_from_slice(&1u64.to_le_bytes());
    input.extend_from_slice(b"a");
    let expected: [u8; 32] = sha3::Sha3_256::digest(&input).into();
    assert_eq!(leaf.digest, expected);
    assert_ne!(&leaf.digest[..], &input[..]);
}

#[test]
fn parent_digest_is_sha3_of_tag_and_both_children() {
    let left = Node::leaf(&tx(1, b"a"));
    let right = Node::leaf(&tx(3, b"b"));
    let parent = Node::parent(&left, &right);
    let mut input = vec![NODE_TAG];
    for child in [&left, &right] {
        input.extend_from_slice(&child.range.min.to_le_bytes());
        input.extend_from_slice(&child.range.max.to_le_bytes());
        input.extend_from_slice(&child.digest);
    }
    assert_eq!(input.len(), 97);
    let expected: [u8; 32] = sha3::Sha3_256::digest(&input).into();
    assert_eq!(parent.digest, expected);
    assert_eq!(parent.range, NamespaceRange { min: 1, max: 3 });
}

#[test]
fn parent_of_a_leaf_and_the_absent_node_keeps_the_range_of_the_leaf() {
    let left = Node::leaf(&tx(7, b"x"));
    let parent = Node::parent(&left, &Node::empty());
    assert_eq!(parent.range, NamespaceRange { min: 7, max: 7 });
    assert_ne!(parent.digest, left.digest);
}

#[test]
fn leaf_and_node_tags_differ() {
    assert_ne!(LEAF_TAG, NODE_TAG);
}

#[test]
fn roots_of_small_trees_match_known_digests() {
    let mut tree = Tree::new_empty();
    tree.append(tx(1, b"a")).unwrap();
    assert_eq!(
        hex(&tree.root().digest),
        "25dbf83e8ae477084ca0fe557153aaab2c18f3266f24a1ff20ee563758e20da9"
    );
    tree.append(tx(1, b"b")).unwrap();
    assert_eq!(
        hex(&tree.root().digest),
        "0b8a50e6d1d4841fd0ff27ae44aff480476074868951285107c153418a4572c3"
    );
    assert_eq!(tree.root().range, NamespaceRange { min: 1, max: 1 });
    tree.append(tx(2, b"c")).unwrap();
    assert_eq!(
        hex(&tree.root().digest),
        "9fca5f5b82b3c1bce6553296da5ebd8d8bba3383da328a6958ee824e406c062a"
    );
    assert_eq!(tree.root().range, NamespaceRange { min: 1, max: 2 });
}

#[test]
fn root_of_six_leaves_matches_known_digest() {
    let tree = tree_of(&[1, 1, 2, 2, 2, 5]);
    assert_eq!(
        hex(&tree.root().digest),
        "a839e5aaab16e2144e5716fa9c853a95e649efcae9b337504bfa3de2c5b6ae28"
    );
    assert_eq!(tree.root().range, NamespaceRange { min: 1, max: 5 });
    assert_eq!(tree.num_leaves(), 6);
}

#[test]
fn building_twice_gives_the_same_root() {
    let namespaces = [0u64, 0, 3, 3, 4, 9, 9, 9, 12, u64::MAX];
    let a = tree_of(&namespaces);
    let b = tree_of(&namespaces);
    assert_eq!(a.root(), b.root());
    let leaves: Vec<Transaction> = a.leaves().clone();
    let c = Tree::from_leaves(&leaves).unwrap();
    assert_eq!(a.root(), c.root());
    assert_eq!(a.root(), a.root());
    assert_eq!(a.clone().root(), a.root());
}

#[test]
fn append_below_the_last_namespace_fails_and_changes_nothing() {
    let mut tree = tree_of(&[1, 4]);
    let before = tree.root();
    assert_eq!(tree.append(tx(3, b"late")), Err(BlockError::OutOfOrderNamespace));
    assert_eq!(tree.num_leaves(), 2);
    assert_eq!(tree.root(), before);
    assert_eq!(tree.append(tx(0, b"late")), Err(BlockError::OutOfOrderNamespace));
    assert_eq!(tree.root(), before);
}

#[test]
fn append_at_or_above_the_last_namespace_succeeds() {
    let mut tree = tree_of(&[1, 4]);
    assert_eq!(tree.append(tx(4, b"same")), Ok(()));
    assert_eq!(tree.append(tx(5, b"more")), Ok(()));
    assert_eq!(tree.append(tx(u64::MAX, b"top")), Ok(()));
    assert_eq!(tree.num_leaves(), 5);
    assert_eq!(tree.leaf_at(4).unwrap().payload(), b"top");
    assert!(tree.leaf_at(5).is_none());
}

#[test]
fn first_append_takes_any_namespace() {
    let mut tree = Tree::new_empty();
    assert_eq!(tree.append(tx(0, b"")), Ok(()));
    let mut other = Tree::new_empty();
    assert_eq!(other.append(tx(u64::MAX, b"")), Ok(()));
}

#[test]
fn from_leaves_rejects_leaves_out_of_order() {
    let leaves = vec![tx(1, b"a"), tx(3, b"b"), tx(2, b"c")];
    assert!(matches!(Tree::from_leaves(&leaves), Err(BlockError::OutOfOrderNamespace)));
    let sorted = vec![tx(1, b"a"), tx(2, b"c"), tx(3, b"b")];
    assert!(Tree::from_leaves(&sorted).is_ok());
    assert!(Tree::from_leaves(&Vec::new()).is_ok());
}

#[test]
fn every_leaf_verifies_with_its_own_path() {
    for n in 0..20usize {
        let namespaces: Vec<u64> = (0..n).map(|i| (i / 3) as u64).collect();
        let tree = tree_of(&namespaces);
        let root = tree.root();
        for i in 0..n as u64 {
            let path = tree.prove_inclusion(i).unwrap();
            let leaf = tree.leaf_at(i).unwrap();
            assert!(verify_inclusion(&root, leaf, i, &path), "n = {}, i = {}", n, i);
        }
        assert!(tree.prove_inclusion(n as u64).is_none());
    }
}

#[test]
fn path_length_is_the_height_of_the_tree() {
    let expected = [0usize, 0, 1, 2, 2, 3, 3, 3, 3, 4];
    for (n, height) in expected.iter().enumerate() {
        if n == 0 {
            continue;
        }
        let tree = tree_of(&vec![1u64; n]);
        assert_eq!(tree.prove_inclusion(0).unwrap().path.len(), *height, "n = {}", n);
    }
}

#[test]
fn changed_leaf_is_rejected() {
    let tree = tree_of(&[1, 1, 2, 2, 2, 5]);
    let root = tree.root();
    let path = tree.prove_inclusion(3).unwrap();
    assert!(verify_inclusion(&root, &tx(2, &[3]), 3, &path));
    assert!(!verify_inclusion(&root, &tx(2, &[4]), 3, &path));
    assert!(!verify_inclusion(&root, &tx(3, &[3]), 3, &path));
    assert!(!verify_inclusion(&root, &tx(2, &[3, 0]), 3, &path));
    assert!(!verify_inclusion(&root, &tx(2, &[]), 3, &path));
}

#[test]
fn changed_path_is_rejected() {
    let tree = tree_of(&[1, 1, 2, 2, 2, 5]);
    let root = tree.root();
    let leaf = tx(2, &[3]);
    let path = tree.prove_inclusion(3).unwrap();
    for step in 0..path.path.len() {
        for byte in 0..32 {
            let mut forged = path.clone();
            forged.path[step].digest[byte] ^= 1;
            assert!(!verify_inclusion(&root, &leaf, 3, &forged));
        }
        let mut forged = path.clone();
        forged.path[step].range.min = forged.path[step].range.min.wrapping_add(1);
        assert!(!verify_inclusion(&root, &leaf, 3, &forged));
        let mut forged = path.clone();
        forged.path[step].range.max = forged.path[step].range.max.wrapping_add(1);
        assert!(!verify_inclusion(&root, &leaf, 3, &forged));
    }
    let mut short = path.clone();
    short.path.pop();
    assert!(!verify_inclusion(&root, &leaf, 3, &short));
    let mut long = path.clone();
    long.path.push(Node::empty());
    assert!(!verify_inclusion(&root, &leaf, 3, &long));
    assert!(!verify_inclusion(&root, &leaf, 3, &InclusionProof { path: Vec::new() }));
}

#[test]
fn changed_index_is_rejected() {
    let tree = tree_of(&[1, 1, 2, 2, 2, 5]);
    let root = tree.root();
    let leaf = tx(2, &[3]);
    let path = tree.prove_inclusion(3).unwrap();
    for i in 0..20u64 {
        assert_eq!(verify_inclusion(&root, &leaf, i, &path), i == 3, "i = {}", i);
    }
    assert!(!verify_inclusion(&root, &leaf, 3 + 8, &path));
    assert!(!verify_inclusion(&root, &leaf, u64::MAX, &path));
}

#[test]
fn changed_root_is_rejected() {
    let tree = tree_of(&[1, 1, 2, 2, 2, 5]);
    let leaf = tx(2, &[3]);
    let path = tree.prove_inclusion(3).unwrap();
    let mut root = tree.root();
    root.range.max = 6;
    assert!(!verify_inclusion(&root, &leaf, 3, &path));
    let mut root = tree.root();
    root.digest[31] ^= 0x80;
    assert!(!verify_inclusion(&root, &leaf, 3, &path));
    assert!(!verify_inclusion(&tree_of(&[1, 1, 2, 2, 2, 6]).root(), &leaf, 3, &path));
}

#[test]
fn twin_leaves_share_their_path() {
    // Two equal transactions next to each other are each other's sibling:
    // the same path is accepted at both positions.
    let mut tree = Tree::new_empty();
    tree.append(tx(1, b"same")).unwrap();
    tree.append(tx(1, b"same")).unwrap();
    let root = tree.root();
    let path = tree.prove_inclusion(0).unwrap();
    assert_eq!(path, tree.prove_inclusion(1).unwrap());
    assert!(verify_inclusion(&root, &tx(1, b"same"), 0, &path));
    assert!(verify_inclusion(&root, &tx(1, b"same"), 1, &path));
    assert!(!verify_inclusion(&root, &tx(1, b"same"), 2, &path));
}

#[test]
fn single_leaf_is_its_own_root() {
    let mut tree = Tree::new_empty();
    tree.append(tx(9, b"only")).unwrap();
    let path = tree.prove_inclusion(0).unwrap();
    assert!(path.path.is_empty());
    assert!(verify_inclusion(&tree.root(), &tx(9, b"only"), 0, &path));
    assert!(!verify_inclusion(&tree.root(), &tx(9, b"only"), 1, &path));
    assert!(verify_node(&tree.root(), &Node::leaf(&tx(9, b"only")), 0, &path));
}

#[test]
fn nothing_verifies_against_the_empty_root() {
    let root = Tree::new_empty().root();
    assert!(!verify_inclusion(&root, &tx(0, b""), 0, &InclusionProof { path: Vec::new() }));
}

#[test]
fn roots_of_larger_trees_match_known_digests() {
    let expected = [
        (37usize, "4c72fd5b744c2d1869e5072d1e2abb634d8e12051fb112a41dd43f62d5d052fe", 7u64),
        (64, "2e573a6701737b355c8bd2fbf10110e2b67e8d254242822cbfe9d61b6664d188", 12),
        (65, "5d3c864730ff531254453de42658f5886334e798b4e460471eb326a67b545d7a", 12),
        (200, "4f4c5ce0d5e8e89ad263bbb5440f86326da957f98bf92c5fc28f51e652ba4d16", 39),
    ];
    for (n, digest, last) in expected {
        let mut tree = Tree::new_empty();
        for i in 0..n {
            tree.append(tx((i / 5) as u64, &[(i % 256) as u8])).unwrap();
        }
        assert_eq!(hex(&tree.root().digest), digest, "n = {}", n);
        assert_eq!(tree.root().range, NamespaceRange { min: 0, max: last });
        let leaves: Vec<Transaction> = tree.leaves().clone();
        assert_eq!(Tree::from_leaves(&leaves).unwrap().root(), tree.root());
    }
}

#[test]
fn root_range_spans_from_the_first_to_the_last_namespace() {
    assert_eq!(tree_of(&[3]).root().range, NamespaceRange { min: 3, max: 3 });
    assert_eq!(tree_of(&[3, 3, 7]).root().range, NamespaceRange { min: 3, max: 7 });
    assert_eq!(tree_of(&[0, 9, u64::MAX]).root().range, NamespaceRange { min: 0, max: u64::MAX });
    assert_eq!(
        tree_of(&[u64::MAX, u64::MAX]).root().range,
        NamespaceRange { min: u64::MAX, max: u64::MAX }
    );
}
