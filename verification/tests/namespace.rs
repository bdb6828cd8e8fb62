use sequencer::inclusion::InclusionProof;
use sequencer::namespace::{
    namespace_range, path_ends_tree, verify_namespace, NamespaceProof, Neighbour,
};
use sequencer::node::Node;
use sequencer::transaction::{Transaction, VmId};
use sequencer::tree::Tree;

fn tx(ns: u64, payload: &[u8]) -> Transaction {
    Transaction::new(VmId(ns), payload.to_vec())
}

fn tree_of(namespaces: &[u64]) -> Tree {
    let mut tree = Tree::new_empty();
    for (i, ns) in namespaces.iter().enumerate() {
        tree.append(tx(*ns, &[i as u8])).unwrap();
    }
    tree
}

#[test]
fn namespace_range_is_the_run_of_the_namespace() {
    let tree = tree_of(&[1, 1, 2, 2, 2, 5]);
    let leaves = tree.leaves();
    assert_eq!(namespace_range(leaves, VmId(0)), (0, 0));
    assert_eq!(namespace_range(leaves, VmId(1)), (0, 2));
    assert_eq!(namespace_range(leaves, VmId(2)), (2, 5));
    assert_eq!(namespace_range(leaves, VmId(3)), (5, 5));
    assert_eq!(namespace_range(leaves, VmId(4)), (5, 5));
    assert_eq!(namespace_range(leaves, VmId(5)), (5, 6));
    assert_eq!(namespace_range(leaves, VmId(6)), (6, 6));
    assert_eq!(namespace_range(&Vec::new(), VmId(6)), (0, 0));
}

#[test]
fn transactions_for_namespace_keeps_submission_order() {
    let tree = tree_of(&[1, 1, 2, 2, 2, 5]);
    let found = tree.transactions_for_namespace(VmId(2));
    assert_eq!(found, vec![tx(2, &[2]), tx(2, &[3]), tx(2, &[4])]);
    assert_eq!(tree.transactions_for_namespace(VmId(1)), vec![tx(1, &[0]), tx(1, &[1])]);
    assert_eq!(tree.transactions_for_namespace(VmId(5)), vec![tx(5, &[5])]);
    assert!(tree.transactions_for_namespace(VmId(3)).is_empty());
    assert!(tree.transactions_for_namespace(VmId(0)).is_empty());
    assert!(tree.transactions_for_namespace(VmId(u64::MAX)).is_empty());
    assert!(Tree::new_empty().transactions_for_namespace(VmId(1)).is_empty());
}

#[test]
fn present_namespace_is_proved_complete() {
    let tree = tree_of(&[1, 1, 2, 2, 2, 5]);
    let root = tree.root();
    for ns in [1u64, 2, 5] {
        let (txs, evidence) = tree.prove_namespace(VmId(ns));
        assert_eq!(txs, tree.transactions_for_namespace(VmId(ns)));
        assert!(!txs.is_empty());
        assert!(verify_namespace(&root, VmId(ns), &txs, &evidence), "ns = {}", ns);
    }
    let (_, evidence) = tree.prove_namespace(VmId(2));
    assert_eq!(evidence.start, 2);
    assert_eq!(evidence.paths.len(), 3);
    assert_eq!(evidence.before.as_ref().unwrap().tx, tx(1, &[1]));
    assert_eq!(evidence.after.as_ref().unwrap().tx, tx(5, &[5]));
    let (_, first) = tree.prove_namespace(VmId(1));
    assert!(first.before.is_none());
    let (_, last) = tree.prove_namespace(VmId(5));
    assert!(last.after.is_none());
}

#[test]
fn absent_namespace_is_proved_absent() {
    let tree = tree_of(&[1, 1, 2, 2, 2, 5]);
    let root = tree.root();
    for ns in [0u64, 3, 4, 6, u64::MAX] {
        let (txs, evidence) = tree.prove_namespace(VmId(ns));
        assert!(txs.is_empty());
        assert!(evidence.paths.is_empty());
        assert!(verify_namespace(&root, VmId(ns), &txs, &evidence), "ns = {}", ns);
    }
    let (_, between) = tree.prove_namespace(VmId(3));
    assert_eq!(between.start, 5);
    assert_eq!(between.before.as_ref().unwrap().tx, tx(2, &[4]));
    assert_eq!(between.after.as_ref().unwrap().tx, tx(5, &[5]));
}

#[test]
fn every_namespace_of_the_empty_tree_is_absent() {
    let tree = Tree::new_empty();
    let (txs, evidence) = tree.prove_namespace(VmId(7));
    assert!(txs.is_empty());
    assert_eq!(evidence.start, 0);
    assert!(evidence.before.is_none() && evidence.after.is_none());
    assert!(verify_namespace(&tree.root(), VmId(7), &txs, &evidence));
    assert!(!verify_namespace(&tree_of(&[7]).root(), VmId(7), &txs, &evidence));
}

#[test]
fn forged_extra_leaf_is_rejected() {
    let tree = tree_of(&[1, 1, 2, 2, 2, 5]);
    let root = tree.root();
    let (mut txs, mut evidence) = tree.prove_namespace(VmId(2));
    let extra_path = evidence.paths[2].clone();
    txs.push(tx(2, b"forged"));
    assert!(!verify_namespace(&root, VmId(2), &txs, &evidence));
    evidence.paths.push(extra_path);
    assert!(!verify_namespace(&root, VmId(2), &txs, &evidence));

    let (txs, evidence) = tree.prove_namespace(VmId(3));
    let mut forged = txs.clone();
    forged.push(tx(3, b"forged"));
    assert!(!verify_namespace(&root, VmId(3), &forged, &evidence));
    let mut with_path = NamespaceProof {
        start: evidence.start,
        paths: vec![tree.prove_inclusion(5).unwrap()],
        before: evidence.before,
        after: evidence.after,
    };
    assert!(!verify_namespace(&root, VmId(3), &forged, &with_path));
    with_path.after = None;
    assert!(!verify_namespace(&root, VmId(3), &forged, &with_path));
}

#[test]
fn omitted_leaf_is_rejected() {
    let tree = tree_of(&[1, 1, 2, 2, 2, 5]);
    let root = tree.root();
    let (txs, evidence) = tree.prove_namespace(VmId(2));

    // The last transaction of the namespace is left out.
    let fewer: Vec<Transaction> = txs[..2].to_vec();
    let cut = NamespaceProof {
        start: evidence.start,
        paths: evidence.paths[..2].to_vec(),
        before: evidence.before.as_ref().map(|n| Neighbour { tx: n.tx.clone(), path: n.path.clone() }),
        after: evidence.after.as_ref().map(|n| Neighbour { tx: n.tx.clone(), path: n.path.clone() }),
    };
    assert!(!verify_namespace(&root, VmId(2), &fewer, &cut));
    // With the true leaf behind the shorter run as the neighbour the check
    // fails as well: that leaf belongs to the namespace.
    let honest_after = NamespaceProof {
        start: 2,
        paths: evidence.paths[..2].to_vec(),
        before: cut.before,
        after: Some(Neighbour { tx: tx(2, &[4]), path: tree.prove_inclusion(4).unwrap() }),
    };
    assert!(!verify_namespace(&root, VmId(2), &fewer, &honest_after));

    // The first transaction of the namespace is left out.
    let later: Vec<Transaction> = txs[1..].to_vec();
    let shifted = NamespaceProof {
        start: 3,
        paths: evidence.paths[1..].to_vec(),
        before: Some(Neighbour { tx: tx(2, &[2]), path: tree.prove_inclusion(2).unwrap() }),
        after: evidence.after,
    };
    assert!(!verify_namespace(&root, VmId(2), &later, &shifted));

    // Everything is left out.
    let nothing = NamespaceProof {
        start: 2,
        paths: Vec::new(),
        before: Some(Neighbour { tx: tx(1, &[1]), path: tree.prove_inclusion(1).unwrap() }),
        after: Some(Neighbour { tx: tx(5, &[5]), path: tree.prove_inclusion(5).unwrap() }),
    };
    assert!(!verify_namespace(&root, VmId(2), &Vec::new(), &nothing));
}

#[test]
fn reordered_namespace_is_rejected() {
    let tree = tree_of(&[1, 1, 2, 2, 2, 5]);
    let root = tree.root();
    let (mut txs, evidence) = tree.prove_namespace(VmId(2));
    txs.swap(0, 1);
    assert!(!verify_namespace(&root, VmId(2), &txs, &evidence));
}

#[test]
fn proof_for_another_namespace_is_rejected() {
    let tree = tree_of(&[1, 1, 2, 2, 2, 5]);
    let root = tree.root();
    let (txs, evidence) = tree.prove_namespace(VmId(2));
    assert!(!verify_namespace(&root, VmId(1), &txs, &evidence));
    assert!(!verify_namespace(&root, VmId(3), &txs, &evidence));
}

#[test]
fn hidden_tail_is_rejected() {
    // The tree goes on behind the run: a proof without a leaf after it
    // must show that the tree ends there, and cannot.
    let tree = tree_of(&[1, 1, 2, 2, 2, 5]);
    let root = tree.root();
    let (txs, mut evidence) = tree.prove_namespace(VmId(2));
    evidence.after = None;
    assert!(!verify_namespace(&root, VmId(2), &txs, &evidence));
    let (txs, mut evidence) = tree.prove_namespace(VmId(3));
    evidence.after = None;
    assert!(!verify_namespace(&root, VmId(3), &txs, &evidence));
}

#[test]
fn start_near_the_largest_position_does_not_overflow() {
    let tree = tree_of(&[1, 1]);
    let (txs, mut evidence) = tree.prove_namespace(VmId(1));
    evidence.start = u64::MAX;
    assert!(!verify_namespace(&tree.root(), VmId(1), &txs, &evidence));
    evidence.start = u64::MAX - 1;
    assert!(!verify_namespace(&tree.root(), VmId(1), &txs, &evidence));
}

#[test]
fn only_the_path_of_the_last_leaf_ends_the_tree() {
    for n in 1..12usize {
        let tree = tree_of(&vec![4u64; n]);
        for i in 0..n as u64 {
            let path = tree.prove_inclusion(i).unwrap();
            assert_eq!(path_ends_tree(i, &path), i + 1 == n as u64, "n = {}, i = {}", n, i);
        }
    }
    assert!(path_ends_tree(0, &InclusionProof { path: Vec::new() }));
    assert!(path_ends_tree(0, &InclusionProof { path: vec![Node::empty()] }));
    assert!(!path_ends_tree(0, &InclusionProof { path: vec![Node::leaf(&tx(1, b""))] }));
    assert!(path_ends_tree(1, &InclusionProof { path: vec![Node::leaf(&tx(1, b""))] }));
}
