use committable::{Commitment, Committable, RawCommitmentBuilder};
use sequencer::block::Block;
use sequencer::error::BlockError;
use sequencer::inclusion::verify_inclusion;
use sequencer::namespace::verify_namespace;
use sequencer::node::NamespaceRange;
use sequencer::transaction::{Transaction, VmId};

fn tx(ns: u64, payload: &[u8]) -> Transaction {
    Transaction::new(VmId(ns), payload.to_vec())
}

fn block_of(namespaces: &[u64]) -> Block {
    let mut block = Block::genesis();
    for (i, ns) in namespaces.iter().enumerate() {
        block = block.add_transaction_raw(&tx(*ns, &[i as u8])).unwrap();
    }
    block
}

struct TxReference(Transaction);

impl Committable for TxReference {
    fn commit(&self) -> Commitment<Self> {
        RawCommitmentBuilder::new("Transaction")
            .u64_field("vm", self.0.vm().0)
            .var_size_bytes(self.0.payload())
            .finalize()
    }
}

struct BlockReference(Vec<Transaction>);

impl Committable for BlockReference {
    fn commit(&self) -> Commitment<Self> {
        let txns: Vec<Commitment<TxReference>> =
            self.0.iter().map(|tx| TxReference(tx.clone()).commit()).collect();
        RawCommitmentBuilder::new("Block Comm").array_field("txns", &txns).finalize()
    }
}

#[test]
fn genesis_block_is_empty() {
    let block = Block::genesis();
    assert_eq!(block.len(), 0);
    assert_eq!(block.txn_count(), 0);
    assert!(block.iter().is_empty());
    assert!(block.transactions().is_empty());
    assert!(block.transaction(&0).is_none());
    assert!(block.transaction_with_proof(&0).is_none());
    assert!(!block.is_frozen());
    assert!(block.root().is_empty());
    assert_eq!(Block::new().commit(), block.commit());
    assert_eq!(Block::new().root(), block.root());
}

#[test]
fn six_transactions_in_three_namespaces() {
    let block = block_of(&[1, 1, 2, 2, 2, 5]);
    assert_eq!(block.len(), 6);
    assert_eq!(block.txn_count(), 6);

    let second = block.transactions_for_namespace(VmId(2));
    assert_eq!(second, vec![tx(2, &[2]), tx(2, &[3]), tx(2, &[4])]);

    let root = block.root();
    let (found, path) = block.transaction_with_proof(&3).unwrap();
    assert_eq!(found, &tx(2, &[3]));
    assert!(verify_inclusion(&root, found, 3, &path));
    assert_eq!(root.range, NamespaceRange { min: 1, max: 5 });

    assert!(matches!(
        block.add_transaction_raw(&tx(3, b"late")),
        Err(BlockError::OutOfOrderNamespace)
    ));
    assert_eq!(block.len(), 6);
}

#[test]
fn append_returns_a_new_block_and_leaves_the_old_one() {
    let empty = Block::genesis();
    let one = empty.add_transaction_raw(&tx(4, b"a")).unwrap();
    let two = one.add_transaction_raw(&tx(4, b"b")).unwrap();
    assert_eq!(empty.len(), 0);
    assert_eq!(one.len(), 1);
    assert_eq!(two.len(), 2);
    assert_eq!(two.transactions(), &vec![tx(4, b"a"), tx(4, b"b")]);
    assert_ne!(one.commit(), two.commit());
    assert_ne!(one.root(), two.root());
    assert_eq!(empty.commit(), Block::genesis().commit());
}

#[test]
fn frozen_block_takes_no_transaction() {
    let mut block = block_of(&[1, 2]);
    let commitment = block.commit();
    block.freeze();
    assert!(block.is_frozen());
    assert!(matches!(block.add_transaction_raw(&tx(2, b"x")), Err(BlockError::BlockFrozen)));
    assert!(matches!(block.add_transaction_raw(&tx(0, b"x")), Err(BlockError::BlockFrozen)));
    assert_eq!(block.len(), 2);
    assert_eq!(block.commit(), commitment);
    assert!(block.clone().is_frozen());
    block.freeze();
    assert!(block.is_frozen());
}

#[test]
fn positions_count_from_zero() {
    let block = block_of(&[3, 3, 3, 8]);
    assert_eq!(block.iter(), vec![0, 1, 2, 3]);
    assert_eq!(block.iter(), block.iter());
    for i in block.iter() {
        assert_eq!(block.transaction(&i).unwrap(), &block.transactions()[i as usize]);
    }
    assert!(block.transaction(&4).is_none());
    assert!(block.transaction(&u64::MAX).is_none());
    assert!(block.transaction_with_proof(&4).is_none());
}

#[test]
fn every_transaction_is_proved_included() {
    let block = block_of(&[0, 1, 1, 1, 6, 6, 9]);
    let root = block.root();
    for i in block.iter() {
        let (found, path) = block.transaction_with_proof(&i).unwrap();
        assert!(verify_inclusion(&root, found, i, &path));
        assert!(!verify_inclusion(&root, found, i + 1, &path));
    }
}

#[test]
fn block_commitment_agrees_with_the_commitment_builder() {
    for namespaces in [vec![], vec![5u64], vec![1, 1, 2, 2, 2, 5]] {
        let block = block_of(&namespaces);
        let expected: [u8; 32] = BlockReference(block.transactions().clone()).commit().into();
        assert_eq!(block.commit(), expected);
    }
}

#[test]
fn commitment_is_not_the_root_of_the_tree() {
    let block = block_of(&[1, 1, 2]);
    assert_ne!(block.commit(), block.root().digest);
    let single = block_of(&[1]);
    assert_ne!(single.commit(), single.root().digest);
    assert_ne!(single.commit(), single.transactions()[0].commit());
    assert_ne!(Block::genesis().commit(), Block::genesis().root().digest);
}

#[test]
fn commitment_survives_rebuilding_from_the_leaves() {
    let block = block_of(&[1, 1, 2, 2, 2, 5]);
    let bytes: Vec<Vec<u8>> = block.transactions().iter().map(|tx| tx.to_bytes()).collect();
    let leaves: Vec<Transaction> =
        bytes.iter().map(|b| Transaction::from_bytes(b).unwrap()).collect();
    let rebuilt = Block::from_leaves(&leaves).unwrap();
    assert_eq!(rebuilt.commit(), block.commit());
    assert_eq!(rebuilt.root(), block.root());
    assert_eq!(rebuilt.transactions(), block.transactions());
    assert!(!rebuilt.is_frozen());
}

#[test]
fn rebuilding_holds_leaves_to_namespace_order() {
    let leaves = vec![tx(2, b"a"), tx(1, b"b")];
    assert!(matches!(Block::from_leaves(&leaves), Err(BlockError::OutOfOrderNamespace)));
    assert!(matches!(
        Block::genesis().add_transaction_raw(&leaves[0]).unwrap().add_transaction_raw(&leaves[1]),
        Err(BlockError::OutOfOrderNamespace)
    ));
}

#[test]
fn namespace_is_proved_complete_against_the_block_root() {
    let block = block_of(&[1, 1, 2, 2, 2, 5]);
    let root = block.root();
    for ns in 0..7u64 {
        let (txs, evidence) = block.namespace_with_proof(VmId(ns));
        assert_eq!(txs, block.transactions_for_namespace(VmId(ns)));
        assert!(verify_namespace(&root, VmId(ns), &txs, &evidence));
    }
    let (mut txs, evidence) = block.namespace_with_proof(VmId(5));
    txs.push(tx(5, b"forged"));
    assert!(!verify_namespace(&root, VmId(5), &txs, &evidence));
}

#[test]
fn equal_blocks_have_equal_commitments() {
    let a = block_of(&[1, 4, 4]);
    let b = block_of(&[1, 4, 4]);
    assert_eq!(a.commit(), b.commit());
    assert_eq!(a.commit(), a.clone().commit());
    assert_ne!(a.commit(), block_of(&[1, 4, 5]).commit());
    assert_ne!(a.commit(), block_of(&[1, 4]).commit());
}

#[test]
fn contained_transactions_hold_each_commitment_once() {
    let a = tx(1, b"a");
    let b = tx(1, b"b");
    let mut block = Block::genesis();
    for t in [&a, &b, &a, &a, &b] {
        block = block.add_transaction_raw(t).unwrap();
    }
    assert_eq!(block.len(), 5);
    assert_eq!(block.contained_transactions(), vec![a.commit(), b.commit()]);
    assert!(Block::genesis().contained_transactions().is_empty());
    let single = Block::genesis().add_transaction_raw(&b).unwrap();
    assert_eq!(single.contained_transactions(), vec![b.commit()]);
}

#[test]
fn failed_checks_are_reported_as_errors() {
    let block = block_of(&[1, 1, 2, 2, 2, 5]);
    let root = block.root();
    let (found, path) = block.transaction_with_proof(&3).unwrap();
    assert_eq!(sequencer::inclusion::check_inclusion(&root, found, 3, &path), Ok(()));
    assert_eq!(
        sequencer::inclusion::check_inclusion(&root, found, 2, &path),
        Err(BlockError::ProofVerificationFailed)
    );
    let (mut txs, evidence) = block.namespace_with_proof(VmId(2));
    assert_eq!(sequencer::namespace::check_namespace(&root, VmId(2), &txs, &evidence), Ok(()));
    txs.pop();
    assert_eq!(
        sequencer::namespace::check_namespace(&root, VmId(2), &txs, &evidence),
        Err(BlockError::ProofVerificationFailed)
    );
}
