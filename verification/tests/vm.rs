use sequencer::block::Block;
use sequencer::transaction::{Transaction, VmId};
use sequencer::vm::{read_all, PlainVm, Vm};

fn tx(ns: u64, payload: &[u8]) -> Transaction {
    Transaction::new(VmId(ns), payload.to_vec())
}

fn block() -> Block {
    let mut block = Block::genesis();
    for t in [tx(1, b"a"), tx(1, b""), tx(2, &[7]), tx(2, &[8, 9]), tx(2, &[10]), tx(5, b"z")] {
        block = block.add_transaction_raw(&t).unwrap();
    }
    block
}

#[test]
fn plain_vm_reads_the_payloads_of_its_namespace() {
    let block = block();
    let second = PlainVm { id: VmId(2) };
    assert_eq!(second.id(), VmId(2));
    assert_eq!(block.vm_transactions(&second), vec![vec![7u8], vec![8, 9], vec![10]]);
    assert_eq!(block.vm_transactions(&PlainVm { id: VmId(1) }), vec![b"a".to_vec(), Vec::new()]);
    assert!(block.vm_transactions(&PlainVm { id: VmId(3) }).is_empty());
    assert!(Block::genesis().vm_transactions(&second).is_empty());
}

#[test]
fn plain_vm_accepts_every_payload() {
    let vm = PlainVm { id: VmId(0) };
    assert_eq!(vm.decode(&[1, 2]), Some(vec![1, 2]));
    assert_eq!(vm.decode(&[]), Some(vec![]));
    let txs = vec![tx(9, b"x"), tx(4, b"y")];
    assert_eq!(read_all(&vm, &txs), vec![b"x".to_vec(), b"y".to_vec()]);
}
