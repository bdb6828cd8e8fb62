use committable::{Commitment, Committable, RawCommitmentBuilder};
use sequencer::bytes::{append_bytes, bytes_eq, copy_bytes};
use sequencer::error::BlockError;
use sequencer::transaction::{push_tagged, push_u64_le, Transaction, VmId, VM_ID_LEN};

struct Reference {
    vm: u64,
    payload: Vec<u8>,
}

impl Committable for Reference {
    fn commit(&self) -> Commitment<Self> {
        RawCommitmentBuilder::new("Transaction")
            .u64_field("vm", self.vm)
            .var_size_bytes(&self.payload)
            .finalize()
    }
}

#[test]
fn new_keeps_namespace_and_payload() {
    let tx = Transaction::new(VmId(7), vec![1, 2, 3]);
    assert_eq!(tx.vm(), VmId(7));
    assert_eq!(tx.payload(), &[1, 2, 3]);
    assert_eq!(tx.clone(), tx);
}

#[test]
fn encoding_is_namespace_then_payload() {
    let tx = Transaction::new(VmId(0x0102030405060708), vec![0xaa, 0xbb]);
    assert_eq!(tx.to_bytes(), vec![8, 7, 6, 5, 4, 3, 2, 1, 0xaa, 0xbb]);
    assert_eq!(Transaction::new(VmId(0), Vec::new()).to_bytes(), vec![0u8; 8]);
    assert_eq!(VM_ID_LEN, 8);
}

#[test]
fn decoding_reads_the_encoding_back() {
    for (vm, payload) in [(0u64, vec![]), (1, vec![0]), (u64::MAX, vec![9; 40]), (1 << 40, vec![1, 2])] {
        let tx = Transaction::new(VmId(vm), payload);
        assert_eq!(Transaction::from_bytes(&tx.to_bytes()), Ok(tx));
    }
    assert_eq!(
        Transaction::from_bytes(&[1, 0, 0, 0, 0, 0, 0, 0, 5]),
        Ok(Transaction::new(VmId(1), vec![5]))
    );
}

#[test]
fn short_bytes_do_not_decode() {
    for len in 0..8 {
        assert_eq!(Transaction::from_bytes(&vec![0u8; len]), Err(BlockError::EncodingFailure));
    }
    assert!(Transaction::from_bytes(&[0u8; 8]).is_ok());
}

#[test]
fn transaction_commitment_agrees_with_the_commitment_builder() {
    for (vm, payload) in [(0u64, vec![]), (1, vec![0]), (u64::MAX, vec![9; 40]), (77, b"hello".to_vec())] {
        let expected: [u8; 32] = Reference { vm, payload: payload.clone() }.commit().into();
        let tx = Transaction::new(VmId(vm), payload);
        assert_eq!(tx.commit(), expected);
    }
}

#[test]
fn commitment_depends_on_namespace_and_payload() {
    let a = Transaction::new(VmId(1), vec![1]).commit();
    assert_ne!(a, Transaction::new(VmId(2), vec![1]).commit());
    assert_ne!(a, Transaction::new(VmId(1), vec![2]).commit());
    assert_ne!(a, Transaction::new(VmId(1), vec![1, 0]).commit());
    assert_eq!(a, Transaction::new(VmId(1), vec![1]).commit());
}

#[test]
fn tagged_text_ends_with_the_two_closing_bytes() {
    let mut buf = vec![1u8];
    push_tagged(&mut buf, b"vm");
    assert_eq!(buf, vec![1, b'v', b'm', 0xC0, 0x7F]);
    push_u64_le(&mut buf, 0x1122);
    assert_eq!(buf, vec![1, b'v', b'm', 0xC0, 0x7F, 0x22, 0x11, 0, 0, 0, 0, 0, 0]);
}

#[test]
fn byte_helpers() {
    let mut buf = vec![1u8, 2];
    append_bytes(&mut buf, &[3, 4]);
    assert_eq!(buf, vec![1, 2, 3, 4]);
    append_bytes(&mut buf, &[]);
    assert_eq!(buf, vec![1, 2, 3, 4]);
    assert_eq!(copy_bytes(&[5, 6]), vec![5, 6]);
    assert!(bytes_eq(&[1, 2], &[1, 2]));
    assert!(!bytes_eq(&[1, 2], &[1, 3]));
    assert!(!bytes_eq(&[1, 2], &[1, 2, 3]));
    assert!(bytes_eq(&[], &[]));
}

#[test]
fn error_messages() {
    assert_eq!(BlockError::BlockFrozen.message(), "block is frozen");
    assert_eq!(BlockError::EncodingFailure.message(), "bytes do not encode a transaction");
    assert_eq!(BlockError::ProofVerificationFailed.message(), "proof verification failed");
    assert_eq!(
        BlockError::OutOfOrderNamespace.message(),
        "namespace id is smaller than the last leaf's"
    );
}
