//! Transactions and their canonical byte encoding.

use vstd::prelude::*;
use vstd::bytes::{spec_u64_to_le_bytes, spec_u64_from_le_bytes, u64_to_le_bytes, u64_from_le_bytes, lemma_auto_spec_u64_to_from_le_bytes};
use vstd::slice::slice_subrange;
use crate::bytes::{append_bytes, copy_bytes};
use crate::error::BlockError;
use crate::hash::{keccak256, keccak256_of};

verus! {

/// Identifier of the sub-chain (virtual machine) that owns a transaction: its
/// namespace.
#[derive(Clone, Copy, Debug, PartialEq, Eq, Structural, Hash)]
pub struct VmId(pub u64);

/// The mathematical content of a transaction.
pub struct TransactionView {
    /// Namespace id.
    pub vm: u64,
    /// Opaque payload.
    pub payload: Seq<u8>,
}

/// An opaque payload tagged with the namespace it belongs to.
#[derive(Debug, PartialEq, Eq, Hash)]
pub struct Transaction {
    vm: VmId,
    payload: Vec<u8>,
}

impl View for Transaction {
    type V = TransactionView;

    closed spec fn view(&self) -> TransactionView {
        TransactionView { vm: self.vm.0, payload: self.payload@ }
    }
}

/// Number of bytes the namespace id takes at the head of an encoded
/// transaction.
pub const VM_ID_LEN: usize = 8;

/// Canonical encoding: the namespace id as eight little-endian bytes, then
/// the payload.
pub open spec fn encoding(tx: TransactionView) -> Seq<u8> {
    spec_u64_to_le_bytes(tx.vm) + tx.payload
}

/// The transaction that `bytes` encodes, if any.
pub open spec fn decoding(bytes: Seq<u8>) -> Option<TransactionView> {
    if bytes.len() < 8 {
        None
    } else {
        Some(
            TransactionView {
                vm: spec_u64_from_le_bytes(bytes.subrange(0, 8)),
                payload: bytes.subrange(8, bytes.len() as int),
            },
        )
    }
}

/// A text constant of a commitment followed by the two bytes that end it.
/// The pair is no valid UTF-8, so no constant is a prefix of another field.
pub open spec fn tagged(text: Seq<u8>) -> Seq<u8> {
    text + seq![0xC0u8, 0x7Fu8]
}

/// `"Transaction"` in ASCII.
pub open spec fn transaction_tag() -> Seq<u8> {
    seq![0x54u8, 0x72u8, 0x61u8, 0x6eu8, 0x73u8, 0x61u8, 0x63u8, 0x74u8, 0x69u8, 0x6fu8, 0x6eu8]
}

/// `"vm"` in ASCII.
pub open spec fn vm_field_name() -> Seq<u8> {
    seq![0x76u8, 0x6du8]
}

/// The bytes whose Keccak-256 digest commits to a transaction: the type tag,
/// the field name and the namespace id, then the payload behind its length.
pub open spec fn commitment_preimage(tx: TransactionView) -> Seq<u8> {
    tagged(transaction_tag()) + tagged(vm_field_name()) + spec_u64_to_le_bytes(tx.vm)
        + spec_u64_to_le_bytes(tx.payload.len() as u64) + tx.payload
}

/// The commitment to a transaction.
pub open spec fn commitment(tx: TransactionView) -> Seq<u8> {
    keccak256_of(commitment_preimage(tx))
}

/// Appends `text` and the two closing bytes to `buf`.
pub fn push_tagged(buf: &mut Vec<u8>, text: &[u8])
    ensures
        final(buf)@ == old(buf)@ + tagged(text@),
{
    append_bytes(buf, text);
    buf.push(0xC0u8);
    buf.push(0x7Fu8);
    assert(buf@ =~= old(buf)@ + tagged(text@));
}

/// Appends the eight little-endian bytes of `value` to `buf`.
pub fn push_u64_le(buf: &mut Vec<u8>, value: u64)
    ensures
        final(buf)@ == old(buf)@ + spec_u64_to_le_bytes(value),
{
    let bytes = u64_to_le_bytes(value);
    append_bytes(buf, bytes.as_slice());
}

impl Transaction {
    /// A transaction of namespace `vm` carrying `payload`.
    pub fn new(vm: VmId, payload: Vec<u8>) -> (tx: Transaction)
        ensures
            tx@ == (TransactionView { vm: vm.0, payload: payload@ }),
    {
        Transaction { vm, payload }
    }

    /// The namespace the transaction belongs to.
    pub fn vm(&self) -> (vm: VmId)
        ensures
            vm.0 == self@.vm,
    {
        self.vm
    }

    /// The payload.
    pub fn payload(&self) -> (payload: &[u8])
        ensures
            payload@ == self@.payload,
    {
        self.payload.as_slice()
    }

    /// The canonical encoding of the transaction.
    pub fn to_bytes(&self) -> (bytes: Vec<u8>)
        ensures
            bytes@ == encoding(self@),
    {
        let mut bytes: Vec<u8> = Vec::new();
        push_u64_le(&mut bytes, self.vm.0);
        append_bytes(&mut bytes, self.payload.as_slice());
        assert(bytes@ =~= encoding(self@));
        bytes
    }

    /// Reads a transaction back from its canonical encoding. Fails exactly
    /// when `bytes` is too short to hold a namespace id.
    pub fn from_bytes(bytes: &[u8]) -> (decoded: Result<Transaction, BlockError>)
        ensures
            match decoded {
                Ok(tx) => decoding(bytes@) == Some(tx@),
                Err(e) => e == BlockError::EncodingFailure && decoding(bytes@).is_none(),
            },
    {
        if bytes.len() < VM_ID_LEN {
            return Err(BlockError::EncodingFailure);
        }
        let vm = u64_from_le_bytes(slice_subrange(bytes, 0, VM_ID_LEN));
        let payload = copy_bytes(slice_subrange(bytes, VM_ID_LEN, bytes.len()));
        Ok(Transaction { vm: VmId(vm), payload })
    }

    /// The Keccak-256 commitment to the transaction.
    pub fn commit(&self) -> (digest: [u8; 32])
        ensures
            digest@ == commitment(self@),
    {
        let mut buf: Vec<u8> = Vec::new();
        let tag: [u8; 11] = [0x54, 0x72, 0x61, 0x6e, 0x73, 0x61, 0x63, 0x74, 0x69, 0x6f, 0x6e];
        let name: [u8; 2] = [0x76, 0x6d];
        assert(tag@ =~= transaction_tag());
        assert(name@ =~= vm_field_name());
        push_tagged(&mut buf, tag.as_slice());
        push_tagged(&mut buf, name.as_slice());
        push_u64_le(&mut buf, self.vm.0);
        push_u64_le(&mut buf, self.payload.len() as u64);
        append_bytes(&mut buf, self.payload.as_slice());
        assert(buf@ =~= commitment_preimage(self@));
        keccak256(&buf)
    }
}

impl Clone for Transaction {
    fn clone(&self) -> (copy: Transaction)
        ensures
            copy@ == self@,
    {
        Transaction { vm: self.vm, payload: copy_bytes(self.payload.as_slice()) }
    }
}

/// Decoding undoes encoding: every transaction is read back from its own
/// canonical bytes.
pub proof fn lemma_decoding_inverts_encoding(tx: TransactionView)
    ensures
        decoding(encoding(tx)) == Some(tx),
{
    lemma_auto_spec_u64_to_from_le_bytes();
    let bytes = encoding(tx);
    assert(bytes.subrange(0, 8) =~= spec_u64_to_le_bytes(tx.vm));
    assert(bytes.subrange(8, bytes.len() as int) =~= tx.payload);
}

/// Two transactions with the same canonical bytes are the same transaction.
pub proof fn lemma_encoding_injective(a: TransactionView, b: TransactionView)
    requires
        encoding(a) == encoding(b),
    ensures
        a == b,
{
    lemma_decoding_inverts_encoding(a);
    lemma_decoding_inverts_encoding(b);
}

} // verus!
