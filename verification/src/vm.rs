//! Virtual machines: the sub-chains whose transactions share a block.
//!
//! A block does not know what the payload of a transaction means. Each
//! virtual machine reads its own transactions out of the payloads of its
//! namespace.

use vstd::prelude::*;
use crate::block::Block;
use crate::bytes::copy_bytes;
use crate::namespace::namespace_leaves;
use crate::transaction::{Transaction, TransactionView, VmId};
use crate::tree::tx_views;

verus! {

/// A virtual machine: it owns one namespace and knows how to read its own
/// transactions from the payload of a transaction of the block.
pub trait Vm {
    /// A transaction as the virtual machine understands it.
    type Transaction;

    /// The namespace of the virtual machine.
    spec fn namespace(&self) -> u64;

    /// Whether `payload` holds a transaction of the virtual machine.
    spec fn accepts(&self, payload: Seq<u8>) -> bool;

    /// Whether `tx` is the transaction that `payload` holds.
    spec fn decodes(&self, payload: Seq<u8>, tx: Self::Transaction) -> bool;

    /// The namespace of the virtual machine.
    fn id(&self) -> (id: VmId)
        ensures
            id.0 == self.namespace(),
    ;

    /// Reads a transaction of the virtual machine from `payload`, if it
    /// holds one.
    fn decode(&self, payload: &[u8]) -> (decoded: Option<Self::Transaction>)
        ensures
            match decoded {
                Some(tx) => self.accepts(payload@) && self.decodes(payload@, tx),
                None => !self.accepts(payload@),
            },
    ;
}

/// `out` are the transactions that `vm` reads from `txs`, in order: one for
/// each payload that holds one, none for the others.
pub open spec fn read_by<V: Vm>(vm: V, txs: Seq<TransactionView>, out: Seq<V::Transaction>) -> bool
    decreases txs.len(),
{
    if txs.len() == 0 {
        out.len() == 0
    } else if vm.accepts(txs.last().payload) {
        &&& out.len() > 0
        &&& vm.decodes(txs.last().payload, out.last())
        &&& read_by(vm, txs.drop_last(), out.drop_last())
    } else {
        read_by(vm, txs.drop_last(), out)
    }
}

/// A virtual machine whose transactions are the payloads as they are.
#[derive(Clone, Copy, Debug, PartialEq, Eq)]
pub struct PlainVm {
    /// The namespace of the virtual machine.
    pub id: VmId,
}

impl Vm for PlainVm {
    type Transaction = Vec<u8>;

    open spec fn namespace(&self) -> u64 {
        self.id.0
    }

    open spec fn accepts(&self, payload: Seq<u8>) -> bool {
        true
    }

    open spec fn decodes(&self, payload: Seq<u8>, tx: Vec<u8>) -> bool {
        tx@ == payload
    }

    fn id(&self) -> (id: VmId) {
        self.id
    }

    fn decode(&self, payload: &[u8]) -> (decoded: Option<Vec<u8>>) {
        Some(copy_bytes(payload))
    }
}

/// The transactions that `vm` reads from the payloads of `txs`, in order.
pub fn read_all<V: Vm>(vm: &V, txs: &Vec<Transaction>) -> (out: Vec<V::Transaction>)
    ensures
        read_by(*vm, tx_views(txs@), out@),
{
    let ghost all = tx_views(txs@);
    let mut out: Vec<V::Transaction> = Vec::new();
    let mut i: usize = 0;
    assert(all.subrange(0, 0) =~= Seq::<TransactionView>::empty());
    while i < txs.len()
        invariant
            i <= txs@.len(),
            all == tx_views(txs@),
            read_by(*vm, all.subrange(0, i as int), out@),
        decreases txs@.len() - i,
    {
        let ghost before = out@;
        let ghost seen = all.subrange(0, i as int);
        let ghost next = all.subrange(0, i as int + 1);
        proof {
            assert(next.drop_last() =~= seen);
            assert(next.last() == all[i as int]);
        }
        match vm.decode(txs[i].payload()) {
            Some(tx) => {
                out.push(tx);
                assert(out@.drop_last() =~= before);
            },
            None => {},
        }
        i += 1;
    }
    assert(all.subrange(0, i as int) =~= all);
    out
}

impl Block {
    /// The transactions of the block that belong to `vm`, as `vm` reads
    /// them: those of its namespace, in the order in which they were
    /// appended, without the ones whose payload `vm` does not accept.
    pub fn vm_transactions<V: Vm>(&self, vm: &V) -> (found: Vec<V::Transaction>)
        requires
            self.wf(),
        ensures
            read_by(*vm, namespace_leaves(self@.txs, vm.namespace()), found@),
    {
        let mine = self.transactions_for_namespace(vm.id());
        read_all(vm, &mine)
    }
}

} // verus!
