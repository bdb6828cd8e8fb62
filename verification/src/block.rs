//! The block: the container of one tree that the rest of the system uses.
//!
//! A block starts empty, takes transactions in namespace order, and can be
//! frozen, after which nothing is appended to it. Appending returns a new
//! block and leaves the block it was called on as it was.

use vstd::prelude::*;
use vstd::bytes::spec_u64_to_le_bytes;
use crate::bytes::{append_bytes, bytes_eq};
use crate::error::BlockError;
use crate::hash::{keccak256, keccak256_of};
use crate::inclusion::{accepts, path_of, InclusionProof};
use crate::namespace::{
    is_namespace_range, namespace_accepts, namespace_leaves, NamespaceProof,
};
use crate::node::{
    leaf_level, leaf_node, leaf_preimage, node_preimage, tree_root, Node, NodeView,
};
use crate::transaction::{
    commitment, commitment_preimage, push_tagged, push_u64_le, tagged, Transaction,
    TransactionView, VmId,
};
use crate::tree::{sorted, tx_views, Tree};

verus! {

/// The mathematical content of a block.
pub struct BlockView {
    /// The transactions in order.
    pub txs: Seq<TransactionView>,
    /// Whether the block is closed to appends.
    pub frozen: bool,
}

/// A block of transactions over one namespaced Merkle tree.
#[derive(Debug)]
pub struct Block {
    tree: Tree,
    frozen: bool,
}

impl View for Block {
    type V = BlockView;

    closed spec fn view(&self) -> BlockView {
        BlockView { txs: self.tree@, frozen: self.frozen }
    }
}

/// `"Block Comm"` in ASCII.
pub open spec fn block_tag() -> Seq<u8> {
    seq![0x42u8, 0x6cu8, 0x6fu8, 0x63u8, 0x6bu8, 0x20u8, 0x43u8, 0x6fu8, 0x6du8, 0x6du8]
}

/// `"txns"` in ASCII.
pub open spec fn txns_field_name() -> Seq<u8> {
    seq![0x74u8, 0x78u8, 0x6eu8, 0x73u8]
}

/// The commitments of `txs` one after the other.
pub open spec fn commitments_of(txs: Seq<TransactionView>) -> Seq<u8>
    decreases txs.len(),
{
    if txs.len() == 0 {
        Seq::empty()
    } else {
        commitments_of(txs.drop_last()) + commitment(txs.last())
    }
}

/// The bytes whose Keccak-256 digest commits to a block: the block tag, the
/// field name, the number of transactions, and the commitment of each
/// transaction in order. The tag sets the block commitment apart from the
/// root of the tree and from the commitment of a transaction.
pub open spec fn block_preimage(txs: Seq<TransactionView>) -> Seq<u8> {
    tagged(block_tag()) + tagged(txns_field_name()) + spec_u64_to_le_bytes(txs.len() as u64)
        + commitments_of(txs)
}

/// The commitment of the block that holds `txs`: a function of the ordered
/// transactions alone.
pub open spec fn block_commitment(txs: Seq<TransactionView>) -> Seq<u8> {
    keccak256_of(block_preimage(txs))
}

/// Whether `set` holds the digest `digest`.
pub open spec fn holds(set: Seq<[u8; 32]>, digest: Seq<u8>) -> bool {
    exists|k: int| 0 <= k < set.len() && set[k]@ == digest
}

/// Whether `digest` is the commitment of some transaction of `txs`.
pub open spec fn commits_to_one(digest: [u8; 32], txs: Seq<TransactionView>) -> bool {
    exists|j: int| 0 <= j < txs.len() && digest@ == commitment(txs[j])
}

/// `set` is the set of the commitments of `txs`: it holds the commitment of
/// each transaction, nothing else, and nothing twice.
pub open spec fn is_commitment_set(set: Seq<[u8; 32]>, txs: Seq<TransactionView>) -> bool {
    &&& forall|j: int| 0 <= j < txs.len() ==> holds(set, commitment(#[trigger] txs[j]))
    &&& forall|k: int| 0 <= k < set.len() ==> commits_to_one(#[trigger] set[k], txs)
    &&& forall|k: int, l: int| 0 <= k < l < set.len() ==> set[k]@ != set[l]@
}

/// Whether `set` holds `digest`.
pub fn holds_digest(set: &Vec<[u8; 32]>, digest: &[u8; 32]) -> (found: bool)
    ensures
        found == holds(set@, digest@),
{
    let mut k: usize = 0;
    while k < set.len()
        invariant
            k <= set@.len(),
            forall|l: int| 0 <= l < k ==> set@[l]@ != digest@,
        decreases set@.len() - k,
    {
        if bytes_eq(set[k].as_slice(), digest.as_slice()) {
            return true;
        }
        k += 1;
    }
    false
}

impl Block {
    /// Well-formedness: the tree is well formed.
    pub closed spec fn wf(&self) -> bool {
        self.tree.wf()
    }

    /// The transactions of a well-formed block are in namespace order.
    pub proof fn lemma_wf_sorted(&self)
        requires
            self.wf(),
        ensures
            sorted(self@.txs),
    {
    }

    /// The first block: no transactions, open to appends.
    pub fn genesis() -> (block: Block)
        ensures
            block.wf(),
            block@.txs == Seq::<TransactionView>::empty(),
            !block@.frozen,
    {
        Block { tree: Tree::new_empty(), frozen: false }
    }

    /// An empty block, open to appends.
    pub fn new() -> (block: Block)
        ensures
            block.wf(),
            block@.txs == Seq::<TransactionView>::empty(),
            !block@.frozen,
    {
        Block::genesis()
    }

    /// The block over `txs`, open to appends. Fails exactly when `txs` are
    /// not in non-decreasing namespace order.
    pub fn from_leaves(txs: &Vec<Transaction>) -> (built: Result<Block, BlockError>)
        ensures
            match built {
                Ok(block) => block.wf() && block@.txs == tx_views(txs@) && !block@.frozen,
                Err(e) => e == BlockError::OutOfOrderNamespace && !sorted(tx_views(txs@)),
            },
            sorted(tx_views(txs@)) ==> built.is_ok(),
    {
        match Tree::from_leaves(txs) {
            Ok(tree) => Ok(Block { tree, frozen: false }),
            Err(e) => Err(e),
        }
    }

    /// A block with the transactions of this one and `tx` after them. Fails
    /// with `BlockFrozen` if this block is frozen, else with
    /// `OutOfOrderNamespace` if the namespace id of `tx` is smaller than
    /// that of the last transaction, and on no other input.
    pub fn add_transaction_raw(&self, tx: &Transaction) -> (added: Result<Block, BlockError>)
        requires
            self.wf(),
        ensures
            match added {
                Ok(block) => {
                    &&& !self@.frozen
                    &&& self@.txs.len() > 0 ==> self@.txs.last().vm <= tx@.vm
                    &&& block.wf()
                    &&& block@.txs == self@.txs.push(tx@)
                    &&& !block@.frozen
                },
                Err(e) => if self@.frozen {
                    e == BlockError::BlockFrozen
                } else {
                    &&& e == BlockError::OutOfOrderNamespace
                    &&& self@.txs.len() > 0
                    &&& tx@.vm < self@.txs.last().vm
                },
            },
    {
        if self.frozen {
            return Err(BlockError::BlockFrozen);
        }
        let mut tree = self.tree.clone();
        match tree.append(tx.clone()) {
            Ok(()) => Ok(Block { tree, frozen: false }),
            Err(e) => Err(e),
        }
    }

    /// Closes the block to appends.
    pub fn freeze(&mut self)
        requires
            old(self).wf(),
        ensures
            final(self).wf(),
            final(self)@.txs == old(self)@.txs,
            final(self)@.frozen,
    {
        self.frozen = true;
    }

    /// Whether the block is closed to appends.
    pub fn is_frozen(&self) -> (frozen: bool)
        ensures
            frozen == self@.frozen,
    {
        self.frozen
    }

    /// Number of transactions.
    pub fn len(&self) -> (n: usize)
        ensures
            n == self@.txs.len(),
    {
        self.tree.leaves().len()
    }

    /// Number of transactions.
    pub fn txn_count(&self) -> (n: u64)
        ensures
            n == self@.txs.len(),
    {
        self.tree.num_leaves()
    }

    /// The positions of the transactions: `0`, `1`, and so on, one for each.
    pub fn iter(&self) -> (positions: Vec<u64>)
        ensures
            positions@.len() == self@.txs.len(),
            forall|i: int| 0 <= i < positions@.len() ==> positions@[i] == i,
    {
        let n = self.tree.num_leaves();
        let mut positions: Vec<u64> = Vec::new();
        let mut i: u64 = 0;
        while i < n
            invariant
                i <= n,
                positions@.len() == i,
                forall|j: int| 0 <= j < positions@.len() ==> positions@[j] == j,
            decreases n - i,
        {
            positions.push(i);
            i += 1;
        }
        positions
    }

    /// The transactions in order.
    pub fn transactions(&self) -> (txs: &Vec<Transaction>)
        ensures
            tx_views(txs@) == self@.txs,
    {
        self.tree.leaves()
    }

    /// The transaction at position `index`, if there is one.
    pub fn transaction(&self, index: &u64) -> (found: Option<&Transaction>)
        ensures
            match found {
                Some(tx) => *index < self@.txs.len() && tx@ == self@.txs[*index as int],
                None => *index >= self@.txs.len(),
            },
    {
        self.tree.leaf_at(*index)
    }

    /// The transaction at position `index` with its audit path, if there is
    /// one. The path is accepted with the transaction against the root of
    /// the block.
    pub fn transaction_with_proof(&self, index: &u64) -> (found: Option<
        (&Transaction, InclusionProof),
    >)
        requires
            self.wf(),
        ensures
            match found {
                Some((tx, audit)) => {
                    &&& *index < self@.txs.len()
                    &&& tx@ == self@.txs[*index as int]
                    &&& audit@ == path_of(leaf_level(self@.txs), *index as int)
                    &&& accepts(tree_root(self@.txs), leaf_node(tx@), *index as int, audit@)
                },
                None => *index >= self@.txs.len(),
            },
    {
        match self.tree.leaf_at(*index) {
            Some(tx) => match self.tree.prove_inclusion(*index) {
                Some(audit) => Some((tx, audit)),
                None => None,
            },
            None => None,
        }
    }

    /// The transactions of namespace `vm`, in the order in which they were
    /// appended.
    pub fn transactions_for_namespace(&self, vm: VmId) -> (found: Vec<Transaction>)
        requires
            self.wf(),
        ensures
            tx_views(found@) == namespace_leaves(self@.txs, vm.0),
    {
        self.tree.transactions_for_namespace(vm)
    }

    /// The transactions of namespace `vm` with the evidence that they are
    /// all of it.
    pub fn namespace_with_proof(&self, vm: VmId) -> (found: (Vec<Transaction>, NamespaceProof))
        requires
            self.wf(),
        ensures
            tx_views(found.0@) == namespace_leaves(self@.txs, vm.0),
            is_namespace_range(
                self@.txs,
                vm.0,
                found.1@.start as int,
                found.1@.start + found.0@.len(),
            ),
            namespace_accepts(tree_root(self@.txs), vm.0, tx_views(found.0@), found.1@),
    {
        self.tree.prove_namespace(vm)
    }

    /// The commitments of the transactions of the block as a set: each
    /// commitment once, in the order of its first transaction.
    pub fn contained_transactions(&self) -> (set: Vec<[u8; 32]>)
        ensures
            is_commitment_set(set@, self@.txs),
    {
        let txs = self.tree.leaves();
        let ghost all = tx_views(txs@);
        let mut set: Vec<[u8; 32]> = Vec::new();
        let mut i: usize = 0;
        while i < txs.len()
            invariant
                i <= txs@.len(),
                all == tx_views(txs@),
                is_commitment_set(set@, all.subrange(0, i as int)),
            decreases txs@.len() - i,
        {
            let digest = txs[i].commit();
            let ghost before = set@;
            let ghost seen = all.subrange(0, i as int);
            let ghost next = all.subrange(0, i as int + 1);
            if !holds_digest(&set, &digest) {
                set.push(digest);
            }
            proof {
                assert(next[i as int] == all[i as int]);
                assert forall|j: int| 0 <= j < next.len() implies holds(
                    set@,
                    commitment(#[trigger] next[j]),
                ) by {
                    if j < i {
                        assert(seen[j] == next[j]);
                        let k = choose|k: int| 0 <= k < before.len() && before[k]@ == commitment(seen[j]);
                        assert(set@[k] == before[k]);
                    } else if holds(before, digest@) {
                        let k = choose|k: int| 0 <= k < before.len() && before[k]@ == digest@;
                        assert(set@[k] == before[k]);
                    } else {
                        assert(set@[before.len() as int]@ == digest@);
                    }
                }
                assert forall|k: int| 0 <= k < set@.len() implies commits_to_one(
                    #[trigger] set@[k],
                    next,
                ) by {
                    if k < before.len() {
                        assert(commits_to_one(before[k], seen));
                        let j = choose|j: int| 0 <= j < seen.len() && before[k]@ == commitment(seen[j]);
                        assert(next[j] == seen[j]);
                    } else {
                        assert(set@[k]@ == commitment(next[i as int]));
                    }
                }
            }
            i += 1;
        }
        assert(all.subrange(0, i as int) =~= all);
        set
    }

    /// The root of the tree: digest and namespace range.
    pub fn root(&self) -> (root: Node)
        requires
            self.wf(),
        ensures
            root@ == tree_root(self@.txs),
    {
        self.tree.root()
    }

    /// The commitment to the block.
    pub fn commit(&self) -> (digest: [u8; 32])
        ensures
            digest@ == block_commitment(self@.txs),
    {
        let txs = self.tree.leaves();
        let mut buf: Vec<u8> = Vec::new();
        let tag: [u8; 10] = [0x42, 0x6c, 0x6f, 0x63, 0x6b, 0x20, 0x43, 0x6f, 0x6d, 0x6d];
        let name: [u8; 4] = [0x74, 0x78, 0x6e, 0x73];
        assert(tag@ =~= block_tag());
        assert(name@ =~= txns_field_name());
        push_tagged(&mut buf, tag.as_slice());
        push_tagged(&mut buf, name.as_slice());
        push_u64_le(&mut buf, txs.len() as u64);
        let ghost head = buf@;
        let ghost all = tx_views(txs@);
        let mut i: usize = 0;
        assert(all.subrange(0, 0) =~= Seq::<TransactionView>::empty());
        while i < txs.len()
            invariant
                i <= txs@.len(),
                all == tx_views(txs@),
                buf@ == head + commitments_of(all.subrange(0, i as int)),
            decreases txs@.len() - i,
        {
            let digest = txs[i].commit();
            append_bytes(&mut buf, digest.as_slice());
            proof {
                let next = all.subrange(0, i as int + 1);
                assert(next.drop_last() =~= all.subrange(0, i as int));
                assert(next.last() == all[i as int]);
                assert(buf@ =~= head + commitments_of(next));
            }
            i += 1;
        }
        assert(all.subrange(0, i as int) =~= all);
        assert(buf@ =~= block_preimage(all));
        keccak256(&buf)
    }
}

/// Domain separation: what is hashed for the commitment of a block is never
/// what is hashed for the commitment of a transaction, for a leaf or for an
/// internal node of the tree.
pub proof fn lemma_block_commitment_is_set_apart(
    txs: Seq<TransactionView>,
    tx: TransactionView,
    left: NodeView,
    right: NodeView,
)
    ensures
        block_preimage(txs) != commitment_preimage(tx),
        block_preimage(txs) != leaf_preimage(tx),
        block_preimage(txs) != node_preimage(left, right),
        commitment_preimage(tx) != leaf_preimage(tx),
        commitment_preimage(tx) != node_preimage(left, right),
        leaf_preimage(tx) != node_preimage(left, right),
{
    assert(block_preimage(txs)[0] == 0x42u8);
    assert(commitment_preimage(tx)[0] == 0x54u8);
    assert(leaf_preimage(tx)[0] == 0x00u8);
    assert(node_preimage(left, right)[0] == 0x01u8);
}

/// Commitment stability: a block rebuilt from the transactions of a
/// well-formed block, in their order, exists and has the commitment and the
/// root of the first.
pub proof fn lemma_rebuilt_block_commits_alike(
    source: Block,
    leaves: Seq<Transaction>,
    rebuilt: Result<Block, BlockError>,
)
    requires
        source.wf(),
        tx_views(leaves) == source@.txs,
        match rebuilt {
            Ok(block) => block@.txs == tx_views(leaves),
            Err(e) => !sorted(tx_views(leaves)),
        },
    ensures
        rebuilt matches Ok(block) && block_commitment(block@.txs) == block_commitment(
            source@.txs,
        ) && tree_root(block@.txs) == tree_root(source@.txs),
{
    source.lemma_wf_sorted();
}

impl Clone for Block {
    fn clone(&self) -> (copy: Block)
        ensures
            copy@ == self@,
            self.wf() ==> copy.wf(),
    {
        Block { tree: self.tree.clone(), frozen: self.frozen }
    }
}

} // verus!
