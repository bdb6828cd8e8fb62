//! Nodes of the namespaced Merkle tree and the rule that combines them.
//!
//! The tree over a sequence of leaves is defined level by level: each level
//! pairs up the nodes of the level below, the last node of an odd level with
//! the absent node, until one node is left.

use vstd::prelude::*;
use vstd::bytes::spec_u64_to_le_bytes;
use crate::bytes::append_bytes;
use crate::hash::{hash_bytes, tree_hash};
use crate::transaction::{encoding, push_u64_le, Transaction, TransactionView};

verus! {

/// First byte of the hash input of a leaf.
pub const LEAF_TAG: u8 = 0x00;

/// First byte of the hash input of an internal node.
pub const NODE_TAG: u8 = 0x01;

/// Smallest namespace id.
pub const MIN_NAMESPACE: u64 = 0;

/// Largest namespace id.
pub const MAX_NAMESPACE: u64 = 0xffff_ffff_ffff_ffff;

/// The namespace ids that occur below a node, as a closed interval. The
/// interval of no leaves at all is the inverted pair
/// `(MAX_NAMESPACE, MIN_NAMESPACE)`.
#[derive(Clone, Copy, Debug, PartialEq, Eq, Structural, Hash)]
pub struct NamespaceRange {
    /// Smallest namespace id below the node.
    pub min: u64,
    /// Largest namespace id below the node.
    pub max: u64,
}

/// The mathematical content of a node.
pub struct NodeView {
    /// Digest of the subtree.
    pub digest: Seq<u8>,
    /// Namespace ids below the node.
    pub range: NamespaceRange,
}

/// A node of the tree: the digest of its subtree and the namespace ids that
/// occur in it.
#[derive(Clone, Copy, Debug, PartialEq, Eq, Hash)]
pub struct Node {
    /// Digest of the subtree.
    pub digest: [u8; 32],
    /// Namespace ids below the node.
    pub range: NamespaceRange,
}

impl View for Node {
    type V = NodeView;

    open spec fn view(&self) -> NodeView {
        NodeView { digest: self.digest@, range: self.range }
    }
}

/// The interval of no leaves.
pub open spec fn empty_range() -> NamespaceRange {
    NamespaceRange { min: MAX_NAMESPACE, max: MIN_NAMESPACE }
}

/// The smallest interval that holds both `a` and `b`. The empty interval is
/// its unit.
pub open spec fn range_union(a: NamespaceRange, b: NamespaceRange) -> NamespaceRange {
    NamespaceRange {
        min: if a.min <= b.min { a.min } else { b.min },
        max: if a.max >= b.max { a.max } else { b.max },
    }
}

/// The digest that stands for an absent subtree.
pub open spec fn absent_digest() -> Seq<u8> {
    Seq::new(32, |i: int| 0u8)
}

/// The node that stands for an absent subtree, and the root of the tree
/// without leaves.
pub open spec fn empty_node() -> NodeView {
    NodeView { digest: absent_digest(), range: empty_range() }
}

/// Hash input of a leaf: the leaf tag, then the canonical bytes of the
/// transaction, which start with its namespace id.
pub open spec fn leaf_preimage(tx: TransactionView) -> Seq<u8> {
    seq![LEAF_TAG] + encoding(tx)
}

/// The leaf node of a transaction.
pub open spec fn leaf_node(tx: TransactionView) -> NodeView {
    NodeView {
        digest: tree_hash(leaf_preimage(tx)),
        range: NamespaceRange { min: tx.vm, max: tx.vm },
    }
}

/// A child as it enters the hash input of its parent: smallest id, largest
/// id, digest.
pub open spec fn node_bytes(node: NodeView) -> Seq<u8> {
    spec_u64_to_le_bytes(node.range.min) + spec_u64_to_le_bytes(node.range.max) + node.digest
}

/// Hash input of an internal node: the node tag, the left child, the right
/// child.
pub open spec fn node_preimage(left: NodeView, right: NodeView) -> Seq<u8> {
    seq![NODE_TAG] + node_bytes(left) + node_bytes(right)
}

/// The parent of `left` and `right`.
pub open spec fn combine(left: NodeView, right: NodeView) -> NodeView {
    NodeView {
        digest: tree_hash(node_preimage(left, right)),
        range: range_union(left.range, right.range),
    }
}

/// The right child of the `j`-th node of the level above `level`: absent
/// where `level` ends before it.
pub open spec fn right_child(level: Seq<NodeView>, j: int) -> NodeView {
    if 2 * j + 1 < level.len() {
        level[2 * j + 1]
    } else {
        empty_node()
    }
}

/// The level above `level`.
pub open spec fn parent_level(level: Seq<NodeView>) -> Seq<NodeView> {
    Seq::new(
        ((level.len() + 1) / 2) as nat,
        |j: int| combine(level[2 * j], right_child(level, j)),
    )
}

/// The root above `level`.
pub open spec fn root_of(level: Seq<NodeView>) -> NodeView
    decreases level.len(),
{
    if level.len() == 0 {
        empty_node()
    } else if level.len() == 1 {
        level[0]
    } else {
        root_of(parent_level(level))
    }
}

/// The leaf nodes of a sequence of transactions.
pub open spec fn leaf_level(txs: Seq<TransactionView>) -> Seq<NodeView> {
    Seq::new(txs.len(), |i: int| leaf_node(txs[i]))
}

/// The root of the tree over `txs`: a function of the ordered leaf sequence
/// alone.
pub open spec fn tree_root(txs: Seq<TransactionView>) -> NodeView {
    root_of(leaf_level(txs))
}

/// The views of a vector of nodes.
pub open spec fn views(nodes: Seq<Node>) -> Seq<NodeView> {
    Seq::new(nodes.len(), |i: int| nodes[i]@)
}

impl NamespaceRange {
    /// The interval of no leaves.
    pub fn empty() -> (range: NamespaceRange)
        ensures
            range == empty_range(),
    {
        NamespaceRange { min: MAX_NAMESPACE, max: MIN_NAMESPACE }
    }

    /// The smallest interval that holds both `self` and `other`.
    pub fn union(&self, other: &NamespaceRange) -> (range: NamespaceRange)
        ensures
            range == range_union(*self, *other),
    {
        NamespaceRange {
            min: if self.min <= other.min { self.min } else { other.min },
            max: if self.max >= other.max { self.max } else { other.max },
        }
    }
}

impl Node {
    /// The node that stands for an absent subtree.
    pub fn empty() -> (node: Node)
        ensures
            node@ == empty_node(),
    {
        let node = Node { digest: [0u8; 32], range: NamespaceRange::empty() };
        assert(node.digest@ =~= absent_digest());
        node
    }

    /// The leaf node of `tx`.
    pub fn leaf(tx: &Transaction) -> (node: Node)
        ensures
            node@ == leaf_node(tx@),
    {
        let mut buf: Vec<u8> = Vec::new();
        buf.push(LEAF_TAG);
        push_u64_le(&mut buf, tx.vm().0);
        append_bytes(&mut buf, tx.payload());
        assert(buf@ =~= leaf_preimage(tx@));
        let vm = tx.vm().0;
        Node { digest: hash_bytes(&buf), range: NamespaceRange { min: vm, max: vm } }
    }

    /// The parent of `left` and `right`.
    pub fn parent(left: &Node, right: &Node) -> (node: Node)
        ensures
            node@ == combine(left@, right@),
    {
        let mut buf: Vec<u8> = Vec::new();
        buf.push(NODE_TAG);
        push_u64_le(&mut buf, left.range.min);
        push_u64_le(&mut buf, left.range.max);
        append_bytes(&mut buf, left.digest.as_slice());
        push_u64_le(&mut buf, right.range.min);
        push_u64_le(&mut buf, right.range.max);
        append_bytes(&mut buf, right.digest.as_slice());
        assert(buf@ =~= node_preimage(left@, right@));
        Node { digest: hash_bytes(&buf), range: left.range.union(&right.range) }
    }

    /// Whether two nodes have the same digest and the same range.
    pub fn same(&self, other: &Node) -> (same: bool)
        ensures
            same == (self@ == other@),
    {
        crate::bytes::bytes_eq(self.digest.as_slice(), other.digest.as_slice())
            && self.range.min == other.range.min && self.range.max == other.range.max
    }

    /// Whether the node stands for an absent subtree.
    pub fn is_empty(&self) -> (absent: bool)
        ensures
            absent == (self@ == empty_node()),
    {
        let empty = Node::empty();
        self.same(&empty)
    }
}

} // verus!
