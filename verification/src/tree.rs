//! The namespaced Merkle tree: an append-only tree over transactions kept in
//! non-decreasing namespace order.
//!
//! The tree keeps every level of nodes, so an append touches one node per
//! level and a proof reads one node per level.

use vstd::prelude::*;
use crate::error::BlockError;
use crate::node::{
    leaf_level, leaf_node, parent_level, right_child, root_of, tree_root, views, Node, NodeView,
};
use crate::inclusion::{accepts, lemma_inclusion_complete, path_of, sibling, InclusionProof};
use crate::transaction::{Transaction, TransactionView};

verus! {

/// The views of a vector of transactions.
pub open spec fn tx_views(txs: Seq<Transaction>) -> Seq<TransactionView> {
    Seq::new(txs.len(), |i: int| txs[i]@)
}

/// Leaves are in non-decreasing namespace order.
pub open spec fn sorted(txs: Seq<TransactionView>) -> bool {
    forall|i: int, j: int| 0 <= i <= j < txs.len() ==> txs[i].vm <= txs[j].vm
}

/// The levels of a tree as sequences of node views, leaves first.
pub open spec fn level_views(levels: Seq<Vec<Node>>) -> Seq<Seq<NodeView>> {
    Seq::new(levels.len(), |k: int| views(levels[k]@))
}

/// Each of the first `upto` levels has at least two nodes and the level
/// above it is its parent level.
pub open spec fn chained(levels: Seq<Seq<NodeView>>, upto: int) -> bool {
    forall|k: int| 0 <= k < upto ==> #[trigger] linked(levels, k)
}

/// Level `k` has at least two nodes and level `k + 1` is its parent level.
pub open spec fn linked(levels: Seq<Seq<NodeView>>, k: int) -> bool {
    levels[k].len() >= 2 && levels[k + 1] == parent_level(levels[k])
}

/// `levels` are all the levels of the tree over `leaves`: the leaf level
/// first, each level the parent level of the one below, the last with at
/// most one node.
pub open spec fn levels_of(levels: Seq<Seq<NodeView>>, leaves: Seq<TransactionView>) -> bool {
    shaped(levels) && levels[0] == leaf_level(leaves)
}

/// `after` is `before` with its last node replaced or one node added at its
/// end: what a level looks like once a leaf has been appended below it.
pub open spec fn edge_extends(before: Seq<NodeView>, after: Seq<NodeView>) -> bool {
    &&& after.len() >= 1
    &&& (after.len() == before.len() || after.len() == before.len() + 1)
    &&& forall|i: int| 0 <= i < after.len() - 1 ==> before[i] == after[i]
}

/// An edge change of a level changes the level above it at its edge only.
pub proof fn lemma_parent_level_edge(before: Seq<NodeView>, after: Seq<NodeView>)
    requires
        edge_extends(before, after),
    ensures
        edge_extends(parent_level(before), parent_level(after)),
{
    let pb = parent_level(before);
    let pa = parent_level(after);
    assert forall|i: int| 0 <= i < pa.len() - 1 implies pb[i] == pa[i] by {
        assert(2 * i + 1 < after.len() - 1);
        assert(before[2 * i] == after[2 * i]);
        assert(before[2 * i + 1] == after[2 * i + 1]);
        assert(right_child(before, i) == right_child(after, i));
    }
}

/// Every level of a chain has the root of its last level.
pub proof fn lemma_chain_root(levels: Seq<Seq<NodeView>>, k: int)
    requires
        levels.len() >= 1,
        chained(levels, levels.len() - 1),
        0 <= k < levels.len(),
    ensures
        root_of(levels[k]) == root_of(levels.last()),
    decreases levels.len() - k,
{
    if k < levels.len() - 1 {
        assert(linked(levels, k));
        lemma_chain_root(levels, k + 1);
    }
}

/// Adds `node` at the end of level `k`.
fn push_node(levels: &mut Vec<Vec<Node>>, k: usize, node: Node)
    requires
        k < old(levels)@.len(),
    ensures
        final(levels)@.len() == old(levels)@.len(),
        final(levels)@[k as int]@.len() == old(levels)@[k as int]@.len() + 1,
        level_views(final(levels)@) == level_views(old(levels)@).update(
            k as int,
            level_views(old(levels)@)[k as int].push(node@),
        ),
{
    levels[k].push(node);
    assert(level_views(levels@) =~= level_views(old(levels)@).update(
        k as int,
        level_views(old(levels)@)[k as int].push(node@),
    )) by {
        assert forall|i: int| 0 <= i < levels@.len() implies #[trigger] level_views(levels@)[i]
            == level_views(old(levels)@).update(
            k as int,
            level_views(old(levels)@)[k as int].push(node@),
        )[i] by {
            if i == k {
                assert(views(levels@[i]@) =~= views(old(levels)@[i]@).push(node@));
            } else {
                assert(levels@[i] == old(levels)@[i]);
            }
        }
    }
}

/// Replaces the `j`-th node of level `k` by `node`.
fn set_node(levels: &mut Vec<Vec<Node>>, k: usize, j: usize, node: Node)
    requires
        k < old(levels)@.len(),
        j < old(levels)@[k as int]@.len(),
    ensures
        final(levels)@.len() == old(levels)@.len(),
        final(levels)@[k as int]@.len() == old(levels)@[k as int]@.len(),
        level_views(final(levels)@) == level_views(old(levels)@).update(
            k as int,
            level_views(old(levels)@)[k as int].update(j as int, node@),
        ),
{
    levels[k][j] = node;
    assert(level_views(levels@) =~= level_views(old(levels)@).update(
        k as int,
        level_views(old(levels)@)[k as int].update(j as int, node@),
    )) by {
        assert forall|i: int| 0 <= i < levels@.len() implies #[trigger] level_views(levels@)[i]
            == level_views(old(levels)@).update(
            k as int,
            level_views(old(levels)@)[k as int].update(j as int, node@),
        )[i] by {
            if i == k {
                assert(views(levels@[i]@) =~= views(old(levels)@[i]@).update(j as int, node@));
            } else {
                assert(levels@[i] == old(levels)@[i]);
            }
        }
    }
}

/// Adds a level that holds `node` alone above the others.
fn push_level(levels: &mut Vec<Vec<Node>>, node: Node)
    ensures
        final(levels)@.len() == old(levels)@.len() + 1,
        level_views(final(levels)@) == level_views(old(levels)@).push(seq![node@]),
{
    let mut top: Vec<Node> = Vec::new();
    top.push(node);
    assert(views(top@) =~= seq![node@]);
    levels.push(top);
    assert(level_views(levels@) =~= level_views(old(levels)@).push(seq![node@])) by {
        assert forall|i: int| 0 <= i < levels@.len() implies #[trigger] level_views(levels@)[i]
            == level_views(old(levels)@).push(seq![node@])[i] by {
            if i < old(levels)@.len() {
                assert(levels@[i] == old(levels)@[i]);
            }
        }
    }
}

/// The last node of the level above level `k`, computed from level `k`.
fn edge_parent(levels: &Vec<Vec<Node>>, k: usize) -> (parent: Node)
    requires
        k < levels@.len(),
        levels@[k as int]@.len() >= 1,
    ensures
        parent@ == parent_level(level_views(levels@)[k as int]).last(),
{
    let level = &levels[k];
    let j = (level.len() - 1) / 2;
    let left = level[2 * j];
    let right = if 2 * j + 1 < level.len() {
        level[2 * j + 1]
    } else {
        Node::empty()
    };
    assert(parent_level(views(level@)).len() == j + 1);
    Node::parent(&left, &right)
}

/// Brings the level above level `k` up to date after a change at the edge of
/// level `k`: its last node is replaced, or one node is added to it, or it
/// is created.
fn lift_edge(levels: &mut Vec<Vec<Node>>, k: usize)
    requires
        k < old(levels)@.len(),
        old(levels)@[k as int]@.len() >= 2,
        k + 1 < old(levels)@.len() ==> edge_extends(
            level_views(old(levels)@)[k as int + 1],
            parent_level(level_views(old(levels)@)[k as int]),
        ),
        k + 1 == old(levels)@.len() ==> old(levels)@[k as int]@.len() == 2,
    ensures
        final(levels)@.len() == if k + 1 == old(levels)@.len() {
            old(levels)@.len() + 1
        } else {
            old(levels)@.len()
        },
        forall|i: int|
            0 <= i < old(levels)@.len() && i != k + 1 ==> #[trigger] level_views(final(levels)@)[i]
                == level_views(old(levels)@)[i],
        level_views(final(levels)@)[k as int + 1] == parent_level(
            level_views(old(levels)@)[k as int],
        ),
{
    let parent = edge_parent(levels, k);
    let ghost before = level_views(levels@);
    let ghost above = parent_level(before[k as int]);
    if k == levels.len() - 1 {
        assert(above =~= seq![parent@]);
        push_level(levels, parent);
    } else {
        let j = (levels[k].len() - 1) / 2;
        assert(above.len() == j + 1);
        if levels[k + 1].len() == j {
            push_node(levels, k + 1, parent);
            assert(before[k as int + 1].push(parent@) =~= above);
        } else {
            set_node(levels, k + 1, j, parent);
            assert(before[k as int + 1].update(j as int, parent@) =~= above);
        }
    }
}

/// The shape of a stack of levels: each level is the parent level of the one
/// below, and only the last has fewer than two nodes.
pub open spec fn shaped(levels: Seq<Seq<NodeView>>) -> bool {
    &&& levels.len() >= 1
    &&& chained(levels, levels.len() - 1)
    &&& levels.last().len() <= 1
}

/// Appending a transaction whose namespace id is not below the last keeps the
/// leaves in order.
pub proof fn lemma_sorted_push(txs: Seq<TransactionView>, tx: TransactionView)
    requires
        sorted(txs),
        txs.len() > 0 ==> txs.last().vm <= tx.vm,
    ensures
        sorted(txs.push(tx)),
{
    let after = txs.push(tx);
    assert forall|i: int, j: int| 0 <= i <= j < after.len() implies after[i].vm <= after[j].vm by {
        if j == after.len() - 1 && i < j {
            assert(txs[i].vm <= txs[txs.len() - 1].vm);
        } else if i < j {
            assert(txs[i].vm <= txs[j].vm);
        }
    }
}

/// Adds `leaf` to the leaf level and brings every level above it up to date.
fn grow(levels: &mut Vec<Vec<Node>>, leaf: Node)
    requires
        shaped(level_views(old(levels)@)),
    ensures
        shaped(level_views(final(levels)@)),
        level_views(final(levels)@)[0] == level_views(old(levels)@)[0].push(leaf@),
{
    let ghost before = level_views(levels@);
    push_node(levels, 0, leaf);
    let ghost bottom = level_views(levels@)[0];
    let mut k: usize = 0;
    while levels[k].len() > 1
        invariant
            before.len() >= 1,
            chained(before, before.len() - 1),
            before.last().len() <= 1,
            k < levels@.len(),
            levels@.len() == before.len() || (levels@.len() == before.len() + 1 && k
                == before.len()),
            level_views(levels@)[0] == bottom,
            chained(level_views(levels@), k as int),
            forall|j: int|
                k < j < levels@.len() ==> j < before.len() && #[trigger] level_views(levels@)[j]
                    == before[j],
            k < before.len() ==> edge_extends(before[k as int], level_views(levels@)[k as int]),
            k >= before.len() ==> levels@[k as int]@.len() == 1,
        decreases levels@.len() + before.len() + 1 - k - k,
    {
        let ghost now = level_views(levels@);
        proof {
            if k + 1 < levels@.len() {
                assert(now[k as int + 1] == before[k as int + 1]);
                assert(linked(before, k as int));
                lemma_parent_level_edge(before[k as int], now[k as int]);
            } else {
                assert(before[k as int].len() <= 1);
            }
        }
        lift_edge(levels, k);
        let ghost next = level_views(levels@);
        assert(chained(next, k as int + 1)) by {
            assert forall|i: int| 0 <= i < k + 1 implies #[trigger] linked(next, i) by {
                assert(next[i] == now[i]);
                if i < k {
                    assert(linked(now, i));
                    assert(next[i + 1] == now[i + 1]);
                }
            }
        }
        assert forall|i: int| k + 1 < i < levels@.len() implies i < before.len()
            && #[trigger] next[i] == before[i] by {
            assert(now[i] == before[i]);
            assert(next[i] == now[i]);
        }
        assert(next[0] == now[0]);
        assert(next[k as int + 1].len() == levels@[k as int + 1]@.len());
        assert(k + 1 >= before.len() ==> now[k as int].len() == 2);
        let total = levels.len();
        assert(k + 1 < total);
        k += 1;
    }
    proof {
        let now = level_views(levels@);
        if k + 1 < levels@.len() {
            assert(linked(before, k as int));
            assert(false);
        }
        assert(now.last() == now[k as int]);
    }
}

/// A namespaced Merkle tree over an ordered sequence of transactions.
#[derive(Debug)]
pub struct Tree {
    leaves: Vec<Transaction>,
    levels: Vec<Vec<Node>>,
}

impl View for Tree {
    type V = Seq<TransactionView>;

    closed spec fn view(&self) -> Seq<TransactionView> {
        tx_views(self.leaves@)
    }
}

impl Tree {
    /// The stored levels are those of the tree over the leaves.
    pub closed spec fn consistent(&self) -> bool {
        levels_of(level_views(self.levels@), self@)
    }

    /// Well-formedness: the leaves are in namespace order and every stored
    /// node is the node of the tree over them.
    pub open spec fn wf(&self) -> bool {
        self.consistent() && sorted(self@)
    }

    /// The tree without leaves.
    pub fn new_empty() -> (tree: Tree)
        ensures
            tree.wf(),
            tree@ == Seq::<TransactionView>::empty(),
    {
        let mut levels: Vec<Vec<Node>> = Vec::new();
        levels.push(Vec::new());
        let tree = Tree { leaves: Vec::new(), levels };
        assert(tree@ =~= Seq::<TransactionView>::empty());
        assert(level_views(tree.levels@)[0] =~= leaf_level(tree@));
        tree
    }

    /// Number of leaves.
    pub fn num_leaves(&self) -> (n: u64)
        ensures
            n == self@.len(),
    {
        self.leaves.len() as u64
    }

    /// The transaction at position `index`, if there is one.
    pub fn leaf_at(&self, index: u64) -> (leaf: Option<&Transaction>)
        ensures
            match leaf {
                Some(tx) => index < self@.len() && tx@ == self@[index as int],
                None => index >= self@.len(),
            },
    {
        if index < self.leaves.len() as u64 {
            Some(&self.leaves[index as usize])
        } else {
            None
        }
    }

    /// The leaves in order.
    pub fn leaves(&self) -> (leaves: &Vec<Transaction>)
        ensures
            tx_views(leaves@) == self@,
    {
        &self.leaves
    }

    /// Appends `tx` as the last leaf. Succeeds exactly when the namespace id
    /// of `tx` is not smaller than that of the last leaf; otherwise the tree
    /// is left as it was.
    pub fn append(&mut self, tx: Transaction) -> (result: Result<(), BlockError>)
        requires
            old(self).wf(),
        ensures
            final(self).wf(),
            match result {
                Ok(()) => {
                    &&& old(self)@.len() > 0 ==> old(self)@.last().vm <= tx@.vm
                    &&& final(self)@ == old(self)@.push(tx@)
                },
                Err(e) => {
                    &&& e == BlockError::OutOfOrderNamespace
                    &&& old(self)@.len() > 0
                    &&& tx@.vm < old(self)@.last().vm
                    &&& final(self)@ == old(self)@
                },
            },
    {
        let n = self.leaves.len();
        if n > 0 {
            let last = &self.leaves[n - 1];
            assert(last@ == self@.last());
            if tx.vm().0 < last.vm().0 {
                return Err(BlockError::OutOfOrderNamespace);
            }
        }
        let ghost old_leaves = self@;
        let leaf = Node::leaf(&tx);
        proof {
            lemma_sorted_push(old_leaves, tx@);
        }
        self.leaves.push(tx);
        assert(self@ =~= old_leaves.push(tx@));
        grow(&mut self.levels, leaf);
        assert(level_views(self.levels@)[0] =~= leaf_level(self@));
        Ok(())
    }

    /// The audit path of the leaf at position `index`, if there is one. The
    /// path is accepted with that leaf against the root of this tree.
    pub fn prove_inclusion(&self, index: u64) -> (found: Option<InclusionProof>)
        requires
            self.wf(),
        ensures
            match found {
                Some(p) => {
                    &&& index < self@.len()
                    &&& p@ == path_of(leaf_level(self@), index as int)
                    &&& accepts(
                        tree_root(self@),
                        leaf_node(self@[index as int]),
                        index as int,
                        p@,
                    )
                },
                None => index >= self@.len(),
            },
    {
        if index >= self.leaves.len() as u64 {
            return None;
        }
        Some(self.audit_path(index as usize))
    }

    /// The audit path of the leaf at position `index`: the sibling of the
    /// leaf, then the sibling of each node above it up to the root.
    pub fn audit_path(&self, index: usize) -> (audit: InclusionProof)
        requires
            self.wf(),
            index < self@.len(),
        ensures
            audit@ == path_of(leaf_level(self@), index as int),
            accepts(tree_root(self@), leaf_node(self@[index as int]), index as int, audit@),
    {
        let ghost all = level_views(self.levels@);
        let mut path: Vec<Node> = Vec::new();
        let mut idx = index;
        let mut k: usize = 0;
        assert(views(path@) + path_of(all[0], idx as int) =~= path_of(all[0], index as int));
        while k < self.levels.len() - 1
            invariant
                all == level_views(self.levels@),
                shaped(all),
                k < self.levels@.len(),
                idx < all[k as int].len(),
                views(path@) + path_of(all[k as int], idx as int) == path_of(
                    all[0],
                    index as int,
                ),
            decreases self.levels@.len() - k,
        {
            let level = &self.levels[k];
            assert(views(level@) == all[k as int]);
            let at = if idx % 2 == 0 {
                idx + 1
            } else {
                idx - 1
            };
            let sib = if at < level.len() {
                level[at]
            } else {
                Node::empty()
            };
            assert(sib@ == sibling(all[k as int], idx as int));
            let ghost before = views(path@);
            path.push(sib);
            proof {
                assert(linked(all, k as int));
                assert(views(path@) =~= before.push(sib@));
                assert(views(path@) + path_of(all[k as int + 1], idx as int / 2) =~= before
                    + path_of(all[k as int], idx as int));
            }
            idx = idx / 2;
            k += 1;
        }
        proof {
            assert(all[k as int] == all.last());
            assert(path_of(all[k as int], idx as int) =~= Seq::<NodeView>::empty());
            assert(views(path@) =~= path_of(all[0], index as int));
            lemma_inclusion_complete(self@, index as int);
        }
        InclusionProof { path }
    }

    /// The tree over `txs`, built leaf by leaf. Fails exactly when `txs` are
    /// not in non-decreasing namespace order: a list of leaves is held to
    /// the same order as single appends.
    pub fn from_leaves(txs: &Vec<Transaction>) -> (built: Result<Tree, BlockError>)
        ensures
            match built {
                Ok(tree) => tree.wf() && tree@ == tx_views(txs@),
                Err(e) => e == BlockError::OutOfOrderNamespace && !sorted(tx_views(txs@)),
            },
    {
        let ghost all = tx_views(txs@);
        let mut tree = Tree::new_empty();
        let mut i: usize = 0;
        while i < txs.len()
            invariant
                all == tx_views(txs@),
                i <= txs@.len(),
                tree.wf(),
                tree@ == all.subrange(0, i as int),
            decreases txs@.len() - i,
        {
            let ghost before = tree@;
            match tree.append(txs[i].clone()) {
                Ok(()) => {
                    assert(tree@ =~= all.subrange(0, i as int + 1));
                },
                Err(e) => {
                    assert(before.last() == all[i as int - 1]);
                    assert(all[i as int].vm < all[i as int - 1].vm);
                    return Err(e);
                },
            }
            i += 1;
        }
        assert(tree@ =~= all);
        Ok(tree)
    }

    /// The root node: digest and namespace range of the whole tree.
    pub fn root(&self) -> (root: Node)
        requires
            self.wf(),
        ensures
            root@ == tree_root(self@),
    {
        proof {
            lemma_chain_root(level_views(self.levels@), 0);
        }
        let top = &self.levels[self.levels.len() - 1];
        assert(views(top@) == level_views(self.levels@).last());
        if top.len() == 0 {
            Node::empty()
        } else {
            top[0]
        }
    }
}

/// The `j`-th node of `level` spans a proper interval that ends before the
/// interval of the next node starts.
pub open spec fn in_order(level: Seq<NodeView>, j: int) -> bool {
    &&& level[j].range.min <= level[j].range.max
    &&& j + 1 < level.len() ==> level[j].range.max <= level[j + 1].range.min
}

/// The nodes of `level` span intervals in non-decreasing order.
pub open spec fn ordered_level(level: Seq<NodeView>) -> bool {
    forall|j: int| 0 <= j < level.len() ==> #[trigger] in_order(level, j)
}

/// Above an ordered level, each parent spans from the smallest id of its
/// left child to the largest id of its last child, and the parents are
/// ordered again.
pub proof fn lemma_parent_level_ordered(level: Seq<NodeView>)
    requires
        level.len() >= 1,
        ordered_level(level),
    ensures
        ordered_level(parent_level(level)),
        parent_level(level)[0].range.min == level[0].range.min,
        parent_level(level).last().range.max == level.last().range.max,
{
    let above = parent_level(level);
    assert forall|j: int| 0 <= j < above.len() implies #[trigger] in_order(above, j) && above[j].range.min
        == level[2 * j].range.min && above[j].range.max == (if 2 * j + 1 < level.len() {
        level[2 * j + 1].range.max
    } else {
        level[2 * j].range.max
    }) by {
        assert(in_order(level, 2 * j));
        if 2 * j + 1 < level.len() {
            assert(in_order(level, 2 * j + 1));
        }
        if j + 1 < above.len() {
            assert(in_order(level, 2 * j + 1));
            assert(in_order(level, 2 * j + 2));
            if 2 * j + 3 < level.len() {
                assert(in_order(level, 2 * j + 3));
            }
        }
    }
    assert(in_order(above, 0));
    assert(in_order(above, above.len() - 1));
}

/// The root above an ordered level spans from the smallest id of its first
/// node to the largest id of its last node.
pub proof fn lemma_root_spans_level(level: Seq<NodeView>)
    requires
        level.len() >= 1,
        ordered_level(level),
    ensures
        root_of(level).range.min == level[0].range.min,
        root_of(level).range.max == level.last().range.max,
    decreases level.len(),
{
    if level.len() > 1 {
        lemma_parent_level_ordered(level);
        lemma_root_spans_level(parent_level(level));
    }
}

/// The range of the root is the range of the leaves: over leaves in
/// namespace order the root spans from the namespace id of the first leaf to
/// that of the last.
pub proof fn lemma_root_range(txs: Seq<TransactionView>)
    requires
        txs.len() >= 1,
        sorted(txs),
    ensures
        tree_root(txs).range.min == txs[0].vm,
        tree_root(txs).range.max == txs.last().vm,
{
    let leaves = leaf_level(txs);
    assert forall|j: int| 0 <= j < leaves.len() implies #[trigger] in_order(leaves, j) by {
        if j + 1 < leaves.len() {
            assert(txs[j].vm <= txs[j + 1].vm);
        }
    }
    lemma_root_spans_level(leaves);
}

/// Determinism: two trees over the same ordered leaves have the same root,
/// digest and range, however each was built.
pub proof fn lemma_root_is_determined(a: Tree, b: Tree, root_a: Node, root_b: Node)
    requires
        a@ == b@,
        root_a@ == tree_root(a@),
        root_b@ == tree_root(b@),
    ensures
        root_a.digest@ == root_b.digest@,
        root_a.range == root_b.range,
{
}

/// A copy of a vector of nodes.
fn copy_nodes(src: &Vec<Node>) -> (out: Vec<Node>)
    ensures
        out@ == src@,
{
    let mut out: Vec<Node> = Vec::new();
    let mut i: usize = 0;
    while i < src.len()
        invariant
            i <= src@.len(),
            out@ == src@.subrange(0, i as int),
        decreases src@.len() - i,
    {
        out.push(src[i]);
        assert(out@ =~= src@.subrange(0, i as int + 1));
        i += 1;
    }
    assert(out@ =~= src@);
    out
}

/// A copy of a vector of transactions.
pub fn copy_transactions(src: &Vec<Transaction>) -> (out: Vec<Transaction>)
    ensures
        tx_views(out@) == tx_views(src@),
{
    let mut out: Vec<Transaction> = Vec::new();
    let mut i: usize = 0;
    while i < src.len()
        invariant
            i <= src@.len(),
            tx_views(out@) == tx_views(src@).subrange(0, i as int),
        decreases src@.len() - i,
    {
        let ghost before = tx_views(out@);
        out.push(src[i].clone());
        assert(tx_views(out@) =~= before.push(src@[i as int]@));
        assert(tx_views(out@) =~= tx_views(src@).subrange(0, i as int + 1));
        i += 1;
    }
    assert(tx_views(out@) =~= tx_views(src@));
    out
}

impl Clone for Tree {
    fn clone(&self) -> (copy: Tree)
        ensures
            copy@ == self@,
            self.wf() ==> copy.wf(),
    {
        let leaves = copy_transactions(&self.leaves);
        let mut levels: Vec<Vec<Node>> = Vec::new();
        let mut k: usize = 0;
        while k < self.levels.len()
            invariant
                k <= self.levels@.len(),
                levels@.len() == k,
                level_views(levels@) == level_views(self.levels@).subrange(0, k as int),
            decreases self.levels@.len() - k,
        {
            let ghost before = level_views(levels@);
            let level = copy_nodes(&self.levels[k]);
            levels.push(level);
            assert(level_views(levels@) =~= before.push(views(self.levels@[k as int]@)));
            assert(level_views(levels@) =~= level_views(self.levels@).subrange(0, k as int + 1));
            k += 1;
        }
        assert(level_views(levels@) =~= level_views(self.levels@));
        Tree { leaves, levels }
    }
}

} // verus!
