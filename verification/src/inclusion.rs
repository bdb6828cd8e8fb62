//! Inclusion proofs: the audit path from a leaf to the root, each step with
//! the sibling's digest and namespace range, and the check that recomputes
//! the root from it.

use vstd::prelude::*;
use vstd::bytes::{spec_u64_to_le_bytes, lemma_auto_spec_u64_to_from_le_bytes};
use crate::error::BlockError;
use crate::hash::collision;
use crate::node::{
    combine, empty_node, leaf_level, leaf_node, leaf_preimage, node_preimage,
    parent_level, right_child, root_of, tree_root, views, Node, NodeView,
};
use crate::transaction::{lemma_encoding_injective, encoding, Transaction, TransactionView};

verus! {

/// The node next to the `idx`-th node of `level`, with which it shares a
/// parent: absent where `level` ends before it.
pub open spec fn sibling(level: Seq<NodeView>, idx: int) -> NodeView {
    let at = if idx % 2 == 0 {
        idx + 1
    } else {
        idx - 1
    };
    if at < level.len() {
        level[at]
    } else {
        empty_node()
    }
}

/// The audit path of the `idx`-th node of `level`: its sibling, then the
/// sibling of its parent, and so on up to the root.
pub open spec fn path_of(level: Seq<NodeView>, idx: int) -> Seq<NodeView>
    decreases level.len(),
{
    if level.len() <= 1 {
        Seq::empty()
    } else {
        seq![sibling(level, idx)] + path_of(parent_level(level), idx / 2)
    }
}

/// The parent of `node` and its sibling: `node` is the left child at an even
/// position and the right child at an odd one.
pub open spec fn step(node: NodeView, idx: int, sib: NodeView) -> NodeView {
    if idx % 2 == 0 {
        combine(node, sib)
    } else {
        combine(sib, node)
    }
}

/// The node reached from `node` at position `idx` by combining it with the
/// siblings of `path` in turn.
pub open spec fn fold_path(node: NodeView, idx: int, path: Seq<NodeView>) -> NodeView
    decreases path.len(),
{
    if path.len() == 0 {
        node
    } else {
        fold_path(step(node, idx, path[0]), idx / 2, path.drop_first())
    }
}

/// Whether position `idx` exists in a tree of `depth` levels below the root:
/// `0 <= idx < 2^depth`.
pub open spec fn index_fits(idx: int, depth: nat) -> bool
    decreases depth,
{
    if depth == 0 {
        idx == 0
    } else {
        idx >= 0 && index_fits(idx / 2, (depth - 1) as nat)
    }
}

/// The check of an inclusion proof: the position fits the length of the path
/// and the path leads from the leaf to `root`, digest and range.
pub open spec fn accepts(root: NodeView, leaf: NodeView, idx: int, path: Seq<NodeView>) -> bool {
    index_fits(idx, path.len()) && fold_path(leaf, idx, path) == root
}

/// Every digest of `path` has the width of a digest.
pub open spec fn well_formed_path(path: Seq<NodeView>) -> bool {
    forall|i: int| 0 <= i < path.len() ==> (#[trigger] path[i]).digest.len() == 32
}

/// The audit path of one leaf.
#[derive(Debug, PartialEq, Eq)]
pub struct InclusionProof {
    /// Sibling nodes from the leaf level upwards.
    pub path: Vec<Node>,
}

impl View for InclusionProof {
    type V = Seq<NodeView>;

    open spec fn view(&self) -> Seq<NodeView> {
        views(self.path@)
    }
}

impl Clone for InclusionProof {
    fn clone(&self) -> (copy: InclusionProof)
        ensures
            copy@ == self@,
    {
        let mut path: Vec<Node> = Vec::new();
        let mut i: usize = 0;
        while i < self.path.len()
            invariant
                i <= self.path@.len(),
                path@ == self.path@.subrange(0, i as int),
            decreases self.path@.len() - i,
        {
            path.push(self.path[i]);
            assert(path@ =~= self.path@.subrange(0, i as int + 1));
            i += 1;
        }
        assert(path@ =~= self.path@);
        InclusionProof { path }
    }
}

/// Recomputes the root from `tx` at position `index` along `audit` and
/// compares it with `root`, digest and range. Returns `false` on a path of
/// the wrong length, a position that the path cannot reach, or any
/// mismatch.
pub fn verify_inclusion(root: &Node, tx: &Transaction, index: u64, audit: &InclusionProof) -> (ok:
    bool)
    ensures
        ok == accepts(root@, leaf_node(tx@), index as int, audit@),
{
    let leaf = Node::leaf(tx);
    verify_node(root, &leaf, index, audit)
}

/// Checks an inclusion proof as `verify_inclusion` does and reports a
/// failed check as an error.
pub fn check_inclusion(root: &Node, tx: &Transaction, index: u64, audit: &InclusionProof) -> (out:
    Result<(), BlockError>)
    ensures
        match out {
            Ok(()) => accepts(root@, leaf_node(tx@), index as int, audit@),
            Err(e) => {
                &&& e == BlockError::ProofVerificationFailed
                &&& !accepts(root@, leaf_node(tx@), index as int, audit@)
            },
        },
{
    if verify_inclusion(root, tx, index, audit) {
        Ok(())
    } else {
        Err(BlockError::ProofVerificationFailed)
    }
}

/// Recomputes the root from the node `leaf` at position `index` along
/// `audit` and compares it with `root`.
pub fn verify_node(root: &Node, leaf: &Node, index: u64, audit: &InclusionProof) -> (ok: bool)
    ensures
        ok == accepts(root@, leaf@, index as int, audit@),
{
    let mut cur = *leaf;
    let mut idx = index;
    let mut i: usize = 0;
    let ghost path = audit@;
    assert(path.subrange(0, path.len() as int) =~= path);
    while i < audit.path.len()
        invariant
            i <= audit.path@.len(),
            path == audit@,
            path.len() == audit.path@.len(),
            fold_path(cur@, idx as int, path.subrange(i as int, path.len() as int)) == fold_path(
                leaf@,
                index as int,
                path,
            ),
            index_fits(idx as int, (path.len() - i) as nat) == index_fits(
                index as int,
                path.len(),
            ),
        decreases audit.path@.len() - i,
    {
        let sib = audit.path[i];
        let ghost rest = path.subrange(i as int, path.len() as int);
        assert(rest[0] == sib@);
        assert(rest.drop_first() =~= path.subrange(i as int + 1, path.len() as int));
        cur = if idx % 2 == 0 {
            Node::parent(&cur, &sib)
        } else {
            Node::parent(&sib, &cur)
        };
        idx = idx / 2;
        i += 1;
    }
    assert(path.subrange(i as int, path.len() as int) =~= Seq::<NodeView>::empty());
    idx == 0 && cur.same(root)
}

/// The audit path of a node leads to the root above its level, and its
/// position fits the path.
pub proof fn lemma_path_reaches_root(level: Seq<NodeView>, idx: int)
    requires
        0 <= idx < level.len(),
    ensures
        accepts(root_of(level), level[idx], idx, path_of(level, idx)),
    decreases level.len(),
{
    if level.len() > 1 {
        let above = parent_level(level);
        let path = path_of(level, idx);
        assert(path[0] == sibling(level, idx));
        assert(path.drop_first() =~= path_of(above, idx / 2));
        assert(above[idx / 2] == step(level[idx], idx, sibling(level, idx))) by {
            if idx % 2 == 0 {
                assert(right_child(level, idx / 2) == sibling(level, idx));
            } else {
                assert(level[2 * (idx / 2)] == sibling(level, idx));
            }
        }
        lemma_path_reaches_root(above, idx / 2);
    }
}

/// Every leaf of a tree is accepted at its position with its audit path
/// against the root of the tree.
pub proof fn lemma_inclusion_complete(txs: Seq<TransactionView>, idx: int)
    requires
        0 <= idx < txs.len(),
    ensures
        accepts(tree_root(txs), leaf_node(txs[idx]), idx, path_of(leaf_level(txs), idx)),
{
    lemma_path_reaches_root(leaf_level(txs), idx);
}

/// The hash input of an internal node determines both children.
pub proof fn lemma_node_preimage_injective(l1: NodeView, r1: NodeView, l2: NodeView, r2: NodeView)
    requires
        l1.digest.len() == 32,
        r1.digest.len() == 32,
        l2.digest.len() == 32,
        r2.digest.len() == 32,
        node_preimage(l1, r1) == node_preimage(l2, r2),
    ensures
        l1 == l2,
        r1 == r2,
{
    lemma_auto_spec_u64_to_from_le_bytes();
    let pa = node_preimage(l1, r1);
    let pb = node_preimage(l2, r2);
    assert(pa.subrange(1, 9) =~= spec_u64_to_le_bytes(l1.range.min));
    assert(pb.subrange(1, 9) =~= spec_u64_to_le_bytes(l2.range.min));
    assert(pa.subrange(9, 17) =~= spec_u64_to_le_bytes(l1.range.max));
    assert(pb.subrange(9, 17) =~= spec_u64_to_le_bytes(l2.range.max));
    assert(pa.subrange(17, 49) =~= l1.digest);
    assert(pb.subrange(17, 49) =~= l2.digest);
    assert(pa.subrange(49, 57) =~= spec_u64_to_le_bytes(r1.range.min));
    assert(pb.subrange(49, 57) =~= spec_u64_to_le_bytes(r2.range.min));
    assert(pa.subrange(57, 65) =~= spec_u64_to_le_bytes(r1.range.max));
    assert(pb.subrange(57, 65) =~= spec_u64_to_le_bytes(r2.range.max));
    assert(pa.subrange(65, 97) =~= r1.digest);
    assert(pb.subrange(65, 97) =~= r2.digest);
}

/// What is hashed in the step from `node` at position `idx` with the sibling
/// `sib`.
pub open spec fn step_preimage(node: NodeView, idx: int, sib: NodeView) -> Seq<u8> {
    if idx % 2 == 0 {
        node_preimage(node, sib)
    } else {
        node_preimage(sib, node)
    }
}

/// `x` is one of the inputs hashed when `node` at position `idx` is folded
/// along `path`: one input for each step.
pub open spec fn hashed_in_fold(x: Seq<u8>, node: NodeView, idx: int, path: Seq<NodeView>) -> bool
    decreases path.len(),
{
    path.len() > 0 && (x == step_preimage(node, idx, path[0]) || hashed_in_fold(
        x,
        step(node, idx, path[0]),
        idx / 2,
        path.drop_first(),
    ))
}

/// `x` is one of the inputs hashed when the inclusion of `tx` at position
/// `idx` is checked along `path`: the input of the leaf, then one input for
/// each step.
pub open spec fn hashed_in_check(
    x: Seq<u8>,
    tx: TransactionView,
    idx: int,
    path: Seq<NodeView>,
) -> bool {
    x == leaf_preimage(tx) || hashed_in_fold(x, leaf_node(tx), idx, path)
}

/// An input hashed in the first fold and an input hashed in the second are
/// different and have the same tree hash.
pub open spec fn folds_collide(
    n1: NodeView,
    i1: int,
    pa: Seq<NodeView>,
    n2: NodeView,
    i2: int,
    pb: Seq<NodeView>,
) -> bool {
    exists|a: Seq<u8>, b: Seq<u8>|
        hashed_in_fold(a, n1, i1, pa) && hashed_in_fold(b, n2, i2, pb) && #[trigger] collision(
            a,
            b,
        )
}

/// An input hashed in the first check and an input hashed in the second are
/// different and have the same tree hash.
pub open spec fn checks_collide(
    tx1: TransactionView,
    i1: int,
    pa: Seq<NodeView>,
    tx2: TransactionView,
    i2: int,
    pb: Seq<NodeView>,
) -> bool {
    exists|a: Seq<u8>, b: Seq<u8>|
        hashed_in_check(a, tx1, i1, pa) && hashed_in_check(b, tx2, i2, pb) && #[trigger] collision(
            a,
            b,
        )
}

/// The tail of a well-formed path is well formed.
pub proof fn lemma_tail_well_formed(path: Seq<NodeView>)
    requires
        well_formed_path(path),
        path.len() > 0,
    ensures
        well_formed_path(path.drop_first()),
{
    let rest = path.drop_first();
    assert forall|i: int| 0 <= i < rest.len() implies (#[trigger] rest[i]).digest.len() == 32 by {
        assert(rest[i] == path[i + 1]);
    }
}

/// Two different starts that reach the same node along paths of one length
/// at one position: among the inputs hashed on the two ways are two
/// different ones with the same tree hash.
pub proof fn lemma_fold_binding(
    n1: NodeView,
    n2: NodeView,
    idx: int,
    pa: Seq<NodeView>,
    pb: Seq<NodeView>,
)
    requires
        n1.digest.len() == 32,
        n2.digest.len() == 32,
        well_formed_path(pa),
        well_formed_path(pb),
        pa.len() == pb.len(),
        fold_path(n1, idx, pa) == fold_path(n2, idx, pb),
        n1 != n2 || pa != pb,
    ensures
        folds_collide(n1, idx, pa, n2, idx, pb),
    decreases pa.len(),
{
    if pa.len() == 0 {
        assert(pa =~= pb);
    } else {
        let s1 = step(n1, idx, pa[0]);
        let s2 = step(n2, idx, pb[0]);
        let t1 = pa.drop_first();
        let t2 = pb.drop_first();
        let a = step_preimage(n1, idx, pa[0]);
        let b = step_preimage(n2, idx, pb[0]);
        lemma_tail_well_formed(pa);
        lemma_tail_well_formed(pb);
        if n1 == n2 && pa[0] == pb[0] {
            if t1 == t2 {
                assert(pa =~= seq![pa[0]] + t1);
                assert(pb =~= seq![pb[0]] + t2);
                assert(false);
            }
        } else if a == b {
            if idx % 2 == 0 {
                lemma_node_preimage_injective(n1, pa[0], n2, pb[0]);
            } else {
                lemma_node_preimage_injective(pa[0], n1, pb[0], n2);
            }
            assert(false);
        }
        if s1.digest == s2.digest && a != b {
            assert(collision(a, b));
        } else {
            lemma_fold_binding(s1, s2, idx / 2, t1, t2);
            let (c, d) = choose|c: Seq<u8>, d: Seq<u8>|
                hashed_in_fold(c, s1, idx / 2, t1) && hashed_in_fold(d, s2, idx / 2, t2)
                    && #[trigger] collision(c, d);
            assert(hashed_in_fold(c, n1, idx, pa) && hashed_in_fold(d, n2, idx, pb) && collision(
                c,
                d,
            ));
        }
    }
}

/// An accepted proof binds the transaction and the path. Were another
/// transaction, or another path of the same length, accepted at the same
/// position against the same root, then among the inputs hashed in the two
/// checks there would be two different ones with the same tree hash.
pub proof fn lemma_inclusion_binding(
    root: NodeView,
    tx1: TransactionView,
    tx2: TransactionView,
    idx: int,
    pa: Seq<NodeView>,
    pb: Seq<NodeView>,
)
    requires
        accepts(root, leaf_node(tx1), idx, pa),
        accepts(root, leaf_node(tx2), idx, pb),
        well_formed_path(pa),
        well_formed_path(pb),
        pa.len() == pb.len(),
        tx1 != tx2 || pa != pb,
    ensures
        checks_collide(tx1, idx, pa, tx2, idx, pb),
{
    if leaf_node(tx1) == leaf_node(tx2) && tx1 != tx2 {
        let a = leaf_preimage(tx1);
        let b = leaf_preimage(tx2);
        if a == b {
            assert(a.subrange(1, a.len() as int) =~= encoding(tx1));
            assert(b.subrange(1, b.len() as int) =~= encoding(tx2));
            lemma_encoding_injective(tx1, tx2);
        }
        assert(collision(a, b));
    } else {
        lemma_fold_binding(leaf_node(tx1), leaf_node(tx2), idx, pa, pb);
        let (c, d) = choose|c: Seq<u8>, d: Seq<u8>|
            hashed_in_fold(c, leaf_node(tx1), idx, pa) && hashed_in_fold(d, leaf_node(tx2), idx, pb)
                && #[trigger] collision(c, d);
        assert(hashed_in_check(c, tx1, idx, pa) && hashed_in_check(d, tx2, idx, pb) && collision(
            c,
            d,
        ));
    }
}

/// Two different nodes that reach the same node along one path, whatever
/// their positions: among the inputs hashed on the two ways are two
/// different ones with the same tree hash.
pub proof fn lemma_path_keeps_nodes_apart(
    n1: NodeView,
    i1: int,
    n2: NodeView,
    i2: int,
    path: Seq<NodeView>,
)
    requires
        n1.digest.len() == 32,
        n2.digest.len() == 32,
        well_formed_path(path),
        n1 != n2,
        fold_path(n1, i1, path) == fold_path(n2, i2, path),
    ensures
        folds_collide(n1, i1, path, n2, i2, path),
    decreases path.len(),
{
    if path.len() > 0 {
        let sib = path[0];
        let s1 = step(n1, i1, sib);
        let s2 = step(n2, i2, sib);
        let rest = path.drop_first();
        let a = step_preimage(n1, i1, sib);
        let b = step_preimage(n2, i2, sib);
        lemma_tail_well_formed(path);
        if a == b {
            if i1 % 2 == 0 && i2 % 2 == 0 {
                lemma_node_preimage_injective(n1, sib, n2, sib);
            } else if i1 % 2 == 0 {
                lemma_node_preimage_injective(n1, sib, sib, n2);
            } else if i2 % 2 == 0 {
                lemma_node_preimage_injective(sib, n1, n2, sib);
            } else {
                lemma_node_preimage_injective(sib, n1, sib, n2);
            }
            assert(false);
        }
        if s1.digest == s2.digest {
            assert(collision(a, b));
        } else {
            lemma_path_keeps_nodes_apart(s1, i1 / 2, s2, i2 / 2, rest);
            let (c, d) = choose|c: Seq<u8>, d: Seq<u8>|
                hashed_in_fold(c, s1, i1 / 2, rest) && hashed_in_fold(d, s2, i2 / 2, rest)
                    && #[trigger] collision(c, d);
            assert(hashed_in_fold(c, n1, i1, path) && hashed_in_fold(d, n2, i2, path) && collision(
                c,
                d,
            ));
        }
    }
}

/// No node on the way from `node` along `path` is equal to the sibling it is
/// combined with.
pub open spec fn no_twin(node: NodeView, idx: int, path: Seq<NodeView>) -> bool
    decreases path.len(),
{
    if path.len() == 0 {
        true
    } else {
        node != path[0] && no_twin(step(node, idx, path[0]), idx / 2, path.drop_first())
    }
}

/// An accepted proof binds the position. Were the same node accepted with
/// the same path at another position against the same root, then among the
/// inputs hashed on the two ways there would be two different ones with the
/// same tree hash. The law leaves out paths on which a node meets a sibling
/// equal to itself: two equal transactions next to each other are accepted
/// at either position with one path.
pub proof fn lemma_position_binding(
    root: NodeView,
    node: NodeView,
    i1: int,
    i2: int,
    path: Seq<NodeView>,
)
    requires
        node.digest.len() == 32,
        well_formed_path(path),
        accepts(root, node, i1, path),
        accepts(root, node, i2, path),
        no_twin(node, i1, path),
        i1 != i2,
    ensures
        folds_collide(node, i1, path, node, i2, path),
    decreases path.len(),
{
    if path.len() > 0 {
        let sib = path[0];
        let s1 = step(node, i1, sib);
        let s2 = step(node, i2, sib);
        let rest = path.drop_first();
        let a = step_preimage(node, i1, sib);
        let b = step_preimage(node, i2, sib);
        lemma_tail_well_formed(path);
        if i1 % 2 == i2 % 2 {
            assert(i1 / 2 != i2 / 2);
            lemma_position_binding(root, s1, i1 / 2, i2 / 2, rest);
        } else {
            if a == b {
                if i1 % 2 == 0 {
                    lemma_node_preimage_injective(node, sib, sib, node);
                } else {
                    lemma_node_preimage_injective(sib, node, node, sib);
                }
                assert(false);
            }
            if s1.digest != s2.digest {
                lemma_path_keeps_nodes_apart(s1, i1 / 2, s2, i2 / 2, rest);
            }
        }
        if i1 % 2 != i2 % 2 && s1.digest == s2.digest {
            assert(collision(a, b));
        } else {
            let (c, d) = choose|c: Seq<u8>, d: Seq<u8>|
                hashed_in_fold(c, s1, i1 / 2, rest) && hashed_in_fold(d, s2, i2 / 2, rest)
                    && #[trigger] collision(c, d);
            assert(hashed_in_fold(c, node, i1, path) && hashed_in_fold(d, node, i2, path)
                && collision(c, d));
        }
    }
}

} // verus!
