//! Soundness of inclusion proofs: what an accepted proof says of the tree
//! behind the root, as far as the tree hash keeps apart the inputs that are
//! hashed.
//!
//! Every hash has collisions somewhere, so a law that ended in "or a
//! collision exists" would say nothing. The laws here end in an
//! alternative that names where to look: either the proof tells the truth
//! about the tree, or one of the inputs hashed in the check has the digest
//! of an input the tree hashed without being that input, or has the digest
//! that stands for an absent subtree.

use vstd::prelude::*;
use crate::hash::{collision, tree_hash};
use crate::inclusion::{
    accepts, fold_path, hashed_in_check, hashed_in_fold, index_fits,
    lemma_node_preimage_injective, path_of, sibling, step, step_preimage, well_formed_path,
};
use crate::node::{
    absent_digest, combine, empty_node, leaf_level, leaf_node, leaf_preimage, node_preimage,
    parent_level, right_child, root_of, tree_root, NodeView,
};
use crate::namespace::{
    ends_tree, is_namespace_range, lemma_namespace_range_holds_namespace, member_accepted,
    namespace_accepts, namespace_leaves, NamespaceProofView, NeighbourView,
};
use crate::transaction::{encoding, lemma_encoding_injective, TransactionView};
use crate::tree::sorted;

verus! {

/// What is hashed for the `j`-th node of the level above `level`.
pub open spec fn parent_preimage(level: Seq<NodeView>, j: int) -> Seq<u8> {
    node_preimage(level[2 * j], right_child(level, j))
}

/// `x` is one of the inputs hashed to build the levels above `level`: one
/// input for each node of each of those levels.
pub open spec fn hashed_in_levels(x: Seq<u8>, level: Seq<NodeView>) -> bool
    decreases level.len(),
{
    level.len() >= 2 && (hashed_above(x, level) || hashed_in_levels(x, parent_level(level)))
}

/// `x` is what is hashed for some node of the level above `level`.
pub open spec fn hashed_above(x: Seq<u8>, level: Seq<NodeView>) -> bool {
    exists|j: int| 0 <= j < parent_level(level).len() && x == #[trigger] parent_preimage(level, j)
}

/// `x` is the input of some leaf of the tree over `all`.
pub open spec fn hashed_in_leaves(x: Seq<u8>, all: Seq<TransactionView>) -> bool {
    exists|j: int| 0 <= j < all.len() && x == leaf_preimage(#[trigger] all[j])
}

/// `x` is one of the inputs hashed to build the tree over `all`: the input
/// of a leaf or of an internal node.
pub open spec fn hashed_in_tree(x: Seq<u8>, all: Seq<TransactionView>) -> bool {
    hashed_in_leaves(x, all) || hashed_in_levels(x, leaf_level(all))
}

/// The input `a` defeats the hash against the tree over `all`: its digest is
/// the one that stands for an absent subtree, or it has the digest of
/// another input that the tree hashed.
pub open spec fn defeats_hash(a: Seq<u8>, all: Seq<TransactionView>) -> bool {
    tree_hash(a) == absent_digest() || exists|b: Seq<u8>|
        hashed_in_tree(b, all) && #[trigger] collision(a, b)
}

/// One of the inputs hashed when the inclusion of `tx` at `idx` is checked
/// along `path` defeats the hash against the tree over `all`.
pub open spec fn check_defeats_hash(
    tx: TransactionView,
    idx: int,
    path: Seq<NodeView>,
    all: Seq<TransactionView>,
) -> bool {
    exists|a: Seq<u8>| hashed_in_check(a, tx, idx, path) && #[trigger] defeats_hash(a, all)
}

/// One of the inputs hashed to build the tree over `all` has the digest that
/// stands for an absent subtree.
pub open spec fn tree_hits_absent(all: Seq<TransactionView>) -> bool {
    exists|b: Seq<u8>| #[trigger] hashed_in_tree(b, all) && tree_hash(b) == absent_digest()
}

/// Every digest of `level` has the width of a digest.
pub open spec fn well_formed_level(level: Seq<NodeView>) -> bool {
    forall|j: int| 0 <= j < level.len() ==> (#[trigger] level[j]).digest.len() == 32
}

/// The `m`-th level above `level`.
pub open spec fn level_above(level: Seq<NodeView>, m: nat) -> Seq<NodeView>
    decreases m,
{
    if m == 0 {
        level
    } else {
        parent_level(level_above(level, (m - 1) as nat))
    }
}

/// Number of levels above `level` up to the root.
pub open spec fn height(level: Seq<NodeView>) -> nat
    decreases level.len(),
{
    if level.len() <= 1 {
        0
    } else {
        1 + height(parent_level(level))
    }
}

/// Position `idx` seen from `k` levels up: `idx` halved `k` times.
pub open spec fn shift(idx: int, k: nat) -> int
    decreases k,
{
    if k == 0 {
        idx
    } else {
        shift(idx, (k - 1) as nat) / 2
    }
}

/// The node reached from `node` after the first `k` steps of `path`.
pub open spec fn run(node: NodeView, idx: int, path: Seq<NodeView>, k: nat) -> NodeView
    decreases k,
{
    if k == 0 {
        node
    } else {
        step(
            run(node, idx, path, (k - 1) as nat),
            shift(idx, (k - 1) as nat),
            path[k - 1],
        )
    }
}

/// The levels above a level are the levels above its parent level, one
/// later.
pub proof fn lemma_level_above_parent(level: Seq<NodeView>, m: nat)
    ensures
        level_above(level, m + 1) == level_above(parent_level(level), m),
    decreases m,
{
    assert(level_above(level, m + 1) == parent_level(level_above(level, m)));
    if m > 0 {
        lemma_level_above_parent(level, (m - 1) as nat);
        assert(level_above(parent_level(level), m) == parent_level(
            level_above(parent_level(level), (m - 1) as nat),
        ));
    } else {
        assert(level_above(level, 0) == level);
    }
}

/// Halving first and then `k` times is halving `k + 1` times.
pub proof fn lemma_shift_half(idx: int, k: nat)
    ensures
        shift(idx, k + 1) == shift(idx / 2, k),
    decreases k,
{
    assert(shift(idx, k + 1) == shift(idx, k) / 2);
    if k > 0 {
        lemma_shift_half(idx, (k - 1) as nat);
        assert(shift(idx / 2, k) == shift(idx / 2, (k - 1) as nat) / 2);
    } else {
        assert(shift(idx, 0) == idx);
    }
}

/// A position fits a depth exactly when it is not negative and nothing is
/// left of it after that many halvings.
pub proof fn lemma_index_fits_shift(idx: int, depth: nat)
    ensures
        index_fits(idx, depth) == (idx >= 0 && shift(idx, depth) == 0),
    decreases depth,
{
    if depth > 0 {
        lemma_index_fits_shift(idx / 2, (depth - 1) as nat);
        lemma_shift_half(idx, (depth - 1) as nat);
        if idx < 0 {
            lemma_shift_negative(idx / 2, (depth - 1) as nat);
        }
    }
}

/// A negative position stays negative however often it is halved.
pub proof fn lemma_shift_negative(idx: int, k: nat)
    requires
        idx < 0,
    ensures
        shift(idx, k) < 0,
    decreases k,
{
    if k > 0 {
        lemma_shift_negative(idx, (k - 1) as nat);
    }
}

/// A position that is not negative stays so however often it is halved.
pub proof fn lemma_shift_not_negative(idx: int, k: nat)
    requires
        idx >= 0,
    ensures
        shift(idx, k) >= 0,
    decreases k,
{
    if k > 0 {
        lemma_shift_not_negative(idx, (k - 1) as nat);
    }
}

/// The top level above a level that is not empty has one node, the root;
/// every level below it has at least two nodes.
pub proof fn lemma_height(level: Seq<NodeView>)
    requires
        level.len() >= 1,
    ensures
        level_above(level, height(level)).len() == 1,
        level_above(level, height(level))[0] == root_of(level),
        forall|m: nat| m < height(level) ==> (#[trigger] level_above(level, m)).len() >= 2,
    decreases level.len(),
{
    if level.len() > 1 {
        let above = parent_level(level);
        lemma_height(above);
        lemma_level_above_parent(level, height(above));
        assert forall|m: nat| m < height(level) implies (#[trigger] level_above(level, m)).len()
            >= 2 by {
            if m > 0 {
                lemma_level_above_parent(level, (m - 1) as nat);
                assert(level_above(above, (m - 1) as nat).len() >= 2);
            }
        }
    } else {
        assert forall|m: nat| m < height(level) implies (#[trigger] level_above(level, m)).len()
            >= 2 by {}
    }
}

/// The levels above a well-formed level are well formed.
pub proof fn lemma_levels_well_formed(level: Seq<NodeView>, m: nat)
    requires
        well_formed_level(level),
    ensures
        well_formed_level(level_above(level, m)),
    decreases m,
{
    if m > 0 {
        lemma_levels_well_formed(level, (m - 1) as nat);
    }
}

/// Folding a path is running all its steps.
pub proof fn lemma_fold_is_run(node: NodeView, idx: int, path: Seq<NodeView>, k: nat)
    requires
        k <= path.len(),
    ensures
        fold_path(run(node, idx, path, k), shift(idx, k), path.skip(k as int)) == fold_path(
            node,
            idx,
            path,
        ),
    decreases k,
{
    if k == 0 {
        assert(path.skip(0) =~= path);
    } else {
        let j = (k - 1) as nat;
        lemma_fold_is_run(node, idx, path, j);
        let rest = path.skip(j as int);
        assert(rest[0] == path[j as int]);
        assert(rest.drop_first() =~= path.skip(k as int));
    }
}

/// An input hashed on the way from a later point of the walk is hashed on
/// the whole walk.
pub proof fn lemma_fold_suffix(x: Seq<u8>, node: NodeView, idx: int, path: Seq<NodeView>, k: nat)
    requires
        k <= path.len(),
        hashed_in_fold(x, run(node, idx, path, k), shift(idx, k), path.skip(k as int)),
    ensures
        hashed_in_fold(x, node, idx, path),
    decreases k,
{
    if k == 0 {
        assert(path.skip(0) =~= path);
    } else {
        let j = (k - 1) as nat;
        let rest = path.skip(j as int);
        assert(rest[0] == path[j as int]);
        assert(rest.drop_first() =~= path.skip(k as int));
        assert(hashed_in_fold(x, run(node, idx, path, j), shift(idx, j), rest));
        lemma_fold_suffix(x, node, idx, path, j);
    }
}

/// What is hashed in the `k`-th step of a walk is hashed on the walk.
pub proof fn lemma_step_is_hashed(node: NodeView, idx: int, path: Seq<NodeView>, k: nat)
    requires
        k < path.len(),
    ensures
        hashed_in_fold(
            step_preimage(run(node, idx, path, k), shift(idx, k), path[k as int]),
            node,
            idx,
            path,
        ),
{
    let rest = path.skip(k as int);
    assert(rest[0] == path[k as int]);
    lemma_fold_suffix(
        step_preimage(run(node, idx, path, k), shift(idx, k), path[k as int]),
        node,
        idx,
        path,
        k,
    );
}

/// An input hashed above a higher level of the tree is hashed above its
/// lower levels too.
pub proof fn lemma_levels_suffix(x: Seq<u8>, level: Seq<NodeView>, m: nat)
    requires
        m <= height(level),
        hashed_in_levels(x, level_above(level, m)),
    ensures
        hashed_in_levels(x, level),
    decreases m,
{
    if m > 0 {
        lemma_level_above_parent(level, (m - 1) as nat);
        lemma_levels_suffix(x, parent_level(level), (m - 1) as nat);
    }
}

/// What is hashed for a node of a level above the leaves is hashed in the
/// tree.
pub proof fn lemma_parent_is_hashed(all: Seq<TransactionView>, m: nat, j: int)
    requires
        m < height(leaf_level(all)),
        0 <= j < level_above(leaf_level(all), m + 1).len(),
    ensures
        hashed_in_tree(parent_preimage(level_above(leaf_level(all), m), j), all),
{
    let leaves = leaf_level(all);
    let level = level_above(leaves, m);
    lemma_height(leaves);
    assert(level.len() >= 2);
    assert(level_above(leaves, m + 1) == parent_level(level));
    assert(hashed_above(parent_preimage(level, j), level));
    lemma_levels_suffix(parent_preimage(level, j), leaves, m);
}

/// One step down: a node that is combined with its sibling into a node of
/// the level above, at the position of its parent and with the audit path
/// of its parent, is the node of its own level at its own position, with
/// its own audit path. Otherwise what is hashed in the step and what is
/// hashed for the parent are different inputs with one digest.
pub proof fn lemma_child_matches(
    level: Seq<NodeView>,
    node: NodeView,
    idx: int,
    path: Seq<NodeView>,
)
    requires
        level.len() >= 2,
        well_formed_level(level),
        well_formed_path(path),
        node.digest.len() == 32,
        node != empty_node(),
        path.len() >= 1,
        idx >= 0,
        idx / 2 < parent_level(level).len(),
        step(node, idx, path[0]) == parent_level(level)[idx / 2],
        path.drop_first() == path_of(parent_level(level), idx / 2),
    ensures
        collision(step_preimage(node, idx, path[0]), parent_preimage(level, idx / 2)) || (idx
            < level.len() && node == level[idx] && path == path_of(level, idx)),
{
    let j = idx / 2;
    let left = level[2 * j];
    let right = right_child(level, j);
    let a = step_preimage(node, idx, path[0]);
    let b = parent_preimage(level, j);
    assert(parent_level(level)[j] == combine(left, right));
    assert(tree_hash(a) == tree_hash(b));
    if a == b {
        assert(right.digest.len() == 32);
        if idx % 2 == 0 {
            lemma_node_preimage_injective(node, path[0], left, right);
            assert(path[0] == sibling(level, idx));
        } else {
            lemma_node_preimage_injective(path[0], node, left, right);
            assert(path[0] == sibling(level, idx));
        }
        assert(path =~= seq![path[0]] + path.drop_first());
    }
}

/// After `k` steps along `path` the node that started at position `idx` is
/// the node of the `m`-th level above `level` at the position it has
/// reached, and the rest of `path` is the audit path of that node.
pub open spec fn on_track(
    level: Seq<NodeView>,
    node: NodeView,
    idx: int,
    path: Seq<NodeView>,
    k: nat,
    m: nat,
) -> bool {
    &&& 0 <= shift(idx, k) < level_above(level, m).len()
    &&& run(node, idx, path, k) == level_above(level, m)[shift(idx, k)]
    &&& path.skip(k as int) == path_of(level_above(level, m), shift(idx, k))
}

/// The input of a leaf and the input of an internal node with one digest
/// are different inputs: they start with different tags.
pub proof fn lemma_leaf_is_no_parent(tx: TransactionView, left: NodeView, right: NodeView)
    requires
        leaf_node(tx).digest == combine(left, right).digest,
    ensures
        collision(leaf_preimage(tx), node_preimage(left, right)),
        collision(node_preimage(left, right), leaf_preimage(tx)),
{
    let a = leaf_preimage(tx);
    let b = node_preimage(left, right);
    assert(a[0] == 0u8);
    assert(b[0] == 1u8);
}

/// Leaf nodes of different transactions differ, unless their inputs are
/// different inputs with one digest.
pub proof fn lemma_leaf_node_injective(a: TransactionView, b: TransactionView)
    requires
        leaf_node(a) == leaf_node(b),
    ensures
        collision(leaf_preimage(a), leaf_preimage(b)) || a == b,
{
    let x = leaf_preimage(a);
    let y = leaf_preimage(b);
    if x == y {
        assert(x.subrange(1, x.len() as int) =~= encoding(a));
        assert(y.subrange(1, y.len() as int) =~= encoding(b));
        lemma_encoding_injective(a, b);
    }
}

/// The node reached after `k` steps of the check of `tx` is the hash of an
/// input of the check.
pub proof fn lemma_run_is_hashed(tx: TransactionView, idx: int, path: Seq<NodeView>, k: nat)
    requires
        k <= path.len(),
    ensures
        exists|a: Seq<u8>|
            #[trigger] hashed_in_check(a, tx, idx, path) && run(leaf_node(tx), idx, path, k).digest
                == tree_hash(a),
{
    let start = leaf_node(tx);
    if k == 0 {
        assert(hashed_in_check(leaf_preimage(tx), tx, idx, path));
    } else {
        let j = (k - 1) as nat;
        let a = step_preimage(run(start, idx, path, j), shift(idx, j), path[j as int]);
        lemma_step_is_hashed(start, idx, path, j);
        assert(hashed_in_check(a, tx, idx, path));
    }
}

/// From a point at which the walk along `path` is on track with the tree,
/// down to its start: the transaction at the start is the transaction of
/// the tree at position `idx` and `path` is its audit path, unless an input
/// of the check defeats the hash.
pub proof fn lemma_walk_down(
    all: Seq<TransactionView>,
    tx: TransactionView,
    idx: int,
    path: Seq<NodeView>,
    k: nat,
    m: nat,
)
    requires
        all.len() >= 1,
        well_formed_path(path),
        idx >= 0,
        k <= path.len(),
        m <= height(leaf_level(all)),
        on_track(leaf_level(all), leaf_node(tx), idx, path, k, m),
    ensures
        check_defeats_hash(tx, idx, path, all) || (idx < all.len() && tx == all[idx] && path
            == path_of(leaf_level(all), idx)),
    decreases k,
{
    let leaves = leaf_level(all);
    let start = leaf_node(tx);
    let here = level_above(leaves, m);
    let at = shift(idx, k);
    lemma_height(leaves);
    if k == 0 {
        assert(path.skip(0) =~= path);
        let a = leaf_preimage(tx);
        assert(hashed_in_check(a, tx, idx, path));
        if m == 0 {
            lemma_leaf_node_injective(tx, all[idx]);
            if tx != all[idx] {
                assert(hashed_in_leaves(leaf_preimage(all[idx]), all));
                assert(defeats_hash(a, all));
            }
        } else {
            let n = (m - 1) as nat;
            let below = level_above(leaves, n);
            assert(here[at] == combine(below[2 * at], right_child(below, at)));
            lemma_leaf_is_no_parent(tx, below[2 * at], right_child(below, at));
            lemma_parent_is_hashed(all, n, at);
            assert(collision(a, parent_preimage(below, at)));
            assert(defeats_hash(a, all));
        }
    } else {
        let j = (k - 1) as nat;
        let before = run(start, idx, path, j);
        let from = shift(idx, j);
        let a = step_preimage(before, from, path[j as int]);
        lemma_step_is_hashed(start, idx, path, j);
        assert(hashed_in_check(a, tx, idx, path));
        if m == 0 {
            assert(here[at] == leaf_node(all[at]));
            if from % 2 == 0 {
                lemma_leaf_is_no_parent(all[at], before, path[j as int]);
            } else {
                lemma_leaf_is_no_parent(all[at], path[j as int], before);
            }
            assert(hashed_in_leaves(leaf_preimage(all[at]), all));
            assert(collision(a, leaf_preimage(all[at])));
            assert(defeats_hash(a, all));
        } else {
            let n = (m - 1) as nat;
            let below = level_above(leaves, n);
            assert(below.len() >= 2);
            lemma_levels_well_formed(leaves, n);
            lemma_shift_not_negative(idx, j);
            let rest = path.skip(j as int);
            assert(rest[0] == path[j as int]);
            assert(rest.drop_first() =~= path.skip(k as int));
            assert(well_formed_path(rest)) by {
                assert forall|i: int| 0 <= i < rest.len() implies (#[trigger] rest[i]).digest.len()
                    == 32 by {
                    assert(rest[i] == path[i + j]);
                }
            }
            lemma_run_is_hashed(tx, idx, path, j);
            let c = choose|c: Seq<u8>|
                #[trigger] hashed_in_check(c, tx, idx, path) && before.digest == tree_hash(c);
            if before == empty_node() {
                assert(defeats_hash(c, all));
            } else {
                lemma_child_matches(below, before, from, rest);
                if collision(a, parent_preimage(below, at)) {
                    lemma_parent_is_hashed(all, n, at);
                    assert(defeats_hash(a, all));
                } else {
                    assert(on_track(leaves, start, idx, path, j, n));
                    lemma_walk_down(all, tx, idx, path, j, n);
                }
            }
        }
    }
}

/// Soundness of inclusion proofs: a transaction that is accepted at a
/// position against the root of the tree over `all` is the transaction of
/// `all` at that position, and the path is its audit path. Otherwise one of
/// the inputs hashed in the check defeats the hash: it has the digest of an
/// input of the tree without being that input, or the digest of the absent
/// subtree. The path may have any length.
pub proof fn lemma_inclusion_sound(
    all: Seq<TransactionView>,
    tx: TransactionView,
    idx: int,
    path: Seq<NodeView>,
)
    requires
        well_formed_path(path),
        accepts(tree_root(all), leaf_node(tx), idx, path),
    ensures
        check_defeats_hash(tx, idx, path, all) || (0 <= idx < all.len() && tx == all[idx] && path
            == path_of(leaf_level(all), idx)),
{
    let leaves = leaf_level(all);
    let start = leaf_node(tx);
    let depth = path.len();
    lemma_index_fits_shift(idx, depth);
    lemma_fold_is_run(start, idx, path, depth);
    assert(path.skip(depth as int) =~= Seq::<NodeView>::empty());
    let end = run(start, idx, path, depth);
    assert(end == tree_root(all));
    if all.len() == 0 {
        assert(leaves =~= Seq::<NodeView>::empty());
        assert(end == empty_node());
        lemma_run_is_hashed(tx, idx, path, depth);
        let c = choose|c: Seq<u8>|
            #[trigger] hashed_in_check(c, tx, idx, path) && end.digest == tree_hash(c);
        assert(defeats_hash(c, all));
    } else {
        lemma_height(leaves);
        let top = level_above(leaves, height(leaves));
        assert(path_of(top, 0) =~= Seq::<NodeView>::empty());
        assert(on_track(leaves, start, idx, path, depth, height(leaves)));
        lemma_walk_down(all, tx, idx, path, depth, height(leaves));
    }
}

/// Every node of a level of the tree is the hash of an input of the tree.
pub proof fn lemma_tree_node_is_hashed(all: Seq<TransactionView>, m: nat, j: int)
    requires
        m <= height(leaf_level(all)),
        0 <= j < level_above(leaf_level(all), m).len(),
    ensures
        exists|b: Seq<u8>|
            #[trigger] hashed_in_tree(b, all) && level_above(leaf_level(all), m)[j].digest
                == tree_hash(b),
{
    let leaves = leaf_level(all);
    if m == 0 {
        assert(hashed_in_leaves(leaf_preimage(all[j]), all));
        assert(hashed_in_tree(leaf_preimage(all[j]), all));
    } else {
        let n = (m - 1) as nat;
        lemma_parent_is_hashed(all, n, j);
        assert(hashed_in_tree(parent_preimage(level_above(leaves, n), j), all));
    }
}

/// The root of a tree with leaves is not the absent node, unless an input
/// of the tree has the digest of the absent subtree.
pub proof fn lemma_root_is_not_absent(all: Seq<TransactionView>)
    requires
        all.len() >= 1,
        tree_root(all) == empty_node(),
    ensures
        tree_hits_absent(all),
{
    let leaves = leaf_level(all);
    lemma_height(leaves);
    lemma_tree_node_is_hashed(all, height(leaves), 0);
}

/// A node whose audit path has no node to its right is the last node of its
/// level, unless an input of the tree has the digest of the absent subtree.
pub proof fn lemma_ends_tree_is_last(all: Seq<TransactionView>, m: nat, idx: int)
    requires
        m <= height(leaf_level(all)),
        0 <= idx < level_above(leaf_level(all), m).len(),
        ends_tree(idx, path_of(level_above(leaf_level(all), m), idx)),
    ensures
        tree_hits_absent(all) || idx == level_above(leaf_level(all), m).len() - 1,
    decreases height(leaf_level(all)) - m,
{
    let leaves = leaf_level(all);
    let level = level_above(leaves, m);
    lemma_height(leaves);
    if level.len() > 1 {
        let above = parent_level(level);
        let path = path_of(level, idx);
        assert(path[0] == sibling(level, idx));
        assert(path.drop_first() =~= path_of(above, idx / 2));
        assert(level_above(leaves, m + 1) == above);
        lemma_ends_tree_is_last(all, m + 1, idx / 2);
        if idx % 2 == 0 && idx + 1 < level.len() {
            lemma_tree_node_is_hashed(all, m, idx + 1);
        }
    }
}

/// Every audit path of `paths` is well formed.
pub open spec fn well_formed_paths(paths: Seq<Seq<NodeView>>) -> bool {
    forall|j: int| 0 <= j < paths.len() ==> well_formed_path(#[trigger] paths[j])
}

/// The audit path of a neighbour, if there is one, is well formed.
pub open spec fn well_formed_neighbour(n: Option<NeighbourView>) -> bool {
    match n {
        Some(x) => well_formed_path(x.path),
        None => true,
    }
}

/// Every digest in the proof has the width of a digest. A proof made of
/// executable nodes always is.
pub open spec fn well_formed_namespace_proof(p: NamespaceProofView) -> bool {
    &&& well_formed_paths(p.paths)
    &&& well_formed_neighbour(p.before)
    &&& well_formed_neighbour(p.after)
}

/// The `j`-th transaction of `txs` is the transaction of `all` at position
/// `start + j`, belongs to `ns`, and comes with its audit path.
pub open spec fn member_is_true(
    all: Seq<TransactionView>,
    ns: u64,
    txs: Seq<TransactionView>,
    start: int,
    paths: Seq<Seq<NodeView>>,
    j: int,
) -> bool {
    &&& start + j < all.len()
    &&& txs[j] == all[start + j]
    &&& txs[j].vm == ns
    &&& paths[j] == path_of(leaf_level(all), start + j)
}

/// An input hashed in the check of the `j`-th transaction of the list
/// defeats the hash against the tree over `all`.
pub open spec fn member_defeats_hash(
    all: Seq<TransactionView>,
    txs: Seq<TransactionView>,
    p: NamespaceProofView,
    j: int,
) -> bool {
    check_defeats_hash(txs[j], p.start + j, p.paths[j], all)
}

/// An input hashed in the check of the neighbour at position `at` defeats
/// the hash against the tree over `all`.
pub open spec fn neighbour_defeats_hash(
    all: Seq<TransactionView>,
    n: Option<NeighbourView>,
    at: int,
) -> bool {
    match n {
        Some(x) => check_defeats_hash(x.tx, at, x.path, all),
        None => false,
    }
}

/// An input hashed in one of the checks that make up the check of a
/// namespace proof defeats the hash against the tree over `all`.
pub open spec fn namespace_check_defeats_hash(
    all: Seq<TransactionView>,
    txs: Seq<TransactionView>,
    p: NamespaceProofView,
) -> bool {
    ||| exists|j: int| 0 <= j < txs.len() && #[trigger] member_defeats_hash(all, txs, p, j)
    ||| neighbour_defeats_hash(all, p.before, p.start - 1)
    ||| neighbour_defeats_hash(all, p.after, p.start + txs.len())
}

/// Soundness of namespace proofs: transactions that are accepted as all of
/// namespace `ns` against the root of the tree over `all`, leaves in
/// namespace order, are the transactions of that namespace in `all`, in
/// their order, none left out and none added. Otherwise an input hashed in
/// one of the inclusion checks defeats the hash against the tree, or an
/// input of the tree itself has the digest of the absent subtree.
pub proof fn lemma_namespace_sound(
    all: Seq<TransactionView>,
    ns: u64,
    txs: Seq<TransactionView>,
    p: NamespaceProofView,
)
    requires
        sorted(all),
        well_formed_namespace_proof(p),
        namespace_accepts(tree_root(all), ns, txs, p),
    ensures
        namespace_check_defeats_hash(all, txs, p) || tree_hits_absent(all) || txs
            == namespace_leaves(all, ns),
{
    if !namespace_check_defeats_hash(all, txs, p) && !tree_hits_absent(all) {
        let root = tree_root(all);
        let leaves = leaf_level(all);
        let start = p.start as int;
        let end = start + txs.len();
        assert forall|j: int| 0 <= j < txs.len() implies #[trigger] member_is_true(
            all,
            ns,
            txs,
            start,
            p.paths,
            j,
        ) by {
            assert(member_accepted(root, ns, txs, start, p.paths, j));
            assert(well_formed_path(p.paths[j]));
            assert(!member_defeats_hash(all, txs, p, j));
            lemma_inclusion_sound(all, txs[j], start + j, p.paths[j]);
        }
        if txs.len() > 0 {
            assert(member_is_true(all, ns, txs, start, p.paths, txs.len() - 1));
        }
        if start > 0 {
            let n = p.before->Some_0;
            lemma_inclusion_sound(all, n.tx, start - 1, n.path);
            assert(all[start - 1].vm < ns);
        }
        match p.after {
            Some(n) => {
                lemma_inclusion_sound(all, n.tx, end, n.path);
                assert(all[end].vm > ns);
            },
            None => {
                if txs.len() > 0 {
                    assert(p.paths.last() == path_of(leaves, end - 1));
                    lemma_ends_tree_is_last(all, 0, end - 1);
                } else if start > 0 {
                    lemma_ends_tree_is_last(all, 0, start - 1);
                } else if all.len() > 0 {
                    lemma_root_is_not_absent(all);
                }
                assert(end == all.len());
            },
        }
        assert(end <= all.len());
        assert(is_namespace_range(all, ns, start, end)) by {
            assert forall|i: int| 0 <= i < start implies (#[trigger] all[i]).vm < ns by {
                assert(all[i].vm <= all[start - 1].vm);
            }
            assert forall|i: int| start <= i < end implies (#[trigger] all[i]).vm == ns by {
                assert(member_is_true(all, ns, txs, start, p.paths, i - start));
            }
            assert forall|i: int| end <= i < all.len() implies (#[trigger] all[i]).vm > ns by {
                assert(all[end].vm <= all[i].vm);
            }
        }
        lemma_namespace_range_holds_namespace(all, ns, start, end);
        assert(txs =~= all.subrange(start, end)) by {
            assert forall|j: int| 0 <= j < txs.len() implies txs[j] == all.subrange(start, end)[j] by {
                assert(member_is_true(all, ns, txs, start, p.paths, j));
            }
        }
    }
}

} // verus!
