//! Namespaces inside the tree: the contiguous run of leaves that one
//! namespace occupies, and proofs that a list of transactions is all of it.

use vstd::prelude::*;
use crate::node::{empty_node, leaf_level, leaf_node, parent_level, tree_root, views, Node, NodeView};
use crate::inclusion::{
    accepts, lemma_inclusion_complete, path_of, sibling, verify_inclusion, InclusionProof,
};
use crate::error::BlockError;
use crate::transaction::{Transaction, TransactionView, VmId};
use crate::tree::{sorted, tx_views, Tree};

verus! {

/// The transactions of namespace `ns` among `txs`, in their order.
pub open spec fn namespace_leaves(txs: Seq<TransactionView>, ns: u64) -> Seq<TransactionView> {
    txs.filter(|tx: TransactionView| tx.vm == ns)
}

/// Positions `lo..hi` hold exactly the leaves of namespace `ns`: smaller ids
/// come before `lo`, larger ids from `hi` on.
pub open spec fn is_namespace_range(txs: Seq<TransactionView>, ns: u64, lo: int, hi: int) -> bool {
    &&& 0 <= lo <= hi <= txs.len()
    &&& forall|i: int| 0 <= i < lo ==> (#[trigger] txs[i]).vm < ns
    &&& forall|i: int| lo <= i < hi ==> (#[trigger] txs[i]).vm == ns
    &&& forall|i: int| hi <= i < txs.len() ==> (#[trigger] txs[i]).vm > ns
}

/// The leaves of a namespace are the leaves at the positions of its range.
pub proof fn lemma_namespace_range_holds_namespace(
    txs: Seq<TransactionView>,
    ns: u64,
    lo: int,
    hi: int,
)
    requires
        is_namespace_range(txs, ns, lo, hi),
    ensures
        namespace_leaves(txs, ns) == txs.subrange(lo, hi),
    decreases txs.len(),
{
    reveal(Seq::filter);
    let pred = |tx: TransactionView| tx.vm == ns;
    if txs.len() == 0 {
        assert(txs.subrange(lo, hi) =~= txs.filter(pred));
    } else {
        let rest = txs.drop_last();
        let last = txs.last();
        if hi == txs.len() && lo < hi {
            assert(is_namespace_range(rest, ns, lo, hi - 1));
            lemma_namespace_range_holds_namespace(rest, ns, lo, hi - 1);
            assert(pred(last));
            assert(rest.subrange(lo, hi - 1).push(last) =~= txs.subrange(lo, hi));
        } else if hi == txs.len() {
            assert(is_namespace_range(rest, ns, lo - 1, hi - 1));
            lemma_namespace_range_holds_namespace(rest, ns, lo - 1, hi - 1);
            assert(txs[lo - 1].vm < ns);
            assert(!pred(last));
            assert(rest.subrange(lo - 1, hi - 1) =~= txs.subrange(lo, hi));
        } else {
            assert(is_namespace_range(rest, ns, lo, hi));
            lemma_namespace_range_holds_namespace(rest, ns, lo, hi);
            assert(!pred(last));
            assert(rest.subrange(lo, hi) =~= txs.subrange(lo, hi));
        }
    }
}

/// The range of positions that namespace `ns` occupies among leaves in
/// namespace order; empty, at the place where it would sit, if the
/// namespace has no leaf.
pub fn namespace_range(txs: &Vec<Transaction>, ns: VmId) -> (range: (usize, usize))
    requires
        sorted(tx_views(txs@)),
    ensures
        is_namespace_range(tx_views(txs@), ns.0, range.0 as int, range.1 as int),
{
    let ghost all = tx_views(txs@);
    let mut lo: usize = 0;
    while lo < txs.len() && txs[lo].vm().0 < ns.0
        invariant
            all == tx_views(txs@),
            lo <= txs@.len(),
            forall|i: int| 0 <= i < lo ==> (#[trigger] all[i]).vm < ns.0,
        decreases txs@.len() - lo,
    {
        lo += 1;
    }
    let mut hi: usize = lo;
    while hi < txs.len() && txs[hi].vm().0 == ns.0
        invariant
            all == tx_views(txs@),
            lo <= hi <= txs@.len(),
            lo < txs@.len() ==> all[lo as int].vm >= ns.0,
            forall|i: int| lo <= i < hi ==> (#[trigger] all[i]).vm == ns.0,
        decreases txs@.len() - hi,
    {
        hi += 1;
    }
    proof {
        assert forall|i: int| hi <= i < all.len() implies (#[trigger] all[i]).vm > ns.0 by {
            assert(all[hi as int].vm <= all[i].vm);
            assert(all[hi as int].vm != ns.0);
            assert(all[lo as int].vm <= all[hi as int].vm);
        }
    }
    (lo, hi)
}

/// Copies of the transactions at positions `lo..hi`.
pub fn copy_range(txs: &Vec<Transaction>, lo: usize, hi: usize) -> (out: Vec<Transaction>)
    requires
        lo <= hi <= txs@.len(),
    ensures
        tx_views(out@) == tx_views(txs@).subrange(lo as int, hi as int),
{
    let mut out: Vec<Transaction> = Vec::new();
    let mut i: usize = lo;
    while i < hi
        invariant
            lo <= i <= hi <= txs@.len(),
            tx_views(out@) == tx_views(txs@).subrange(lo as int, i as int),
        decreases hi - i,
    {
        let ghost before = tx_views(out@);
        out.push(txs[i].clone());
        assert(tx_views(out@) =~= before.push(txs@[i as int]@));
        assert(tx_views(out@) =~= tx_views(txs@).subrange(lo as int, i as int + 1));
        i += 1;
    }
    out
}

impl Tree {
    /// The transactions of namespace `ns`, in the order in which they were
    /// appended.
    pub fn transactions_for_namespace(&self, ns: VmId) -> (found: Vec<Transaction>)
        requires
            self.wf(),
        ensures
            tx_views(found@) == namespace_leaves(self@, ns.0),
    {
        let txs = self.leaves();
        let (lo, hi) = namespace_range(txs, ns);
        proof {
            lemma_namespace_range_holds_namespace(self@, ns.0, lo as int, hi as int);
        }
        copy_range(txs, lo, hi)
    }
}

/// A leaf next to the run of a namespace, with its audit path.
#[derive(Debug, PartialEq, Eq)]
pub struct Neighbour {
    /// The transaction at that position.
    pub tx: Transaction,
    /// Its audit path.
    pub path: InclusionProof,
}

/// The mathematical content of a neighbour.
pub struct NeighbourView {
    /// The transaction.
    pub tx: TransactionView,
    /// Its audit path.
    pub path: Seq<NodeView>,
}

impl View for Neighbour {
    type V = NeighbourView;

    open spec fn view(&self) -> NeighbourView {
        NeighbourView { tx: self.tx@, path: self.path@ }
    }
}

/// Evidence that a list of transactions is all that a tree holds of one
/// namespace: an audit path for each of them at consecutive positions, and
/// the leaves just before and just after the run, whose namespace ids
/// straddle it. Where no leaf follows, the last audit path shows that the
/// tree ends there.
#[derive(Debug, PartialEq, Eq)]
pub struct NamespaceProof {
    /// Position of the first transaction of the namespace, or the position
    /// at which the namespace would start.
    pub start: u64,
    /// One audit path for each transaction of the namespace.
    pub paths: Vec<InclusionProof>,
    /// The leaf before the run, absent if the run starts the tree.
    pub before: Option<Neighbour>,
    /// The leaf after the run, absent if the run ends the tree.
    pub after: Option<Neighbour>,
}

/// The mathematical content of a namespace proof.
pub struct NamespaceProofView {
    /// Position of the first transaction of the namespace.
    pub start: u64,
    /// One audit path for each transaction.
    pub paths: Seq<Seq<NodeView>>,
    /// The leaf before the run.
    pub before: Option<NeighbourView>,
    /// The leaf after the run.
    pub after: Option<NeighbourView>,
}

/// The views of a vector of audit paths.
pub open spec fn path_views(paths: Seq<InclusionProof>) -> Seq<Seq<NodeView>> {
    Seq::new(paths.len(), |i: int| paths[i]@)
}

/// The view of a neighbour that may be absent.
pub open spec fn neighbour_view(n: Option<Neighbour>) -> Option<NeighbourView> {
    match n {
        Some(x) => Some(x@),
        None => None,
    }
}

impl View for NamespaceProof {
    type V = NamespaceProofView;

    open spec fn view(&self) -> NamespaceProofView {
        NamespaceProofView {
            start: self.start,
            paths: path_views(self.paths@),
            before: neighbour_view(self.before),
            after: neighbour_view(self.after),
        }
    }
}

/// Every sibling to the right on the path from position `idx` is absent: no
/// leaf follows position `idx`.
pub open spec fn ends_tree(idx: int, path: Seq<NodeView>) -> bool
    decreases path.len(),
{
    if path.len() == 0 {
        true
    } else {
        (idx % 2 == 0 ==> path[0] == empty_node()) && ends_tree(idx / 2, path.drop_first())
    }
}

/// The `j`-th transaction belongs to `ns` and is accepted at position
/// `start + j`.
pub open spec fn member_accepted(
    root: NodeView,
    ns: u64,
    txs: Seq<TransactionView>,
    start: int,
    paths: Seq<Seq<NodeView>>,
    j: int,
) -> bool {
    txs[j].vm == ns && accepts(root, leaf_node(txs[j]), start + j, paths[j])
}

/// Each transaction belongs to `ns` and is accepted at its position.
pub open spec fn members_accepted(
    root: NodeView,
    ns: u64,
    txs: Seq<TransactionView>,
    start: int,
    paths: Seq<Seq<NodeView>>,
) -> bool {
    paths.len() == txs.len() && forall|j: int|
        0 <= j < txs.len() ==> #[trigger] member_accepted(root, ns, txs, start, paths, j)
}

/// A neighbour of a smaller namespace is accepted just before position
/// `start`, or `start` is the first position and there is no neighbour.
pub open spec fn before_accepted(
    root: NodeView,
    ns: u64,
    start: int,
    before: Option<NeighbourView>,
) -> bool {
    if start == 0 {
        before is None
    } else {
        match before {
            Some(n) => n.tx.vm < ns && accepts(root, leaf_node(n.tx), start - 1, n.path),
            None => false,
        }
    }
}

/// A neighbour of a larger namespace is accepted at position `end`.
pub open spec fn after_accepted(root: NodeView, ns: u64, end: int, after: NeighbourView) -> bool {
    after.tx.vm > ns && accepts(root, leaf_node(after.tx), end, after.path)
}

/// The tree ends behind the run: the path of the last leaf that the proof
/// shows has no leaf to its right, or the proof shows no leaf and the root
/// is that of the tree without leaves.
pub open spec fn end_accepted(
    root: NodeView,
    start: int,
    paths: Seq<Seq<NodeView>>,
    before: Option<NeighbourView>,
) -> bool {
    if paths.len() > 0 {
        ends_tree(start + paths.len() - 1, paths.last())
    } else if start > 0 {
        match before {
            Some(n) => ends_tree(start - 1, n.path),
            None => false,
        }
    } else {
        root == empty_node()
    }
}

/// The check of a namespace proof: `txs` are accepted at consecutive
/// positions from `start` on, all of namespace `ns`; the leaf before them
/// has a smaller id or they start the tree; the leaf after them has a
/// larger id or they end the tree.
pub open spec fn namespace_accepts(
    root: NodeView,
    ns: u64,
    txs: Seq<TransactionView>,
    p: NamespaceProofView,
) -> bool {
    &&& p.start + txs.len() <= u64::MAX
    &&& members_accepted(root, ns, txs, p.start as int, p.paths)
    &&& before_accepted(root, ns, p.start as int, p.before)
    &&& match p.after {
        Some(n) => after_accepted(root, ns, p.start + txs.len(), n),
        None => end_accepted(root, p.start as int, p.paths, p.before),
    }
}

/// Whether no leaf follows position `index`, by the audit path of that
/// position.
pub fn path_ends_tree(index: u64, audit: &InclusionProof) -> (ok: bool)
    ensures
        ok == ends_tree(index as int, audit@),
{
    let ghost path = audit@;
    let mut idx = index;
    let mut i: usize = 0;
    assert(path.subrange(0, path.len() as int) =~= path);
    while i < audit.path.len()
        invariant
            i <= audit.path@.len(),
            path == audit@,
            path.len() == audit.path@.len(),
            ends_tree(idx as int, path.subrange(i as int, path.len() as int)) == ends_tree(
                index as int,
                path,
            ),
        decreases audit.path@.len() - i,
    {
        let ghost rest = path.subrange(i as int, path.len() as int);
        assert(rest[0] == audit.path@[i as int]@);
        assert(rest.drop_first() =~= path.subrange(i as int + 1, path.len() as int));
        if idx % 2 == 0 && !audit.path[i].is_empty() {
            return false;
        }
        idx = idx / 2;
        i += 1;
    }
    assert(path.subrange(i as int, path.len() as int) =~= Seq::<NodeView>::empty());
    true
}

/// Checks each transaction of the run: its namespace and its audit path.
pub fn verify_members(
    root: &Node,
    ns: VmId,
    txs: &Vec<Transaction>,
    start: u64,
    paths: &Vec<InclusionProof>,
) -> (ok: bool)
    requires
        start + txs@.len() <= u64::MAX,
    ensures
        ok == members_accepted(root@, ns.0, tx_views(txs@), start as int, path_views(paths@)),
{
    if paths.len() != txs.len() {
        return false;
    }
    let ghost all = tx_views(txs@);
    let ghost ps = path_views(paths@);
    let mut j: usize = 0;
    while j < txs.len()
        invariant
            j <= txs@.len(),
            paths@.len() == txs@.len(),
            start + txs@.len() <= u64::MAX,
            all == tx_views(txs@),
            ps == path_views(paths@),
            forall|i: int|
                0 <= i < j ==> #[trigger] member_accepted(root@, ns.0, all, start as int, ps, i),
        decreases txs@.len() - j,
    {
        let tx = &txs[j];
        let ok = tx.vm().0 == ns.0 && verify_inclusion(root, tx, start + j as u64, &paths[j]);
        assert(ok == member_accepted(root@, ns.0, all, start as int, ps, j as int));
        if !ok {
            return false;
        }
        j += 1;
    }
    true
}

/// Checks the leaf before the run.
pub fn verify_before(root: &Node, ns: VmId, start: u64, before: &Option<Neighbour>) -> (ok: bool)
    ensures
        ok == before_accepted(root@, ns.0, start as int, neighbour_view(*before)),
{
    match before {
        None => start == 0,
        Some(n) => start != 0 && n.tx.vm().0 < ns.0 && verify_inclusion(
            root,
            &n.tx,
            start - 1,
            &n.path,
        ),
    }
}

/// Checks that the tree ends behind the run.
pub fn verify_end(
    root: &Node,
    start: u64,
    paths: &Vec<InclusionProof>,
    before: &Option<Neighbour>,
) -> (ok: bool)
    requires
        start + paths@.len() <= u64::MAX,
    ensures
        ok == end_accepted(root@, start as int, path_views(paths@), neighbour_view(*before)),
{
    let k = paths.len();
    if k > 0 {
        assert(path_views(paths@).last() == paths@[k as int - 1]@);
        path_ends_tree(start + (k as u64 - 1), &paths[k - 1])
    } else if start > 0 {
        match before {
            Some(n) => path_ends_tree(start - 1, &n.path),
            None => false,
        }
    } else {
        root.is_empty()
    }
}

/// Checks that `txs` are all the transactions of namespace `ns` in the tree
/// with root `root`, in order. Returns `false` on any mismatch.
pub fn verify_namespace(root: &Node, ns: VmId, txs: &Vec<Transaction>, evidence: &NamespaceProof)
    -> (ok: bool)
    ensures
        ok == namespace_accepts(root@, ns.0, tx_views(txs@), evidence@),
{
    if txs.len() as u64 > u64::MAX - evidence.start {
        return false;
    }
    if !verify_members(root, ns, txs, evidence.start, &evidence.paths) {
        return false;
    }
    if !verify_before(root, ns, evidence.start, &evidence.before) {
        return false;
    }
    match &evidence.after {
        Some(n) => n.tx.vm().0 > ns.0 && verify_inclusion(
            root,
            &n.tx,
            evidence.start + txs.len() as u64,
            &n.path,
        ),
        None => verify_end(root, evidence.start, &evidence.paths, &evidence.before),
    }
}

/// Checks a namespace proof as `verify_namespace` does and reports a failed
/// check as an error.
pub fn check_namespace(root: &Node, ns: VmId, txs: &Vec<Transaction>, evidence: &NamespaceProof)
    -> (out: Result<(), BlockError>)
    ensures
        match out {
            Ok(()) => namespace_accepts(root@, ns.0, tx_views(txs@), evidence@),
            Err(e) => {
                &&& e == BlockError::ProofVerificationFailed
                &&& !namespace_accepts(root@, ns.0, tx_views(txs@), evidence@)
            },
        },
{
    if verify_namespace(root, ns, txs, evidence) {
        Ok(())
    } else {
        Err(BlockError::ProofVerificationFailed)
    }
}

/// The audit path of the last node of a level has no node to its right.
pub proof fn lemma_last_path_ends_tree(level: Seq<NodeView>, idx: int)
    requires
        level.len() >= 1,
        idx == level.len() - 1,
    ensures
        ends_tree(idx, path_of(level, idx)),
    decreases level.len(),
{
    if level.len() > 1 {
        let path = path_of(level, idx);
        assert(path[0] == sibling(level, idx));
        assert(path.drop_first() =~= path_of(parent_level(level), idx / 2));
        lemma_last_path_ends_tree(parent_level(level), idx / 2);
    }
}

impl Tree {
    /// The audit paths of the leaves at positions `lo..hi`.
    fn prove_range(&self, lo: usize, hi: usize) -> (paths: Vec<InclusionProof>)
        requires
            self.wf(),
            lo <= hi <= self@.len(),
        ensures
            paths@.len() == hi - lo,
            forall|j: int|
                0 <= j < hi - lo ==> (#[trigger] paths@[j])@ == path_of(leaf_level(self@), lo + j),
    {
        let mut paths: Vec<InclusionProof> = Vec::new();
        let mut i: usize = lo;
        while i < hi
            invariant
                self.wf(),
                lo <= i <= hi <= self@.len(),
                paths@.len() == i - lo,
                forall|j: int|
                    0 <= j < i - lo ==> (#[trigger] paths@[j])@ == path_of(
                        leaf_level(self@),
                        lo + j,
                    ),
            decreases hi - i,
        {
            paths.push(self.audit_path(i));
            i += 1;
        }
        paths
    }

    /// The leaf at position `at` with its audit path.
    fn neighbour(&self, at: usize) -> (n: Neighbour)
        requires
            self.wf(),
            at < self@.len(),
        ensures
            n@.tx == self@[at as int],
            n@.path == path_of(leaf_level(self@), at as int),
    {
        Neighbour { tx: self.leaves()[at].clone(), path: self.audit_path(at) }
    }

    /// The transactions of namespace `ns` together with the evidence that
    /// they are all of it. The evidence is accepted with them against the
    /// root of this tree, also where the namespace has no transaction.
    pub fn prove_namespace(&self, ns: VmId) -> (found: (Vec<Transaction>, NamespaceProof))
        requires
            self.wf(),
        ensures
            tx_views(found.0@) == namespace_leaves(self@, ns.0),
            is_namespace_range(
                self@,
                ns.0,
                found.1@.start as int,
                found.1@.start + found.0@.len(),
            ),
            namespace_accepts(tree_root(self@), ns.0, tx_views(found.0@), found.1@),
    {
        let leaves = self.leaves();
        let (lo, hi) = namespace_range(leaves, ns);
        let txs = copy_range(leaves, lo, hi);
        let paths = self.prove_range(lo, hi);
        let before = if lo > 0 {
            Some(self.neighbour(lo - 1))
        } else {
            None
        };
        let after = if hi < leaves.len() {
            Some(self.neighbour(hi))
        } else {
            None
        };
        let evidence = NamespaceProof { start: lo as u64, paths, before, after };
        proof {
            let all = self@;
            let root = tree_root(all);
            let mine = tx_views(txs@);
            let view = evidence@;
            lemma_namespace_range_holds_namespace(all, ns.0, lo as int, hi as int);
            assert(mine.len() == txs@.len());
            assert(mine.len() == hi - lo);
            assert(view.start == lo);
            assert forall|j: int| 0 <= j < mine.len() implies #[trigger] member_accepted(
                root,
                ns.0,
                mine,
                lo as int,
                view.paths,
                j,
            ) by {
                assert(mine[j] == all[lo + j]);
                assert(view.paths[j] == evidence.paths@[j]@);
                lemma_inclusion_complete(all, lo + j);
            }
            if lo > 0 {
                lemma_inclusion_complete(all, lo - 1);
                assert(all[lo - 1].vm < ns.0);
            }
            if hi < all.len() {
                lemma_inclusion_complete(all, hi as int);
                assert(all[hi as int].vm > ns.0);
            } else if hi > 0 {
                lemma_last_path_ends_tree(leaf_level(all), hi - 1);
                if hi > lo {
                    assert(view.paths.last() == evidence.paths@[hi - lo - 1]@);
                }
            } else {
                assert(leaf_level(all) =~= Seq::<NodeView>::empty());
            }
        }
        (txs, evidence)
    }
}

} // verus!
