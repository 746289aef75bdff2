//! What the depth of a transaction is: the length of the shortest chain of
//! approvals that leads from it to the root.

use super::graph::{approvals_of, recorded, valid_index, Approvals, Depth, ROOT};
use super::transaction::{Transaction, TxId};
use vstd::prelude::*;
use vstd::set_lib::lemma_subset_equality;

verus! {

/// A chain of exactly `steps` approvals leads from `node` to the root.
pub open spec fn reaches_root_in(approvals: Approvals, node: TxId, steps: nat) -> bool
    decreases steps,
{
    if steps == 0 {
        node == ROOT
    } else {
        exists|next: TxId| #[trigger]
            approvals.contains_key((node, next)) && reaches_root_in(
                approvals,
                next,
                (steps - 1) as nat,
            )
    }
}

/// Some chain of approvals leads from `node` to the root.
pub open spec fn reaches_root(approvals: Approvals, node: TxId) -> bool {
    exists|steps: nat| reaches_root_in(approvals, node, steps)
}

/// `depth` is the depth of `node`: a chain of that many approvals leads from it
/// to the root, and no shorter one does.
pub open spec fn is_depth(approvals: Approvals, node: TxId, depth: nat) -> bool {
    &&& reaches_root_in(approvals, node, depth)
    &&& forall|steps: nat| reaches_root_in(approvals, node, steps) ==> depth <= steps
}

/// Every transaction of the graph reaches the root.
pub open spec fn rooted(approvals: Approvals, size: usize) -> bool {
    forall|node: TxId| valid_index(node, size) ==> reaches_root(approvals, node)
}

/// The graph of the transactions, which is of one transaction more than there
/// are, has a size, and every transaction of it reaches the root.
pub open spec fn well_rooted(transactions: Map<TxId, Transaction>) -> bool {
    &&& transactions.len() < usize::MAX
    &&& rooted(
        approvals_of(transactions, (transactions.len() + 1) as usize),
        (transactions.len() + 1) as usize,
    )
}

/// The outcome of a search from the root: for each of the transactions `1..=n`,
/// at the place before its identifier, its depth, or nothing where no chain of
/// approvals leads from it to the root.
pub open spec fn searched(approvals: Approvals, found: Seq<Option<Depth>>) -> bool {
    forall|node: TxId|
        1 <= node <= found.len() ==> match #[trigger] found[node - 1] {
            Some(depth) => is_depth(approvals, node, depth as nat),
            None => !reaches_root(approvals, node),
        }
}

/// `depths` gives each transaction of the graph, and no other, its depth, which
/// is less than the size of the graph.
pub open spec fn depths_of(approvals: Approvals, size: usize, depths: Map<TxId, Depth>) -> bool {
    &&& forall|node: TxId|
        #![trigger depths.contains_key(node)]
        #![trigger valid_index(node, size)]
        depths.contains_key(node) <==> valid_index(node, size)
    &&& forall|node: TxId|
        valid_index(node, size) ==> is_depth(approvals, node, #[trigger] depths[node] as nat)
            && depths[node] < size
}

/// A transaction has one depth at most.
pub proof fn lemma_depth_unique(approvals: Approvals, node: TxId, a: nat, b: nat)
    requires
        is_depth(approvals, node, a),
        is_depth(approvals, node, b),
    ensures
        a == b,
{
}

/// The depth of the root is 0, whatever approves what.
pub proof fn lemma_root_depth(approvals: Approvals, depth: nat)
    requires
        is_depth(approvals, ROOT, depth),
    ensures
        depth == 0,
{
    assert(reaches_root_in(approvals, ROOT, 0));
}

/// A transaction that approves one of depth `depth` reaches the root in one
/// step more.
pub proof fn lemma_reaches_through(approvals: Approvals, node: TxId, next: TxId, steps: nat)
    requires
        approvals.contains_key((node, next)),
        reaches_root_in(approvals, next, steps),
    ensures
        reaches_root_in(approvals, node, steps + 1),
{
    assert((steps + 1 - 1) as nat == steps);
}

/// In a map of depths, the root has depth 0.
pub proof fn lemma_depths_of_root(approvals: Approvals, size: usize, depths: Map<TxId, Depth>)
    requires
        size >= 1,
        depths_of(approvals, size, depths),
    ensures
        depths.contains_key(ROOT),
        depths[ROOT] == 0,
{
    assert(valid_index(ROOT, size));
    lemma_root_depth(approvals, depths[ROOT] as nat);
}

/// Where a map of depths exists, every transaction reaches the root.
pub proof fn lemma_depths_of_rooted(approvals: Approvals, size: usize, depths: Map<TxId, Depth>)
    requires
        depths_of(approvals, size, depths),
    ensures
        rooted(approvals, size),
{
    assert forall|node: TxId| valid_index(node, size) implies reaches_root(approvals, node) by {
        assert(is_depth(approvals, node, depths[node] as nat));
    }
}

/// The identifiers from 2 to `last`.
spec fn ids_upto(last: int) -> Set<TxId> {
    Set::new(|id: TxId| 2 <= id <= last)
}

/// There are `last - 1` identifiers from 2 to `last`.
proof fn lemma_ids_upto(last: int)
    requires
        1 <= last <= usize::MAX,
    ensures
        ids_upto(last).finite(),
        ids_upto(last).len() == last - 1,
    decreases last,
{
    if last == 1 {
        assert(ids_upto(last) =~= Set::<TxId>::empty());
    } else {
        lemma_ids_upto(last - 1);
        assert(ids_upto(last) =~= ids_upto(last - 1).insert(last as TxId));
    }
}

/// Where every transaction of their graph reaches the root, the transactions
/// are those from 2 to the size of the graph, without a gap, and the parents of
/// each are valid in it.
pub proof fn lemma_well_rooted(transactions: Map<TxId, Transaction>, size: usize)
    requires
        transactions.dom().finite(),
        size == transactions.len() + 1,
        well_rooted(transactions),
    ensures
        forall|id: TxId| transactions.contains_key(id) <==> 2 <= id <= size,
        forall|id: TxId|
            2 <= id <= size ==> valid_index(#[trigger] transactions[id].left, size) && valid_index(
                transactions[id].right,
                size,
            ),
{
    let approvals = approvals_of(transactions, size);
    let ids = ids_upto(size as int);
    assert forall|id: TxId| 2 <= id <= size implies #[trigger] recorded(
        transactions,
        size,
        id,
    ) by {
        assert(valid_index(id, size));
        assert(reaches_root(approvals, id));
        let steps = choose|steps: nat| reaches_root_in(approvals, id, steps);
        assert(steps != 0);
        let next = choose|next: TxId| #[trigger]
            approvals.contains_key((id, next)) && reaches_root_in(
                approvals,
                next,
                (steps - 1) as nat,
            );
        assert(approvals.contains_key((id, next)));
    }
    assert(ids.subset_of(transactions.dom())) by {
        assert forall|id: TxId| ids.contains(id) implies transactions.dom().contains(id) by {
            assert(recorded(transactions, size, id));
        }
    }
    lemma_ids_upto(size as int);
    lemma_subset_equality(ids, transactions.dom());
    assert forall|id: TxId| transactions.contains_key(id) <==> 2 <= id <= size by {
        assert(transactions.dom().contains(id) == ids.contains(id));
    }
    assert forall|id: TxId| 2 <= id <= size implies valid_index(
        #[trigger] transactions[id].left,
        size,
    ) && valid_index(transactions[id].right, size) by {
        assert(recorded(transactions, size, id));
    }
}

} // verus!
