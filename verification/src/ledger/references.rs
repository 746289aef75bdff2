//! Counting the references of a graph: over the pairs of its transactions, and
//! over a list that holds each approval once.

use super::graph::{approvals_in_range, references, valid_index, Approvals, Element};
use super::transaction::TxId;
use vstd::prelude::*;

verus! {

/// An approval as a graph hands it out: the approving transaction, the approved
/// one, and the element between them.
pub type Edge = (TxId, TxId, Element);

/// `edges` holds each of the approvals once, and nothing else.
pub open spec fn lists(approvals: Approvals, edges: Seq<Edge>) -> bool {
    &&& forall|k: int|
        0 <= k < edges.len() ==> approvals.contains_key(
            ((#[trigger] edges[k]).0, edges[k].1),
        ) && approvals[(edges[k].0, edges[k].1)] == edges[k].2
    &&& forall|a: int, b: int|
        0 <= a < b < edges.len() ==> ((#[trigger] edges[a]).0, edges[a].1) != (
            (#[trigger] edges[b]).0,
            edges[b].1,
        )
    &&& forall|from: TxId, to: TxId| #[trigger]
        approvals.contains_key((from, to)) ==> exists|k: int|
            0 <= k < edges.len() && (#[trigger] edges[k]).0 == from && edges[k].1 == to
}

/// How many references `from` makes to the transactions `1..=upto`.
pub open spec fn references_from(approvals: Approvals, from: TxId, upto: nat) -> nat
    decreases upto,
{
    if upto == 0 {
        0
    } else {
        references_from(approvals, from, (upto - 1) as nat) + references(
            approvals,
            from,
            upto as TxId,
        )
    }
}

/// How many references the transactions `1..=upto` make to those of a graph of
/// `size` transactions.
pub open spec fn references_among(approvals: Approvals, size: usize, upto: nat) -> nat
    decreases upto,
{
    if upto == 0 {
        0
    } else {
        references_among(approvals, size, (upto - 1) as nat) + references_from(
            approvals,
            upto as TxId,
            size as nat,
        )
    }
}

/// How many references the transactions of a graph make in all.
pub open spec fn total_references(approvals: Approvals, size: usize) -> nat {
    references_among(approvals, size, size as nat)
}

/// How many references the edges of a list stand for.
pub open spec fn listed_references(edges: Seq<Edge>) -> nat
    decreases edges.len(),
{
    if edges.len() == 0 {
        0
    } else {
        listed_references(edges.drop_last()) + edges.last().2.references as nat
    }
}

/// Without the approval of `to` by `from`, `row` makes that approval's
/// references less, where it is `from` and `to` is among the approved.
proof fn lemma_from_without(approvals: Approvals, from: TxId, to: TxId, row: TxId, upto: nat)
    requires
        upto <= usize::MAX,
    ensures
        references_from(approvals.remove((from, to)), row, upto) + (if row == from && 1 <= to
            <= upto {
            references(approvals, from, to)
        } else {
            0
        }) == references_from(approvals, row, upto),
    decreases upto,
{
    if upto > 0 {
        lemma_from_without(approvals, from, to, row, (upto - 1) as nat);
    }
}

/// Without the approval of `to` by `from`, the transactions `1..=upto` make that
/// approval's references less, where `from` is among them and `to` is valid.
proof fn lemma_among_without(approvals: Approvals, size: usize, from: TxId, to: TxId, upto: nat)
    requires
        upto <= usize::MAX,
    ensures
        references_among(approvals.remove((from, to)), size, upto) + (if 1 <= from <= upto
            && valid_index(to, size) {
            references(approvals, from, to)
        } else {
            0
        }) == references_among(approvals, size, upto),
    decreases upto,
{
    if upto > 0 {
        lemma_among_without(approvals, size, from, to, (upto - 1) as nat);
        lemma_from_without(approvals, from, to, upto as TxId, size as nat);
    }
}

/// Where nothing approves anything, no reference is made.
proof fn lemma_from_nothing(approvals: Approvals, row: TxId, upto: nat)
    requires
        forall|from: TxId, to: TxId| !approvals.contains_key((from, to)),
    ensures
        references_from(approvals, row, upto) == 0,
    decreases upto,
{
    if upto > 0 {
        lemma_from_nothing(approvals, row, (upto - 1) as nat);
    }
}

/// Where nothing approves anything, no reference is made.
proof fn lemma_among_nothing(approvals: Approvals, size: usize, upto: nat)
    requires
        forall|from: TxId, to: TxId| !approvals.contains_key((from, to)),
    ensures
        references_among(approvals, size, upto) == 0,
    decreases upto,
{
    if upto > 0 {
        lemma_among_nothing(approvals, size, (upto - 1) as nat);
        lemma_from_nothing(approvals, upto as TxId, size as nat);
    }
}

/// A list that holds each approval of a graph once stands for as many
/// references as the graph makes in all, in whatever order it holds them.
pub proof fn lemma_listed_references(approvals: Approvals, size: usize, edges: Seq<Edge>)
    requires
        approvals_in_range(approvals, size),
        lists(approvals, edges),
    ensures
        listed_references(edges) == total_references(approvals, size),
    decreases edges.len(),
{
    if edges.len() == 0 {
        lemma_among_nothing(approvals, size, size as nat);
    } else {
        let last = edges.last();
        let front = edges.drop_last();
        let fewer = approvals.remove((last.0, last.1));
        assert(approvals.contains_key((last.0, last.1)));
        assert forall|k: int| 0 <= k < front.len() implies fewer.contains_key(
            ((#[trigger] front[k]).0, front[k].1),
        ) && fewer[(front[k].0, front[k].1)] == front[k].2 by {
            assert(front[k] == edges[k]);
            let end = edges.len() - 1;
            assert((edges[k].0, edges[k].1) != (edges[end].0, edges[end].1));
        }
        assert forall|a: int, b: int| 0 <= a < b < front.len() implies (
            (#[trigger] front[a]).0,
            front[a].1,
        ) != ((#[trigger] front[b]).0, front[b].1) by {
            assert(front[a] == edges[a]);
            assert(front[b] == edges[b]);
        }
        assert forall|from: TxId, to: TxId| #[trigger]
            fewer.contains_key((from, to)) implies exists|k: int|
            0 <= k < front.len() && (#[trigger] front[k]).0 == from && front[k].1 == to by {
            assert(approvals.contains_key((from, to)));
            let k = choose|k: int|
                0 <= k < edges.len() && (#[trigger] edges[k]).0 == from && edges[k].1 == to;
            assert(front[k] == edges[k]);
        }
        assert forall|from: TxId, to: TxId| #[trigger]
            fewer.contains_key((from, to)) implies valid_index(from, size) && valid_index(to, size)
            && fewer[(from, to)].references >= 1 by {
            assert(approvals.contains_key((from, to)));
        }
        lemma_listed_references(fewer, size, front);
        lemma_among_without(approvals, size, last.0, last.1, size as nat);
    }
}

} // verus!
