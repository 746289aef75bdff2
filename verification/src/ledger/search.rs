//! The search that finds the depths: breadth first from the root, against the
//! direction of the approvals.

use super::depth::{is_depth, lemma_reaches_through, reaches_root, reaches_root_in, searched};
use super::graph::{approvals_in_range, Approvals, Depth, Graph, ROOT};
use super::transaction::TxId;
use std::collections::VecDeque;
use vstd::prelude::*;

verus! {

/// What a search has found so far: for each transaction, at the place before its
/// identifier, the depth it was found at.
type Found = Seq<Option<Depth>>;

/// The search has found `node`.
spec fn is_found(found: Found, node: TxId) -> bool {
    1 <= node <= found.len() && found[node - 1] is Some
}

/// The depth at which the search has found `node`.
spec fn depth_at(found: Found, node: TxId) -> Depth {
    found[node - 1]->0
}

/// How many transactions the search has not found.
spec fn unfound(found: Found) -> nat
    decreases found.len(),
{
    if found.len() == 0 {
        0
    } else {
        unfound(found.drop_last()) + if found.last() is None {
            1nat
        } else {
            0nat
        }
    }
}

/// The root is found at depth 0; each transaction that is found reaches the root
/// in as many steps as its depth says, and that depth is below the number of
/// transactions found.
spec fn sound(approvals: Approvals, found: Found) -> bool {
    &&& found.len() >= 1
    &&& found[0] == Some(0usize)
    &&& forall|node: TxId| #[trigger]
        is_found(found, node) ==> reaches_root_in(approvals, node, depth_at(found, node) as nat)
            && depth_at(found, node) + unfound(found) < found.len()
}

/// Each transaction in `done` is found, and so is each one that approves it, no
/// more than one step deeper.
spec fn settled(approvals: Approvals, found: Found, done: Set<TxId>) -> bool {
    &&& forall|node: TxId| #[trigger] done.contains(node) ==> is_found(found, node)
    &&& forall|node: TxId, from: TxId|
        done.contains(node) && #[trigger] approvals.contains_key((from, node)) ==> is_found(
            found,
            from,
        ) && depth_at(found, from) <= depth_at(found, node) + 1
}

/// The queue holds found transactions only, and each found transaction is in it
/// or in `seen`.
spec fn pending(found: Found, queue: Seq<TxId>, seen: Set<TxId>) -> bool {
    &&& forall|k: int| 0 <= k < queue.len() ==> is_found(found, #[trigger] queue[k])
    &&& forall|node: TxId| #[trigger]
        is_found(found, node) ==> seen.contains(node) || queue.contains(node)
}

/// The queue is in the order of the depths, none of them below `low`, and nothing
/// is found deeper than one step below `low`.
spec fn levelled(found: Found, queue: Seq<TxId>, low: Depth) -> bool {
    &&& forall|k: int| 0 <= k < queue.len() ==> low <= depth_at(found, #[trigger] queue[k])
    &&& forall|a: int, b: int|
        0 <= a <= b < queue.len() ==> depth_at(found, #[trigger] queue[a]) <= depth_at(
            found,
            #[trigger] queue[b],
        )
    &&& forall|node: TxId| #[trigger] is_found(found, node) ==> depth_at(found, node) <= low + 1
}

/// Finding a transaction leaves one less unfound.
proof fn lemma_unfound_update(found: Found, at: int, depth: Depth)
    requires
        0 <= at < found.len(),
        found[at] is None,
    ensures
        unfound(found.update(at, Some(depth))) + 1 == unfound(found),
    decreases found.len(),
{
    let after = found.update(at, Some(depth));
    if at == found.len() - 1 {
        assert(after.drop_last() =~= found.drop_last());
    } else {
        assert(after.drop_last() =~= found.drop_last().update(at, Some(depth)));
        lemma_unfound_update(found.drop_last(), at, depth);
    }
}

/// Where nothing is found, everything is unfound.
proof fn lemma_unfound_none(found: Found)
    requires
        forall|i: int| 0 <= i < found.len() ==> found[i] is None,
    ensures
        unfound(found) == found.len(),
    decreases found.len(),
{
    if found.len() > 0 {
        lemma_unfound_none(found.drop_last());
    }
}

/// The search may start: the root is found at depth 0 and waits in the queue.
proof fn lemma_start(approvals: Approvals, blank: Found)
    requires
        blank.len() >= 1,
        forall|i: int| 0 <= i < blank.len() ==> blank[i] is None,
    ensures
        sound(approvals, blank.update(0, Some(0usize))),
        settled(approvals, blank.update(0, Some(0usize)), Set::empty()),
        pending(blank.update(0, Some(0usize)), seq![ROOT], Set::empty()),
        levelled(blank.update(0, Some(0usize)), seq![ROOT], 0),
{
    let found = blank.update(0, Some(0usize));
    lemma_unfound_none(blank);
    lemma_unfound_update(blank, 0, 0usize);
    assert forall|node: TxId| #[trigger] is_found(found, node) implies node == ROOT by {
        if node != ROOT {
            assert(found[node - 1] == blank[node - 1]);
        }
    }
    assert(reaches_root_in(approvals, ROOT, 0));
    assert(seq![ROOT][0] == ROOT);
    assert forall|node: TxId| #[trigger] is_found(found, node) implies seq![ROOT].contains(
        node,
    ) by {
        assert(seq![ROOT][0] == node);
    }
}

/// Taking the head `node` off the queue: the rest is no shallower than it, and
/// each found transaction is in the rest, or seen, or `node` itself.
proof fn lemma_take(found: Found, queue: Seq<TxId>, done: Set<TxId>, low: Depth)
    requires
        queue.len() > 0,
        pending(found, queue, done),
        levelled(found, queue, low),
    ensures
        is_found(found, queue[0]),
        pending(found, queue.subrange(1, queue.len() as int), done.insert(queue[0])),
        levelled(found, queue.subrange(1, queue.len() as int), depth_at(found, queue[0])),
{
    let rest = queue.subrange(1, queue.len() as int);
    let head = queue[0];
    assert forall|k: int| 0 <= k < rest.len() implies is_found(found, #[trigger] rest[k])
        && depth_at(found, head) <= depth_at(found, rest[k]) by {
        assert(rest[k] == queue[k + 1]);
    }
    assert forall|a: int, b: int| 0 <= a <= b < rest.len() implies depth_at(
        found,
        #[trigger] rest[a],
    ) <= depth_at(found, #[trigger] rest[b]) by {
        assert(rest[a] == queue[a + 1]);
        assert(rest[b] == queue[b + 1]);
    }
    assert forall|node: TxId| #[trigger] is_found(found, node) implies done.insert(head).contains(
        node,
    ) || rest.contains(node) by {
        if !done.contains(node) && node != head {
            assert(queue.contains(node));
            let k = choose|k: int| 0 <= k < queue.len() && queue[k] == node;
            assert(rest[k - 1] == node);
        }
    }
    assert(low <= depth_at(found, queue[0]));
}

/// Finding `from`, which approves `node`, one step deeper than `node`.
proof fn lemma_find(
    approvals: Approvals,
    found: Found,
    queue: Seq<TxId>,
    done: Set<TxId>,
    node: TxId,
    from: TxId,
)
    requires
        sound(approvals, found),
        settled(approvals, found, done),
        pending(found, queue, done.insert(node)),
        levelled(found, queue, depth_at(found, node)),
        is_found(found, node),
        found.len() <= usize::MAX,
        1 <= from <= found.len(),
        found[from - 1] is None,
        approvals.contains_key((from, node)),
    ensures
        depth_at(found, node) + 1 < found.len(),
        sound(approvals, found.update(from - 1, Some((depth_at(found, node) + 1) as usize))),
        settled(
            approvals,
            found.update(from - 1, Some((depth_at(found, node) + 1) as usize)),
            done,
        ),
        pending(
            found.update(from - 1, Some((depth_at(found, node) + 1) as usize)),
            queue.push(from),
            done.insert(node),
        ),
        levelled(
            found.update(from - 1, Some((depth_at(found, node) + 1) as usize)),
            queue.push(from),
            depth_at(found, node),
        ),
        unfound(found.update(from - 1, Some((depth_at(found, node) + 1) as usize))) + 1 == unfound(
            found,
        ),
{
    let deep = depth_at(found, node);
    lemma_unfound_update(found, from - 1, 0usize);
    assert(deep + unfound(found) < found.len());
    lemma_unfound_update(found, from - 1, (deep + 1) as usize);
    let after = found.update(from - 1, Some((deep + 1) as usize));
    let longer = queue.push(from);
    assert(is_found(after, from));
    assert forall|other: TxId| other != from implies is_found(after, other) == is_found(
        found,
        other,
    ) && (is_found(found, other) ==> depth_at(after, other) == depth_at(found, other)) by {
        if 1 <= other <= found.len() {
            assert(after[other - 1] == found[other - 1]);
        }
    }
    lemma_reaches_through(approvals, from, node, deep as nat);
    assert forall|other: TxId| #[trigger] is_found(after, other) implies reaches_root_in(
        approvals,
        other,
        depth_at(after, other) as nat,
    ) && depth_at(after, other) + unfound(after) < after.len() && depth_at(after, other) <= deep
        + 1 by {
        if other != from {
            assert(is_found(found, other));
        }
    }
    assert forall|other: TxId, third: TxId|
        done.contains(other) && #[trigger] approvals.contains_key((third, other)) implies is_found(
        after,
        third,
    ) && depth_at(after, third) <= depth_at(after, other) + 1 by {
        assert(is_found(found, other));
        assert(is_found(found, third));
    }
    assert forall|other: TxId| #[trigger] done.contains(other) implies is_found(after, other) by {
        assert(is_found(found, other));
    }
    assert forall|k: int| 0 <= k < longer.len() implies is_found(after, #[trigger] longer[k])
        && deep <= depth_at(after, longer[k]) by {
        if k < queue.len() {
            assert(longer[k] == queue[k]);
            assert(is_found(found, queue[k]));
        }
    }
    assert forall|a: int, b: int| 0 <= a <= b < longer.len() implies depth_at(
        after,
        #[trigger] longer[a],
    ) <= depth_at(after, #[trigger] longer[b]) by {
        if a < queue.len() {
            assert(longer[a] == queue[a]);
            assert(is_found(found, queue[a]));
        }
        if b < queue.len() {
            assert(longer[b] == queue[b]);
            assert(is_found(found, queue[b]));
        }
    }
    assert forall|other: TxId| #[trigger] is_found(after, other) implies done.insert(node).contains(
        other,
    ) || longer.contains(other) by {
        if other == from {
            assert(longer[queue.len() as int] == from);
        } else {
            assert(is_found(found, other));
            if !done.insert(node).contains(other) {
                let k = choose|k: int| 0 <= k < queue.len() && queue[k] == other;
                assert(longer[k] == other);
            }
        }
    }
}

/// Once each transaction that approves `node` is found, `node` is done.
proof fn lemma_done(approvals: Approvals, found: Found, done: Set<TxId>, node: TxId)
    requires
        approvals_in_range(approvals, found.len() as usize),
        found.len() <= usize::MAX,
        settled(approvals, found, done),
        is_found(found, node),
        forall|other: TxId| #[trigger]
            is_found(found, other) ==> depth_at(found, other) <= depth_at(found, node) + 1,
        forall|from: TxId|
            1 <= from <= found.len() && #[trigger] approvals.contains_key((from, node))
                ==> is_found(found, from),
    ensures
        settled(approvals, found, done.insert(node)),
{
    assert forall|other: TxId, from: TxId|
        done.insert(node).contains(other) && #[trigger] approvals.contains_key(
            (from, other),
        ) implies is_found(found, from) && depth_at(found, from) <= depth_at(found, other) + 1 by {
        if other == node {
            assert(1 <= from <= found.len());
            assert(is_found(found, from));
        }
    }
}

/// When the queue has run empty, whatever reaches the root is found, no deeper
/// than the steps it takes.
proof fn lemma_complete(
    approvals: Approvals,
    found: Found,
    done: Set<TxId>,
    node: TxId,
    steps: nat,
)
    requires
        sound(approvals, found),
        settled(approvals, found, done),
        pending(found, Seq::empty(), done),
        reaches_root_in(approvals, node, steps),
    ensures
        is_found(found, node),
        depth_at(found, node) <= steps,
    decreases steps,
{
    if steps == 0 {
        assert(is_found(found, ROOT));
    } else {
        let next = choose|next: TxId| #[trigger]
            approvals.contains_key((node, next)) && reaches_root_in(
                approvals,
                next,
                (steps - 1) as nat,
            );
        lemma_complete(approvals, found, done, next, (steps - 1) as nat);
        assert(is_found(found, next));
        assert(done.contains(next) || Seq::<TxId>::empty().contains(next));
        assert(done.contains(next));
        assert(approvals.contains_key((node, next)));
    }
}

/// What the search has found when the queue has run empty is each
/// transaction's depth, and what it has not found does not reach the root.
proof fn lemma_searched(approvals: Approvals, found: Found, done: Set<TxId>)
    requires
        found.len() <= usize::MAX,
        sound(approvals, found),
        settled(approvals, found, done),
        pending(found, Seq::empty(), done),
    ensures
        searched(approvals, found),
        forall|i: int| 0 <= i < found.len() && found[i] is Some ==> (#[trigger] found[i])->0
            < found.len(),
{
    assert forall|node: TxId| 1 <= node <= found.len() implies match #[trigger] found[node - 1] {
        Some(depth) => is_depth(approvals, node, depth as nat),
        None => !reaches_root(approvals, node),
    } by {
        assert forall|steps: nat| reaches_root_in(approvals, node, steps) implies is_found(
            found,
            node,
        ) && depth_at(found, node) <= steps by {
            lemma_complete(approvals, found, done, node, steps);
        }
        if found[node - 1] is Some {
            assert(is_found(found, node));
        }
    }
    assert forall|i: int| 0 <= i < found.len() && found[i] is Some implies (#[trigger] found[i])->0
        < found.len() by {
        assert(is_found(found, (i + 1) as TxId));
    }
}

/// Searches the graph from the root, breadth first and against the direction of
/// the approvals. The outcome holds, for each transaction at the place before
/// its identifier, its depth, or nothing where it does not reach the root.
pub fn search(graph: &Graph) -> (found: Vec<Option<Depth>>)
    requires
        graph.wf(),
    ensures
        found@.len() == graph.spec_size(),
        searched(graph@, found@),
        forall|i: int| 0 <= i < found@.len() && found@[i] is Some ==> (#[trigger] found@[i])->0
            < graph.spec_size(),
{
    let size = graph.size();
    proof {
        graph.lemma_wf();
    }
    let mut found: Vec<Option<Depth>> = Vec::new();
    let mut filled: usize = 0;
    while filled < size
        invariant
            filled <= size,
            found@.len() == filled,
            forall|i: int| 0 <= i < filled ==> found@[i] is None,
        decreases size - filled,
    {
        found.push(None);
        filled += 1;
    }
    proof {
        lemma_start(graph@, found@);
    }
    found[0] = Some(0);
    let mut queue: VecDeque<TxId> = VecDeque::new();
    queue.push_back(ROOT);
    assert(queue@ =~= seq![ROOT]);
    let ghost mut done: Set<TxId> = Set::empty();
    let ghost mut low: Depth = 0;
    while queue.len() > 0
        invariant
            graph.wf(),
            size == graph.spec_size(),
            found@.len() == size,
            approvals_in_range(graph@, size),
            sound(graph@, found@),
            settled(graph@, found@, done),
            pending(found@, queue@, done),
            levelled(found@, queue@, low),
        decreases 2 * unfound(found@) + queue@.len(),
    {
        let ghost before = 2 * unfound(found@) + queue@.len();
        proof {
            lemma_take(found@, queue@, done, low);
        }
        let node = queue.pop_front().unwrap();
        let deep: Depth = found[node - 1].unwrap();
        let mut at: usize = 0;
        while at < size
            invariant
                graph.wf(),
                size == graph.spec_size(),
                found@.len() == size,
                at <= size,
                approvals_in_range(graph@, size),
                sound(graph@, found@),
                settled(graph@, found@, done),
                pending(found@, queue@, done.insert(node)),
                levelled(found@, queue@, deep),
                is_found(found@, node),
                depth_at(found@, node) == deep,
                2 * unfound(found@) + queue@.len() < before,
                forall|from: TxId|
                    1 <= from <= at && #[trigger] graph@.contains_key((from, node)) ==> is_found(
                        found@,
                        from,
                    ),
            decreases size - at,
        {
            let from: TxId = at + 1;
            let fresh = found[at].is_none();
            if fresh && graph.get(from, node).is_some() {
                proof {
                    lemma_find(graph@, found@, queue@, done, node, from);
                }
                let ghost earlier = found@;
                found[at] = Some(deep + 1);
                queue.push_back(from);
                proof {
                    assert forall|other: TxId|
                        1 <= other <= at + 1 && #[trigger] graph@.contains_key(
                            (other, node),
                        ) implies is_found(found@, other) by {
                        if other != from {
                            assert(is_found(earlier, other));
                            assert(found@[other - 1] == earlier[other - 1]);
                        }
                    }
                    assert(found@[node - 1] == earlier[node - 1]);
                }
            }
            at += 1;
        }
        proof {
            lemma_done(graph@, found@, done, node);
            done = done.insert(node);
            low = deep;
        }
    }
    proof {
        assert(queue@ =~= Seq::<TxId>::empty());
        lemma_searched(graph@, found@, done);
    }
    found
}

} // verus!
