//! The graph of approvals: which transaction approves which, how many times, and
//! how far each transaction is from the root.

use super::depth::{depths_of, reaches_root, rooted, searched, well_rooted};
use super::references::{lists, Edge};
use super::search::search;
use super::transaction::{Transaction, TxId};
use std::collections::HashMap;
use vstd::prelude::*;
use vstd::std_specs::iter::IteratorSpec;

verus! {

/// How far a transaction is from the root.
pub type Depth = usize;

/// The depth of each transaction, by its identifier.
pub type Depths = HashMap<TxId, Depth>;

/// The transactions of a ledger, by their identifiers.
pub type Transactions = HashMap<TxId, Transaction>;

/// The identifier of the root, the transaction from which the depths are counted.
pub const ROOT: TxId = 1;

/// What the graph holds for a pair of transactions of which the first approves
/// the second.
#[derive(Debug, Default, Clone, Copy, PartialEq, Eq, Structural)]
pub struct Element {
    /// How many times the first transaction names the second as a parent.
    pub references: u32,
}

impl Element {
    /// Makes an element of its number of references.
    pub fn new(references: u32) -> (element: Self)
        ensures
            element == (Element { references }),
    {
        Self { references }
    }
}

/// The approvals of a graph: each pair of an approving and an approved
/// transaction, with its element.
pub type Approvals = Map<(TxId, TxId), Element>;

/// An identifier is valid in a graph of `size` transactions when it is one of
/// `1..=size`.
pub open spec fn valid_index(index: TxId, size: usize) -> bool {
    1 <= index <= size
}

/// How many times `from` names `to` as a parent; 0 where it does not approve it.
pub open spec fn references(approvals: Approvals, from: TxId, to: TxId) -> nat {
    if approvals.contains_key((from, to)) {
        approvals[(from, to)].references as nat
    } else {
        0
    }
}

/// The approvals join valid identifiers only, and each has a reference at least.
pub open spec fn approvals_in_range(approvals: Approvals, size: usize) -> bool {
    forall|from: TxId, to: TxId| #[trigger]
        approvals.contains_key((from, to)) ==> valid_index(from, size) && valid_index(to, size)
            && approvals[(from, to)].references >= 1
}

/// The approvals after `from` has named `to` as a parent once more.
pub open spec fn with_reference(approvals: Approvals, from: TxId, to: TxId) -> Approvals {
    approvals.insert(
        (from, to),
        Element { references: (references(approvals, from, to) + 1) as u32 },
    )
}

/// The approvals after a transaction has been added with its two parents. Where
/// one of the three identifiers is not valid, nothing is added.
pub open spec fn with_transaction(
    approvals: Approvals,
    size: usize,
    id: TxId,
    left: TxId,
    right: TxId,
) -> Approvals {
    if valid_index(id, size) && valid_index(left, size) && valid_index(right, size) {
        with_reference(with_reference(approvals, id, left), id, right)
    } else {
        approvals
    }
}

/// The references of `id` to its two parents can be counted in an `Element`.
pub open spec fn references_fit(approvals: Approvals, id: TxId, left: TxId, right: TxId) -> bool {
    if left == right {
        references(approvals, id, left) + 2 <= u32::MAX
    } else {
        references(approvals, id, left) + 1 <= u32::MAX && references(approvals, id, right) + 1
            <= u32::MAX
    }
}

/// The transaction `id` is recorded in a graph of `size` transactions when it is
/// one of `transactions` and it and its two parents are valid there.
pub open spec fn recorded(transactions: Map<TxId, Transaction>, size: usize, id: TxId) -> bool {
    &&& transactions.contains_key(id)
    &&& valid_index(id, size)
    &&& valid_index(transactions[id].left, size)
    &&& valid_index(transactions[id].right, size)
}

/// The approvals that `transactions` make in a graph of `size` transactions: each
/// recorded transaction approves its two parents, once each, or twice the one
/// that is both.
pub open spec fn approvals_of(transactions: Map<TxId, Transaction>, size: usize) -> Approvals {
    Map::new(
        |e: (TxId, TxId)|
            recorded(transactions, size, e.0) && (transactions[e.0].left == e.1
                || transactions[e.0].right == e.1),
        |e: (TxId, TxId)|
            Element {
                references: if transactions[e.0].left == transactions[e.0].right {
                    2
                } else {
                    1
                },
            },
    )
}

/// The approvals of transactions are within the size of their graph. Each is of
/// one reference, or of two where the two parents of the approving transaction
/// are one and the same.
pub proof fn lemma_approvals_of(transactions: Map<TxId, Transaction>, size: usize)
    ensures
        approvals_in_range(approvals_of(transactions, size), size),
        forall|from: TxId, to: TxId| #[trigger]
            approvals_of(transactions, size).contains_key((from, to)) ==> references(
                approvals_of(transactions, size),
                from,
                to,
            ) == (if transactions[from].left == transactions[from].right {
                2nat
            } else {
                1nat
            }),
{
}

/// A recorded transaction whose two parents are one and the same makes a
/// single approval, of that parent, and it is of two references.
pub proof fn lemma_equal_parents(transactions: Map<TxId, Transaction>, size: usize, id: TxId)
    requires
        recorded(transactions, size, id),
        transactions[id].left == transactions[id].right,
    ensures
        approvals_of(transactions, size).contains_key((id, transactions[id].left)),
        approvals_of(transactions, size)[(id, transactions[id].left)].references == 2,
        forall|to: TxId| #[trigger]
            approvals_of(transactions, size).contains_key((id, to)) ==> to
                == transactions[id].left,
{
}

/// The approvals that the transactions below `limit` make.
spec fn approvals_below(
    transactions: Map<TxId, Transaction>,
    size: usize,
    limit: int,
) -> Approvals {
    Map::new(
        |e: (TxId, TxId)| e.0 < limit && approvals_of(transactions, size).contains_key(e),
        |e: (TxId, TxId)| approvals_of(transactions, size)[e],
    )
}

/// `edges` holds each approval by a transaction below `limit` once, and nothing
/// else.
spec fn lists_below(approvals: Approvals, edges: Seq<Edge>, limit: int) -> bool {
    &&& forall|k: int|
        0 <= k < edges.len() ==> approvals.contains_key(
            ((#[trigger] edges[k]).0, edges[k].1),
        ) && approvals[(edges[k].0, edges[k].1)] == edges[k].2 && edges[k].0 < limit
    &&& forall|a: int, b: int|
        0 <= a < b < edges.len() ==> ((#[trigger] edges[a]).0, edges[a].1) != (
            (#[trigger] edges[b]).0,
            edges[b].1,
        )
    &&& forall|from: TxId, to: TxId|
        from < limit && #[trigger] approvals.contains_key((from, to)) ==> exists|k: int|
            0 <= k < edges.len() && (#[trigger] edges[k]).0 == from && edges[k].1 == to
}

/// One more reference to `to` in the row of a transaction.
fn add_reference(row: &mut HashMap<TxId, Element>, to: TxId)
    requires
        old(row)@.contains_key(to) ==> old(row)@[to].references < u32::MAX,
    ensures
        final(row)@ == old(row)@.insert(
            to,
            Element {
                references: if old(row)@.contains_key(to) {
                    (old(row)@[to].references + 1) as u32
                } else {
                    1
                },
            },
        ),
{
    let before: u32 = match row.get(&to) {
        Some(element) => element.references,
        None => 0,
    };
    row.insert(to, Element { references: before + 1 });
}

/// A graph of approvals over the transactions `1..=size`.
pub struct Graph {
    /// How many transactions the graph is about, the root among them.
    size: usize,
    /// For each transaction, at the place before its identifier, the
    /// transactions that it approves.
    adjacency_matrix: Vec<HashMap<TxId, Element>>,
    /// The depths, as they were last calculated.
    depths: Depths,
}

impl View for Graph {
    type V = Approvals;

    /// The approvals that the graph holds.
    closed spec fn view(&self) -> Approvals {
        Map::new(
            |e: (TxId, TxId)|
                1 <= e.0 <= self.adjacency_matrix@.len() && self.adjacency_matrix@[e.0
                    - 1]@.contains_key(e.1),
            |e: (TxId, TxId)| self.adjacency_matrix@[e.0 - 1]@[e.1],
        )
    }
}

impl Graph {
    /// How many transactions the graph is about.
    pub closed spec fn spec_size(&self) -> usize {
        self.size
    }

    /// The depths that the graph holds.
    pub closed spec fn spec_depths(&self) -> Map<TxId, Depth> {
        self.depths@
    }

    /// The graph is about one transaction at least, and its approvals are within
    /// its size.
    pub closed spec fn wf(&self) -> bool {
        &&& self.size >= 1
        &&& self.adjacency_matrix@.len() == self.size
        &&& approvals_in_range(self@, self.size)
    }

    /// What a well-formed graph is, in terms of its size and its approvals.
    pub proof fn lemma_wf(&self)
        requires
            self.wf(),
        ensures
            self.spec_size() >= 1,
            approvals_in_range(self@, self.spec_size()),
    {
    }

    /// Returns the number of transactions that the graph is about.
    #[verifier::when_used_as_spec(spec_size)]
    pub fn size(&self) -> (size: usize)
        ensures
            size == self.spec_size(),
    {
        self.size
    }

    /// Returns the depths as they were last calculated.
    pub fn depths(&self) -> (depths: &Depths)
        ensures
            depths@ == self.spec_depths(),
    {
        &self.depths
    }

    /// Checks if the provided index is valid.
    pub fn is_valid_index(&self, index: TxId) -> (valid: bool)
        ensures
            valid == valid_index(index, self.spec_size()),
    {
        index > 0 && index <= self.size()
    }

    /// Returns the element for `i` approving `j`, if it does.
    pub fn get(&self, i: TxId, j: TxId) -> (element: Option<&Element>)
        requires
            self.wf(),
        ensures
            match element {
                Some(e) => self@.contains_key((i, j)) && *e == self@[(i, j)],
                None => !self@.contains_key((i, j)),
            },
            !valid_index(i, self.spec_size()) || !valid_index(j, self.spec_size())
                ==> element is None,
    {
        if !self.is_valid_index(i) || !self.is_valid_index(j) {
            None
        } else {
            self.adjacency_matrix[i - 1].get(&j)
        }
    }

    /// Adds the references of the transaction `id` to its two parents. Where one
    /// of the three identifiers is not valid, the graph stays as it is.
    pub fn add_ref(&mut self, id: TxId, left: TxId, right: TxId)
        requires
            old(self).wf(),
            valid_index(id, old(self).spec_size()) && valid_index(left, old(self).spec_size())
                && valid_index(right, old(self).spec_size()) ==> references_fit(
                old(self)@,
                id,
                left,
                right,
            ),
        ensures
            final(self).wf(),
            final(self).spec_size() == old(self).spec_size(),
            final(self).spec_depths() == old(self).spec_depths(),
            final(self)@ == with_transaction(old(self)@, old(self).spec_size(), id, left, right),
    {
        if !self.is_valid_index(id) || !self.is_valid_index(left) || !self.is_valid_index(right) {
            return ;
        }
        add_reference(&mut self.adjacency_matrix[id - 1], left);
        assert(self@ =~= with_reference(old(self)@, id, left));
        let ghost once = self@;
        add_reference(&mut self.adjacency_matrix[id - 1], right);
        assert(self@ =~= with_reference(once, id, right));
    }

    /// Returns the approvals of the graph, each once, in no order that a caller
    /// may rely on.
    pub fn edges(&self) -> (edges: Vec<Edge>)
        requires
            self.wf(),
        ensures
            lists(self@, edges@),
    {
        let mut edges: Vec<Edge> = Vec::new();
        let mut at: usize = 0;
        while at < self.size
            invariant
                self.wf(),
                at <= self.size,
                lists_below(self@, edges@, at + 1),
            decreases self.size - at,
        {
            let from: TxId = at + 1;
            let ghost earlier = edges@;
            let row = &self.adjacency_matrix[at];
            for pair in it: row.iter()
                invariant
                    self.wf(),
                    from == at + 1,
                    at < self.size,
                    row == &self.adjacency_matrix@[at as int],
                    it.seq() == row.iter().remaining(),
                    it.seq().no_duplicates(),
                    edges@.len() == earlier.len() + it.index(),
                    forall|k: int| 0 <= k < earlier.len() ==> edges@[k] == earlier[k],
                    forall|k: int|
                        0 <= k < it.index() ==> (#[trigger] edges@[earlier.len() + k]) == (
                            from,
                            *it.seq()[k].0,
                            *it.seq()[k].1,
                        ),
            {
                edges.push((from, *pair.0, *pair.1));
            }
            proof {
                let all = row.iter().remaining();
                let listed = edges@;
                assert forall|k: int| 0 <= k < listed.len() implies self@.contains_key(
                    ((#[trigger] listed[k]).0, listed[k].1),
                ) && self@[(listed[k].0, listed[k].1)] == listed[k].2 && listed[k].0 < from + 1 by {
                    if k < earlier.len() {
                        assert(listed[k] == earlier[k]);
                    } else {
                        let n = k - earlier.len();
                        assert(listed[earlier.len() + n] == (from, *all[n].0, *all[n].1));
                        assert(row@.contains_key(*all[n].0));
                    }
                }
                assert forall|a: int, b: int| 0 <= a < b < listed.len() implies (
                    (#[trigger] listed[a]).0,
                    listed[a].1,
                ) != ((#[trigger] listed[b]).0, listed[b].1) by {
                    if b < earlier.len() {
                        assert(listed[a] == earlier[a]);
                        assert(listed[b] == earlier[b]);
                    } else if a < earlier.len() {
                        assert(listed[a] == earlier[a]);
                        let n = b - earlier.len();
                        assert(listed[earlier.len() + n] == (from, *all[n].0, *all[n].1));
                    } else {
                        let m = a - earlier.len();
                        let n = b - earlier.len();
                        assert(listed[earlier.len() + m] == (from, *all[m].0, *all[m].1));
                        assert(listed[earlier.len() + n] == (from, *all[n].0, *all[n].1));
                        assert(row@.contains_key(*all[m].0));
                        assert(row@.contains_key(*all[n].0));
                        assert(all[m] != all[n]);
                    }
                }
                assert forall|source: TxId, to: TxId|
                    source < from + 1 && #[trigger] self@.contains_key(
                        (source, to),
                    ) implies exists|k: int|
                    0 <= k < listed.len() && (#[trigger] listed[k]).0 == source
                        && listed[k].1 == to by {
                    if source < from {
                        let k = choose|k: int|
                            0 <= k < earlier.len() && (#[trigger] earlier[k]).0 == source
                                && earlier[k].1 == to;
                        assert(listed[k] == earlier[k]);
                    } else {
                        assert(row@.contains_key(to));
                        assert(all.contains((&to, &row@[to])));
                        let n = choose|n: int| 0 <= n < all.len() && all[n] == (&to, &row@[to]);
                        assert(listed[earlier.len() + n] == (from, *all[n].0, *all[n].1));
                    }
                }
            }
            at += 1;
        }
        proof {
            assert forall|from: TxId, to: TxId| #[trigger]
                self@.contains_key((from, to)) implies from < self.size + 1 by {}
        }
        edges
    }

    /// Calls the provided function for each approval of the graph: with the
    /// approving transaction, the approved one and the element between them. The
    /// approvals come in no order that a caller may rely on.
    pub fn for_each<F>(&self, mut f: F) where F: FnMut(&TxId, &TxId, &Element)
        requires
            self.wf(),
            forall|from: &TxId, to: &TxId, element: &Element|
                call_requires(f, (from, to, element)),
    {
        let edges = self.edges();
        let mut at: usize = 0;
        while at < edges.len()
            invariant
                forall|from: &TxId, to: &TxId, element: &Element|
                    call_requires(f, (from, to, element)),
            decreases edges.len() - at,
        {
            let edge = &edges[at];
            f(&edge.0, &edge.1, &edge.2);
            at += 1;
        }
    }

    /// A graph of `size` transactions in which nothing approves anything.
    fn unconnected(size: usize) -> (graph: Self)
        requires
            size >= 1,
        ensures
            graph.wf(),
            graph.spec_size() == size,
            graph@ == Map::<(TxId, TxId), Element>::empty(),
            graph.spec_depths() == Map::<TxId, Depth>::empty(),
    {
        let mut adjacency_matrix: Vec<HashMap<TxId, Element>> = Vec::new();
        let mut filled: usize = 0;
        while filled < size
            invariant
                filled <= size,
                adjacency_matrix@.len() == filled,
                forall|i: int| 0 <= i < filled ==> adjacency_matrix@[i]@ == Map::<
                    TxId,
                    Element,
                >::empty(),
            decreases size - filled,
        {
            adjacency_matrix.push(HashMap::new());
            filled += 1;
        }
        let graph = Self { size, adjacency_matrix, depths: HashMap::new() };
        assert(graph@ =~= Map::<(TxId, TxId), Element>::empty());
        graph
    }

    /// Builds the graph of `transactions` without its depths, which are left
    /// empty: a graph of one transaction more than there are, the root, with the
    /// approvals of those that are recorded in it.
    pub fn build(transactions: &Transactions) -> (graph: Self)
        requires
            transactions@.len() < usize::MAX,
        ensures
            graph.wf(),
            graph.spec_size() == transactions@.len() + 1,
            graph@ == approvals_of(transactions@, graph.spec_size()),
            graph.spec_depths() == Map::<TxId, Depth>::empty(),
    {
        let size: usize = transactions.len() + 1;
        let mut graph = Self::unconnected(size);
        let mut at: usize = 0;
        assert(graph@ =~= approvals_below(transactions@, size, 1));
        while at < size
            invariant
                at <= size,
                graph.wf(),
                graph.spec_size() == size,
                graph.spec_depths() == Map::<TxId, Depth>::empty(),
                graph@ == approvals_below(transactions@, size, at + 1),
            decreases size - at,
        {
            let id: TxId = at + 1;
            let ghost before = graph@;
            match transactions.get(&id) {
                Some(tx) => {
                    assert(!before.contains_key((id, tx.left)));
                    assert(!before.contains_key((id, tx.right)));
                    graph.add_ref(id, tx.left, tx.right);
                },
                None => {},
            }
            assert(graph@ =~= approvals_below(transactions@, size, id + 1));
            at += 1;
        }
        assert(graph@ =~= approvals_of(transactions@, size));
        graph
    }

    /// Calculates the depths, where every transaction reaches the root, and says
    /// whether it did. Where one does not, the depths stay as they were.
    pub fn try_calculate_depths(&mut self) -> (done: bool)
        requires
            old(self).wf(),
        ensures
            final(self).wf(),
            final(self).spec_size() == old(self).spec_size(),
            final(self)@ == old(self)@,
            done == rooted(old(self)@, old(self).spec_size()),
            done ==> depths_of(final(self)@, final(self).spec_size(), final(self).spec_depths()),
            !done ==> final(self).spec_depths() == old(self).spec_depths(),
    {
        let found = search(self);
        let size = self.size;
        let mut depths: Depths = HashMap::new();
        let mut at: usize = 0;
        while at < size
            invariant
                at <= size,
                size == self.size,
                *self == *old(self),
                self.wf(),
                found@.len() == size,
                searched(self@, found@),
                forall|node: TxId| depths@.contains_key(node) <==> 1 <= node <= at,
                forall|node: TxId|
                    1 <= node <= at ==> found@[node - 1] == Some(#[trigger] depths@[node]),
            decreases size - at,
        {
            match found[at] {
                Some(depth) => {
                    depths.insert(at + 1, depth);
                },
                None => {
                    proof {
                        let node: TxId = (at + 1) as TxId;
                        assert(found@[node - 1] is None);
                        assert(!reaches_root(self@, node));
                        assert(valid_index(node, size));
                    }
                    return false;
                },
            }
            at += 1;
        }
        proof {
            assert forall|node: TxId| valid_index(node, size) implies reaches_root(
                self@,
                node,
            ) by {
                assert(found@[node - 1] == Some(depths@[node]));
            }
        }
        self.depths = depths;
        true
    }

    /// Calculates the depths. The approvals must be already built, and every
    /// transaction must reach the root.
    pub fn calculate_depths(&mut self)
        requires
            old(self).wf(),
            rooted(old(self)@, old(self).spec_size()),
        ensures
            final(self).wf(),
            final(self).spec_size() == old(self).spec_size(),
            final(self)@ == old(self)@,
            depths_of(final(self)@, final(self).spec_size(), final(self).spec_depths()),
    {
        let done = self.try_calculate_depths();
        if !done {
            vstd::pervasive::unreached()
        }
    }

    /// Builds the graph of `transactions` and calculates its depths, where every
    /// transaction of the graph reaches the root.
    pub fn try_new(transactions: &Transactions) -> (built: Option<Self>)
        ensures
            built is Some <==> well_rooted(transactions@),
            built matches Some(graph) ==> {
                &&& graph.wf()
                &&& graph.spec_size() == transactions@.len() + 1
                &&& graph@ == approvals_of(transactions@, graph.spec_size())
                &&& depths_of(graph@, graph.spec_size(), graph.spec_depths())
            },
    {
        let len = transactions.len();
        if len == usize::MAX {
            return None;
        }
        let mut graph = Self::build(transactions);
        if graph.try_calculate_depths() {
            Some(graph)
        } else {
            None
        }
    }

    /// Builds the graph of `transactions` and calculates its depths. Every
    /// transaction of the graph must reach the root.
    pub fn new(transactions: &Transactions) -> (graph: Self)
        requires
            well_rooted(transactions@),
        ensures
            graph.wf(),
            graph.spec_size() == transactions@.len() + 1,
            graph@ == approvals_of(transactions@, graph.spec_size()),
            depths_of(graph@, graph.spec_size(), graph.spec_depths()),
    {
        Self::try_new(transactions).unwrap()
    }
}

} // verus!
