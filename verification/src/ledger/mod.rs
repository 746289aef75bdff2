//! The ledger: its database format, its graph of approvals and its statistics.

pub mod database;
pub mod depth;
pub mod error;
pub mod graph;
pub mod order;
pub mod references;
pub mod search;
pub mod statistics;
pub mod text;
pub mod transaction;

pub use self::database::read_txs_from_db;
pub use self::error::LedgerError;
pub use self::graph::{Depth, Depths, Element, Graph, Transactions};
pub use self::order::sorted_ids;
pub use self::statistics::Ratio;
pub use self::text::IntErrorKind;
pub use self::transaction::{FieldError, ParseTxError, Timestamp, Transaction, TxId};

use self::depth::{depths_of, lemma_depths_of_root, well_rooted};
use self::graph::{approvals_of, valid_index};
use self::references::{lemma_listed_references, listed_references, total_references};
use self::statistics::{below_root, deepest, depth_sum, lemma_flat, timestamps};
use std::collections::HashSet;
use vstd::prelude::*;
use vstd::std_specs::iter::IteratorSpec;

verus! {

/// A ledger: its transactions and the graph of their approvals.
pub struct Ledger {
    /// The transactions as they were given.
    transactions: Transactions,
    /// The graph of the transactions.
    graph: Graph,
}

impl View for Ledger {
    type V = Map<TxId, Transaction>;

    /// The transactions of the ledger, by their identifiers.
    closed spec fn view(&self) -> Map<TxId, Transaction> {
        self.transactions@
    }
}

impl Ledger {
    /// The graph of the ledger.
    pub closed spec fn spec_graph(&self) -> Graph {
        self.graph
    }

    /// The graph is that of the transactions, the root counted with them, and
    /// its depths are calculated.
    pub open spec fn wf(&self) -> bool {
        let graph = self.spec_graph();
        &&& graph.wf()
        &&& graph.spec_size() == self@.len() + 1
        &&& graph@ == approvals_of(self@, graph.spec_size())
        &&& depths_of(graph@, graph.spec_size(), graph.spec_depths())
    }

    /// Makes the ledger of `transactions`, where every transaction of their
    /// graph reaches the root.
    pub fn try_new(transactions: Transactions) -> (made: Option<Self>)
        ensures
            made is Some <==> well_rooted(transactions@),
            made matches Some(ledger) ==> ledger.wf() && ledger@ == transactions@,
    {
        match Graph::try_new(&transactions) {
            Some(graph) => Some(Self { transactions, graph }),
            None => None,
        }
    }

    /// Makes the ledger of `transactions`. Every transaction of their graph
    /// must reach the root.
    pub fn new(transactions: Transactions) -> (ledger: Self)
        requires
            well_rooted(transactions@),
        ensures
            ledger.wf(),
            ledger@ == transactions@,
    {
        let graph = Graph::new(&transactions);
        Self { transactions, graph }
    }

    /// Returns the transactions of the ledger.
    pub fn transactions(&self) -> (transactions: &Transactions)
        ensures
            transactions@ == self@,
    {
        &self.transactions
    }

    /// Returns the graph of the ledger.
    pub fn graph(&self) -> (graph: &Graph)
        ensures
            *graph == self.spec_graph(),
    {
        &self.graph
    }

    /// Returns the average depth of the transactions, the root among them: the
    /// sum of the depths by the size of the graph.
    pub fn avg_dag_depth(&self) -> (r: Ratio)
        requires
            self.wf(),
        ensures
            r.numerator == depth_sum(
                self.spec_graph().spec_depths(),
                self.spec_graph().spec_size() as nat,
            ),
            r.denominator == self.spec_graph().spec_size(),
            r.denominator > 0,
            self@.len() == 0 ==> r == Ratio::zero(),
    {
        let depths = self.graph.depths();
        let size = self.graph.size();
        let mut sum: u128 = 0;
        let mut at: usize = 0;
        proof {
            self.graph.lemma_wf();
        }
        while at < size
            invariant
                at <= size,
                depths_of(self.spec_graph()@, size, depths@),
                sum == depth_sum(depths@, at as nat),
                sum <= at * 0xffff_ffff_ffff_ffff,
            decreases size - at,
        {
            let id: TxId = at + 1;
            assert(valid_index(id, size));
            assert(depths@.contains_key(id));
            let depth = *depths.get(&id).unwrap();
            sum = sum + depth as u128;
            at += 1;
        }
        proof {
            if self@.len() == 0 {
                lemma_depths_of_root(self.spec_graph()@, size, depths@);
                assert(depth_sum(depths@, 0) == 0);
            }
        }
        Ratio { numerator: sum, denominator: size as u128 }
    }

    /// Returns the average number of transactions per depth, depth 0 not
    /// included: the number of transactions below the root by the greatest
    /// depth. Where nothing is below the root, it is 0.
    pub fn avg_txs_per_depth(&self) -> (r: Ratio)
        requires
            self.wf(),
        ensures
            r == (if deepest(
                self.spec_graph().spec_depths(),
                self.spec_graph().spec_size() as nat,
            ) == 0 {
                Ratio::zero()
            } else {
                Ratio {
                    numerator: below_root(
                        self.spec_graph().spec_depths(),
                        self.spec_graph().spec_size() as nat,
                    ) as u128,
                    denominator: deepest(
                        self.spec_graph().spec_depths(),
                        self.spec_graph().spec_size() as nat,
                    ) as u128,
                }
            }),
            r.numerator == below_root(
                self.spec_graph().spec_depths(),
                self.spec_graph().spec_size() as nat,
            ),
            r.denominator > 0,
            self@.len() == 0 ==> r == Ratio::zero(),
    {
        let depths = self.graph.depths();
        let size = self.graph.size();
        let mut max: Depth = 0;
        let mut below: usize = 0;
        let mut at: usize = 0;
        while at < size
            invariant
                at <= size,
                depths_of(self.spec_graph()@, size, depths@),
                max == deepest(depths@, at as nat),
                below == below_root(depths@, at as nat),
                below <= at,
            decreases size - at,
        {
            let id: TxId = at + 1;
            assert(valid_index(id, size));
            assert(depths@.contains_key(id));
            let depth = *depths.get(&id).unwrap();
            if depth > max {
                max = depth;
            }
            if depth != 0 {
                below += 1;
            }
            at += 1;
        }
        proof {
            if max == 0 {
                lemma_flat(depths@, size as nat);
            }
            if self@.len() == 0 {
                lemma_depths_of_root(self.spec_graph()@, size, depths@);
                assert(deepest(depths@, 0) == 0);
            }
        }
        if max == 0 {
            Ratio { numerator: 0, denominator: 1 }
        } else {
            Ratio { numerator: below as u128, denominator: max as u128 }
        }
    }

    /// Returns the average number of references per transaction: the
    /// references of all approvals by the size of the graph.
    pub fn avg_ref(&self) -> (r: Ratio)
        requires
            self.wf(),
        ensures
            r.numerator == total_references(self.spec_graph()@, self.spec_graph().spec_size()),
            r.denominator == self.spec_graph().spec_size(),
            r.denominator > 0,
            self@.len() == 0 ==> r == Ratio::zero(),
    {
        let edges = self.graph.edges();
        let size = self.graph.size();
        let mut sum: u128 = 0;
        let mut at: usize = 0;
        proof {
            self.graph.lemma_wf();
            assert(edges@.take(0) =~= Seq::empty());
        }
        while at < edges.len()
            invariant
                at <= edges@.len(),
                sum == listed_references(edges@.take(at as int)),
                sum <= at * 0xffff_ffff,
            decreases edges@.len() - at,
        {
            proof {
                assert(edges@.take(at + 1).drop_last() =~= edges@.take(at as int));
            }
            sum = sum + edges[at].2.references as u128;
            at += 1;
        }
        proof {
            assert(edges@.take(at as int) =~= edges@);
            lemma_listed_references(self.spec_graph()@, size, edges@);
            if self@.len() == 0 {
                if edges@.len() > 0 {
                    assert(self.spec_graph()@.contains_key((edges@[0].0, edges@[0].1)));
                }
                assert(listed_references(edges@) == 0);
            }
        }
        Ratio { numerator: sum, denominator: size as u128 }
    }

    /// Returns the average number of transactions per timestamp, the root not
    /// included: the number of transactions by the number of timestamps that
    /// occur among them. Where there is no transaction, it is 0.
    pub fn avg_txs_per_ts(&self) -> (r: Ratio)
        requires
            self.wf(),
        ensures
            r == (if self@.len() == 0 {
                Ratio::zero()
            } else {
                Ratio {
                    numerator: self@.len() as u128,
                    denominator: timestamps(self@).len() as u128,
                }
            }),
            r.denominator > 0,
            self@.len() == 0 ==> r == Ratio::zero(),
    {
        if self.transactions.len() == 0 {
            return Ratio { numerator: 0, denominator: 1 };
        }
        let mut seen: HashSet<Timestamp> = HashSet::new();
        for transaction in it: self.transactions.values()
            invariant
                it.seq() == self.transactions.values().remaining(),
                seen@.finite(),
                forall|timestamp: Timestamp|
                    seen@.contains(timestamp) <==> exists|k: int|
                        0 <= k < it.index() && (#[trigger] it.seq()[k]).timestamp == timestamp,
        {
            seen.insert(transaction.timestamp);
        }
        proof {
            let all = self.transactions.values().remaining();
            assert(all.unref().to_set() == self@.values());
            assert forall|timestamp: Timestamp| seen@.contains(timestamp) <==> timestamps(
                self@,
            ).contains(timestamp) by {
                if seen@.contains(timestamp) {
                    let k = choose|k: int|
                        0 <= k < all.len() && (#[trigger] all[k]).timestamp == timestamp;
                    assert(all.unref()[k] == *all[k]);
                    assert(all.unref().to_set().contains(all.unref()[k]));
                    assert(self@.values().contains(*all[k]));
                }
                if timestamps(self@).contains(timestamp) {
                    let id = choose|id: TxId| #[trigger]
                        self@.contains_key(id) && self@[id].timestamp == timestamp;
                    assert(self@.values().contains(self@[id]));
                    assert(all.unref().to_set().contains(self@[id]));
                    let k = choose|k: int|
                        0 <= k < all.unref().len() && all.unref()[k] == self@[id];
                    assert(all[k].timestamp == timestamp);
                }
            }
            assert(seen@ =~= timestamps(self@));
            assert(self@.len() > 0);
            assert(self@.dom().len() > 0);
            let id = self@.dom().choose();
            assert(self@.contains_key(id));
            assert(timestamps(self@).contains(self@[id].timestamp));
            assert(seen@.len() > 0);
        }
        Ratio { numerator: self.transactions.len() as u128, denominator: seen.len() as u128 }
    }
}

} // verus!
