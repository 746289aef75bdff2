//! What the statistics of a ledger count, and the ratio in which each is given.

use super::graph::Depth;
use super::transaction::{Timestamp, Transaction, TxId};
use vstd::prelude::*;

verus! {

/// A statistic as the ratio of two counts. It stands for the quotient of the
/// numerator by the denominator, which is never 0.
#[derive(Debug, Clone, Copy, PartialEq, Eq, Structural)]
pub struct Ratio {
    /// What was counted.
    pub numerator: u128,
    /// By how many it is divided.
    pub denominator: u128,
}

impl Ratio {
    /// The ratio that stands for 0: none by one.
    pub open spec fn zero() -> Ratio {
        Ratio { numerator: 0, denominator: 1 }
    }
}

/// The sum of the depths of the transactions `1..=upto`.
pub open spec fn depth_sum(depths: Map<TxId, Depth>, upto: nat) -> nat
    decreases upto,
{
    if upto == 0 {
        0
    } else {
        depth_sum(depths, (upto - 1) as nat) + depths[upto as TxId] as nat
    }
}

/// The greatest depth among the transactions `1..=upto`; 0 where there is none.
pub open spec fn deepest(depths: Map<TxId, Depth>, upto: nat) -> nat
    decreases upto,
{
    if upto == 0 {
        0
    } else {
        let before = deepest(depths, (upto - 1) as nat);
        let here = depths[upto as TxId] as nat;
        if here > before {
            here
        } else {
            before
        }
    }
}

/// How many of the transactions `1..=upto` are below the root, that is at a
/// depth other than 0.
pub open spec fn below_root(depths: Map<TxId, Depth>, upto: nat) -> nat
    decreases upto,
{
    if upto == 0 {
        0
    } else {
        below_root(depths, (upto - 1) as nat) + if depths[upto as TxId] != 0 {
            1nat
        } else {
            0nat
        }
    }
}

/// The timestamps that occur among the transactions.
pub open spec fn timestamps(transactions: Map<TxId, Transaction>) -> Set<Timestamp> {
    Set::new(
        |timestamp: Timestamp|
            exists|id: TxId| #[trigger]
                transactions.contains_key(id) && transactions[id].timestamp == timestamp,
    )
}

/// The greatest depth is the depth of one of the transactions, and none of them
/// is deeper.
pub proof fn lemma_deepest(depths: Map<TxId, Depth>, upto: nat)
    requires
        upto <= usize::MAX,
    ensures
        forall|id: TxId| 1 <= id <= upto ==> #[trigger] depths[id] <= deepest(depths, upto),
        upto >= 1 ==> exists|id: TxId| 1 <= id <= upto && #[trigger] depths[id] == deepest(
            depths,
            upto,
        ),
    decreases upto,
{
    if upto >= 1 {
        lemma_deepest(depths, (upto - 1) as nat);
        let last = upto as TxId;
        if upto == 1 || depths[last] > deepest(depths, (upto - 1) as nat) {
            assert(upto == 1 ==> deepest(depths, 0) == 0);
            assert(depths[last] == deepest(depths, upto));
        } else {
            let id = choose|id: TxId|
                1 <= id <= upto - 1 && #[trigger] depths[id] == deepest(
                    depths,
                    (upto - 1) as nat,
                );
            assert(depths[id] == deepest(depths, upto));
        }
    }
}

/// Where nothing is deeper than the root, the depths sum up to 0 and nothing is
/// below the root.
pub proof fn lemma_flat(depths: Map<TxId, Depth>, upto: nat)
    requires
        upto <= usize::MAX,
        deepest(depths, upto) == 0,
    ensures
        depth_sum(depths, upto) == 0,
        below_root(depths, upto) == 0,
    decreases upto,
{
    if upto > 0 {
        lemma_flat(depths, (upto - 1) as nat);
    }
}

} // verus!
