//! The identifiers of a map in ascending order, for those who show a ledger.

use super::transaction::TxId;
use itertools::Itertools;
use std::collections::HashMap;
use vstd::prelude::*;
use vstd::std_specs::iter::IteratorSpec;

verus! {

/// The identifiers are in ascending order.
pub open spec fn ascending(ids: Seq<TxId>) -> bool {
    forall|a: int, b: int| 0 <= a <= b < ids.len() ==> ids[a] <= ids[b]
}

/// No identifier is followed by one that is not greater.
pub open spec fn strictly_ascending(ids: Seq<TxId>) -> bool {
    forall|a: int, b: int| 0 <= a < b < ids.len() ==> ids[a] < ids[b]
}

/// Sorts identifiers with `Itertools::sorted_by_key` of the crate `itertools`,
/// each identifier being its own key. It is believed, not proved, that the
/// outcome holds the identifiers that were given, each as often as it was
/// given, and that it holds them in ascending order.
#[verifier::external_body]
fn sort_ids(ids: Vec<TxId>) -> (sorted: Vec<TxId>)
    ensures
        sorted@.to_multiset() == ids@.to_multiset(),
        ascending(sorted@),
{
    ids.into_iter().sorted_by_key(|id| *id).collect()
}

/// Returns the identifiers of a map, each once, in ascending order.
pub fn sorted_ids<V>(map: &HashMap<TxId, V>) -> (ids: Vec<TxId>)
    ensures
        strictly_ascending(ids@),
        forall|id: TxId| map@.contains_key(id) <==> ids@.contains(id),
{
    let mut keys: Vec<TxId> = Vec::new();
    for key in it: map.keys()
        invariant
            it.seq() == map.keys().remaining(),
            keys@.len() == it.index(),
            forall|k: int| 0 <= k < keys@.len() ==> keys@[k] == *it.seq()[k],
    {
        keys.push(*key);
    }
    let ghost unsorted = keys@;
    proof {
        let all = map.keys().remaining();
        assert(unsorted =~= all.unref());
        assert(all.unref().to_set() == map@.dom());
        assert(unsorted.no_duplicates()) by {
            assert forall|a: int, b: int|
                0 <= a < unsorted.len() && 0 <= b < unsorted.len() && a != b implies unsorted[a]
                != unsorted[b] by {
                assert(all[a] != all[b]);
            }
        }
        unsorted.lemma_multiset_has_no_duplicates();
    }
    let ids = sort_ids(keys);
    proof {
        unsorted.to_multiset_ensures();
        ids@.to_multiset_ensures();
        ids@.lemma_multiset_has_no_duplicates_conv();
        assert forall|a: int, b: int| 0 <= a < b < ids@.len() implies ids@[a] < ids@[b] by {
            assert(ids@[a] != ids@[b]);
        }
        assert forall|id: TxId| map@.contains_key(id) <==> ids@.contains(id) by {
            assert(map@.dom().contains(id) == unsorted.to_set().contains(id));
            assert(unsorted.to_multiset().count(id) == ids@.to_multiset().count(id));
            assert(unsorted.contains(id) == ids@.contains(id));
        }
    }
    ids
}

} // verus!
