//! Counting the peers that a leader or a candidate has on its side.

use std::collections::HashMap;

use vstd::prelude::*;

use crate::message::NodeId;

verus! {

/// The nodes other than `own_id` whose index is at least `index`.
pub open spec fn at_least(
    indices: Map<NodeId, u64>,
    own_id: Option<NodeId>,
    index: int,
) -> Set<NodeId> {
    indices.dom().filter(|p: NodeId| own_id != Some(p) && indices[p] >= index)
}

/// `seen` holds those of the first `done` keys that are in `wanted`.
spec fn seen_so_far(keys: Seq<NodeId>, done: int, wanted: Set<NodeId>, seen: Set<NodeId>) -> bool {
    &&& seen.finite()
    &&& forall|p: NodeId| #[trigger]
        seen.contains(p) ==> wanted.contains(p) && exists|j: int|
            0 <= j < done && #[trigger] keys[j] == p
    &&& forall|j: int|
        0 <= j < done && wanted.contains(#[trigger] keys[j]) ==> seen.contains(keys[j])
}

/// Once all keys are done, all that is wanted has been seen.
proof fn seen_all(keys: Seq<NodeId>, wanted: Set<NodeId>, seen: Set<NodeId>)
    requires
        seen_so_far(keys, keys.len() as int, wanted, seen),
        wanted.subset_of(keys.to_set()),
    ensures
        seen == wanted,
{
    assert forall|p: NodeId| wanted.contains(p) implies seen.contains(p) by {
        assert(keys.to_set().contains(p));
        let j = choose|j: int| 0 <= j < keys.len() && keys[j] == p;
        assert(wanted.contains(keys[j]));
    }
    assert(seen =~= wanted);
}

/// How many nodes other than `own_id` have an index of at least `index`.
pub fn count_at_least(
    indices: &HashMap<NodeId, u64>,
    own_id: Option<NodeId>,
    index: u64,
) -> (count: usize)
    ensures
        count == at_least(indices@, own_id, index as int).len(),
{
    let total: usize = indices.len();
    let mut count: usize = 0;
    let ghost wanted = at_least(indices@, own_id, index as int);
    let ghost mut seen: Set<NodeId> = Set::empty();
    let ghost mut keys: Seq<NodeId> = Seq::empty();
    assert(total == 0 ==> Seq::<NodeId>::empty().to_set() =~= indices@.dom());
    for key in it: indices.keys()
        invariant
            it.seq().unref().to_set() == indices@.dom(),
            it.seq().no_duplicates(),
            it.seq().len() == indices@.dom().len(),
            total == indices@.dom().len(),
            keys.len() == total ==> keys.to_set() == indices@.dom(),
            wanted == at_least(indices@, own_id, index as int),
            keys =~= it.seq().unref().take(it.index()),
            seen_so_far(keys, keys.len() as int, wanted, seen),
            count == seen.len(),
            count <= keys.len(),
    {
        let value: u64 = match indices.get(key) {
            Some(v) => *v,
            None => 0,
        };
        let own: bool = match own_id {
            Some(id) => id == *key,
            None => false,
        };
        proof {
            assert(it.seq().unref()[it.index()] == *key);
            assert(it.seq().unref().to_set().contains(*key));
            assert(!seen.contains(*key)) by {
                assert forall|j: int| 0 <= j < keys.len() implies keys[j] != *key by {
                    assert(keys[j] == *it.seq()[j]);
                }
            }
            assert(keys.push(*key)[keys.len() as int] == *key);
        }
        if !own && value >= index {
            proof {
                seen = seen.insert(*key);
            }
            count += 1;
        }
        proof {
            let before = keys;
            keys = keys.push(*key);
            assert forall|j: int| 0 <= j < before.len() implies keys[j] == before[j] by {}
            if keys.len() == total {
                assert(keys =~= it.seq().unref());
            }
        }
    }
    proof {
        seen_all(keys, wanted, seen);
    }
    count
}

/// Only other nodes are counted, each once, and only those that are far enough: with
/// one node more that is, the count is one higher.
pub proof fn nodes_are_counted_once(
    few: &HashMap<NodeId, u64>,
    many: &HashMap<NodeId, u64>,
    node: NodeId,
    reached: u64,
    own_id: Option<NodeId>,
    index: u64,
    before: usize,
    after: usize,
)
    requires
        !few@.contains_key(node),
        few@.dom().finite(),
        many@ == few@.insert(node, reached),
        call_ensures(count_at_least, (few, own_id, index), before),
        call_ensures(count_at_least, (many, own_id, index), after),
    ensures
        own_id != Some(node) && reached >= index ==> after == before + 1,
        own_id == Some(node) || reached < index ==> after == before,
        few@.dom() =~= Set::empty() ==> before == 0,
{
    let a = at_least(few@, own_id, index as int);
    let b = at_least(many@, own_id, index as int);
    if own_id != Some(node) && reached >= index {
        assert(b =~= a.insert(node));
    } else {
        assert(b =~= a);
    }
    if few@.dom() =~= Set::empty() {
        assert(a =~= Set::empty());
    }
}

} // verus!
