//! Where a traveller on the road graph may go next.

use crate::ordering::{is_stable_order, precedes, sort_indices};
use std::collections::HashSet;
use vstd::prelude::*;

verus! {

broadcast use vstd::std_specs::hash::group_hash_axioms;

/// The waypoints that a traveller may move on to: the neighbours but for
/// the one that the traveller came from, or, where that leaves none, all
/// neighbours.
pub open spec fn onward_set(neighbors: Set<usize>, last: Option<usize>) -> Set<usize> {
    match last {
        Some(came_from) => if neighbors.remove(came_from) =~= Set::<usize>::empty() {
            neighbors
        } else {
            neighbors.remove(came_from)
        },
        None => neighbors,
    }
}

/// Whether the list rises strictly.
pub open spec fn ascending(list: Seq<usize>) -> bool {
    forall|a: int, b: int| 0 <= a < b < list.len() ==> list[a] < list[b]
}

/// Lists the members of the set but for `skip`, in no particular order.
fn members_but(set: &HashSet<usize>, skip: Option<usize>) -> (members: Vec<usize>)
    ensures
        members@.no_duplicates(),
        forall|v: usize| members@.contains(v) <==> set@.contains(v) && skip != Some(v),
{
    let mut members: Vec<usize> = Vec::new();
    for member in it: set.iter()
        invariant
            it.seq().unref().to_set() == set@,
            it.seq().unref().no_duplicates(),
            members@.no_duplicates(),
            forall|v: usize| members@.contains(v) ==> set@.contains(v) && skip != Some(v),
            forall|v: usize|
                members@.contains(v) ==> exists|j: int|
                    0 <= j < it.index() && *#[trigger] it.seq()[j] == v,
            forall|j: int|
                0 <= j < it.index() && skip != Some(*#[trigger] it.seq()[j]) ==> members@.contains(
                    *it.seq()[j],
                ),
    {
        let ghost before = members@;
        let ghost at = it.index();
        assert(it.seq().unref()[at] == *member);
        assert(it.seq().unref().to_set().contains(*member));
        let keep = match skip {
            Some(skipped) => skipped != *member,
            None => true,
        };
        if keep {
            proof {
                if before.contains(*member) {
                    let j = choose|j: int| 0 <= j < at && *#[trigger] it.seq()[j] == *member;
                    assert(it.seq().unref()[j] == it.seq().unref()[at]);
                }
            }
            members.push(*member);
            proof {
                assert(members@[before.len() as int] == *member);
                assert forall|v: usize| before.contains(v) implies members@.contains(v) by {
                    let k = choose|k: int| 0 <= k < before.len() && before[k] == v;
                    assert(members@[k] == v);
                }
                assert forall|v: usize| members@.contains(v) implies set@.contains(v) && skip
                    != Some(v) by {
                    let k = choose|k: int| 0 <= k < members@.len() && members@[k] == v;
                    if k < before.len() {
                        assert(before.contains(v));
                    }
                }
                assert forall|v: usize| members@.contains(v) implies exists|j: int|
                    0 <= j < at + 1 && *#[trigger] it.seq()[j] == v by {
                    let k = choose|k: int| 0 <= k < members@.len() && members@[k] == v;
                    if k < before.len() {
                        assert(before.contains(v));
                        let j = choose|j: int| 0 <= j < at && *#[trigger] it.seq()[j] == v;
                        assert(*it.seq()[j] == v);
                    } else {
                        assert(*it.seq()[at] == v);
                    }
                }
            }
        }
    }
    assert forall|v: usize| set@.contains(v) && skip != Some(v) implies members@.contains(v) by {}
    members
}

/// Puts a list without repetitions in ascending order.
fn in_ascending_order(values: Vec<usize>) -> (sorted: Vec<usize>)
    requires
        values@.no_duplicates(),
    ensures
        ascending(sorted@),
        sorted@.to_set() == values@.to_set(),
{
    let mut keys: Vec<u64> = Vec::new();
    let mut i: usize = 0;
    while i < values.len()
        invariant
            i <= values.len(),
            keys@.len() == i,
            forall|j: int| 0 <= j < i ==> keys@[j] == values@[j] as u64,
        decreases values.len() - i,
    {
        keys.push(values[i] as u64);
        i = i + 1;
    }
    let order = sort_indices(&keys);
    let mut sorted: Vec<usize> = Vec::new();
    let mut k: usize = 0;
    while k < order.len()
        invariant
            k <= order.len(),
            order@.len() == values@.len(),
            keys@.len() == values@.len(),
            is_stable_order(order@, keys@),
            sorted@.len() == k,
            forall|j: int| 0 <= j < k ==> sorted@[j] == values@[order@[j] as int],
        decreases order.len() - k,
    {
        sorted.push(values[order[k]]);
        k = k + 1;
    }
    proof {
        assert forall|a: int, b: int| 0 <= a < b < sorted@.len() implies sorted@[a] < sorted@[b] by {
            assert(precedes(keys@, order@[a], order@[b]));
            assert(order@[a] != order@[b]);
            assert(values@[order@[a] as int] != values@[order@[b] as int]);
        }
        assert forall|v: usize| sorted@.contains(v) <==> values@.contains(v) by {
            if sorted@.contains(v) {
                let j = choose|j: int| 0 <= j < sorted@.len() && sorted@[j] == v;
                assert(values@[order@[j] as int] == v);
            }
            if values@.contains(v) {
                let i = choose|i: int| 0 <= i < values@.len() && values@[i] == v;
                assert(order@.contains(i as usize));
                let j = choose|j: int| 0 <= j < order@.len() && order@[j] == i as usize;
                assert(sorted@[j] == v);
            }
        }
        assert(sorted@.to_set() =~= values@.to_set());
    }
    sorted
}

/// Lists, in ascending order, the waypoints that a traveller may move on
/// to from a waypoint with the given neighbours: all but the one that the
/// traveller came from; where that leaves none, all of them.
pub fn onward_options(neighbors: &HashSet<usize>, last: Option<usize>) -> (options: Vec<usize>)
    ensures
        ascending(options@),
        options@.to_set() == onward_set(neighbors@, last),
{
    let forward = members_but(neighbors, last);
    let chosen = if forward.len() == 0 {
        members_but(neighbors, None)
    } else {
        forward
    };
    proof {
        match last {
            Some(came_from) => {
                if forward@.len() == 0 {
                    assert forall|v: usize| !neighbors@.remove(came_from).contains(v) by {
                        if neighbors@.contains(v) && v != came_from {
                            assert(forward@.contains(v));
                        }
                    }
                    assert(neighbors@.remove(came_from) =~= Set::<usize>::empty());
                    assert(chosen@.to_set() =~= neighbors@);
                } else {
                    assert(forward@.contains(forward@[0]));
                    assert(neighbors@.remove(came_from).contains(forward@[0]));
                    assert(chosen@.to_set() =~= neighbors@.remove(came_from));
                }
            },
            None => {
                assert(chosen@.to_set() =~= neighbors@);
            },
        }
    }
    in_ascending_order(chosen)
}

} // verus!
