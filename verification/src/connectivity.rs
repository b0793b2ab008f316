//! The repair pass: bridges the components of the settlements until the
//! road graph holds them in one piece.

use crate::components::{
    bridge_plan, components_in_order, covered, groups_connected, groups_cover, groups_known,
    inhabited, is_closest_pair, lemma_bridge_plan_len, lemma_closest_pair_unique,
    lemma_components_sound, lemma_connected_nodes_one_component, lemma_merge_sound, merge_front,
    no_farther, sound_worklist,
};
use crate::errors::InvariantViolation;
use crate::graph::{
    all_connected, closed, component, connected, lemma_component_closed,
    lemma_connected_transitive, touched,
};
use crate::metric::{sq_dist, squared_distance};
use crate::model::{
    endpoints_of, roads_resolve, settlements_resolve, Road, RoadView, Settlement, Waypoint,
};
use crate::ordering::{
    is_stable_order, lemma_stable_order_exists, precedes, sort_indices, stable_order,
};
use crate::text::{connector_name, make_connector_name};
use crate::traversal::{
    build_road_graph, dfs, lemma_reach_is_component, link_both, neighbor_sets, no_idle_keys,
    represents,
};
use std::collections::HashMap;
use std::collections::HashSet;
use vstd::prelude::*;

verus! {

broadcast use vstd::std_specs::hash::group_hash_axioms;

/// The keys by which settlements are ordered for the repair: their ids.
pub open spec fn id_keys(settlements: Seq<Settlement>) -> Seq<u64> {
    Seq::new(settlements.len(), |i: int| settlements[i].id as u64)
}

/// The waypoints of the settlements, in ascending order of settlement id;
/// settlements with one id keep the order of the list.
pub open spec fn settlement_nodes(settlements: Seq<Settlement>) -> Seq<usize> {
    let order = stable_order(id_keys(settlements));
    Seq::new(settlements.len(), |k: int| settlements[order[k] as int].waypoint_id)
}

/// The largest id among the roads; 0 where there is no road.
pub open spec fn max_road_id(roads: Seq<Road>) -> nat
    decreases roads.len(),
{
    if roads.len() == 0 {
        0
    } else {
        let rest = max_road_id(roads.drop_last());
        if roads.last().id > rest {
            roads.last().id as nat
        } else {
            rest
        }
    }
}

/// No road has an id above the largest.
pub proof fn lemma_max_road_id_bounds(roads: Seq<Road>, i: int)
    requires
        0 <= i < roads.len(),
    ensures
        roads[i].id <= max_road_id(roads),
    decreases roads.len(),
{
    if i < roads.len() - 1 {
        lemma_max_road_id_bounds(roads.drop_last(), i);
    }
}

/// The pairs of waypoints that the repair bridges, in order.
pub open spec fn repair_plan(
    settlements: Seq<Settlement>,
    waypoints: Map<usize, Waypoint>,
    roads: Seq<Road>,
) -> Seq<(usize, usize)> {
    bridge_plan(
        components_in_order(endpoints_of(roads), settlement_nodes(settlements)),
        waypoints,
    )
}

/// Why the repair refuses its input, if it does. The first failing test
/// decides: the settlements' waypoints, the roads' ends, then the supply
/// of road ids.
pub open spec fn repair_error(
    settlements: Seq<Settlement>,
    waypoints: Map<usize, Waypoint>,
    roads: Seq<Road>,
) -> Option<InvariantViolation> {
    if !settlements_resolve(settlements, waypoints) {
        Some(InvariantViolation::MissingSettlementWaypoint)
    } else if !roads_resolve(roads, waypoints) {
        Some(InvariantViolation::MissingRoadEndpoint)
    } else if max_road_id(roads) + repair_plan(settlements, waypoints, roads).len() > usize::MAX {
        Some(InvariantViolation::RoadIdExhausted)
    } else {
        None
    }
}

/// The road that bridges `pair` under the given id.
pub open spec fn bridge_road(id: int, pair: (usize, usize)) -> RoadView {
    RoadView { id: id as usize, name: Some(connector_name(pair.0, pair.1)), endpoints: pair }
}

/// Whether `after` is `before` with the bridging roads appended: one
/// road for each pair of the plan, in order, with ids that count up from
/// the largest id of `before`.
pub open spec fn repaired(
    settlements: Seq<Settlement>,
    waypoints: Map<usize, Waypoint>,
    before: Seq<Road>,
    after: Seq<Road>,
) -> bool {
    let plan = repair_plan(settlements, waypoints, before);
    &&& after.len() == before.len() + plan.len()
    &&& forall|i: int| 0 <= i < before.len() ==> #[trigger] after[i] == before[i]
    &&& forall|k: int|
        0 <= k < plan.len() ==> (#[trigger] after[before.len() + k])@ == bridge_road(
            max_road_id(before) + 1 + k,
            plan[k],
        )
}

/// Whether the road joins two different waypoints.
pub open spec fn is_no_loop(road: Road) -> bool {
    road.endpoints.0 != road.endpoints.1
}

/// The sets that a list of clusters holds.
pub open spec fn cluster_sets(clusters: Seq<HashSet<usize>>) -> Seq<Set<usize>> {
    Seq::new(clusters.len(), |i: int| clusters[i]@)
}

fn all_settlements_resolve(
    settlements: &Vec<Settlement>,
    waypoints: &HashMap<usize, Waypoint>,
) -> (ok: bool)
    ensures
        ok == settlements_resolve(settlements@, waypoints@),
{
    let mut i: usize = 0;
    while i < settlements.len()
        invariant
            i <= settlements.len(),
            forall|j: int|
                0 <= j < i ==> waypoints@.contains_key((#[trigger] settlements@[j]).waypoint_id),
        decreases settlements.len() - i,
    {
        if !waypoints.contains_key(&settlements[i].waypoint_id) {
            return false;
        }
        i = i + 1;
    }
    true
}

fn all_roads_resolve(roads: &Vec<Road>, waypoints: &HashMap<usize, Waypoint>) -> (ok: bool)
    ensures
        ok == roads_resolve(roads@, waypoints@),
{
    let mut i: usize = 0;
    while i < roads.len()
        invariant
            i <= roads.len(),
            forall|j: int|
                0 <= j < i ==> waypoints@.contains_key((#[trigger] roads@[j]).endpoints.0)
                    && waypoints@.contains_key(roads@[j].endpoints.1),
        decreases roads.len() - i,
    {
        if !waypoints.contains_key(&roads[i].endpoints.0) || !waypoints.contains_key(
            &roads[i].endpoints.1,
        ) {
            return false;
        }
        i = i + 1;
    }
    true
}

fn largest_road_id(roads: &Vec<Road>) -> (largest: usize)
    ensures
        largest == max_road_id(roads@),
{
    let mut largest: usize = 0;
    let mut i: usize = 0;
    while i < roads.len()
        invariant
            i <= roads.len(),
            largest == max_road_id(roads@.take(i as int)),
        decreases roads.len() - i,
    {
        assert(roads@.take(i + 1).drop_last() =~= roads@.take(i as int));
        if roads[i].id > largest {
            largest = roads[i].id;
        }
        i = i + 1;
    }
    assert(roads@.take(i as int) =~= roads@);
    largest
}

fn ordered_settlement_nodes(settlements: &Vec<Settlement>) -> (nodes: Vec<usize>)
    ensures
        nodes@ == settlement_nodes(settlements@),
{
    let mut keys: Vec<u64> = Vec::new();
    let mut i: usize = 0;
    while i < settlements.len()
        invariant
            i <= settlements.len(),
            keys@.len() == i,
            forall|j: int| 0 <= j < i ==> keys@[j] == settlements@[j].id as u64,
        decreases settlements.len() - i,
    {
        keys.push(settlements[i].id as u64);
        i = i + 1;
    }
    assert(keys@ =~= id_keys(settlements@));
    let order = sort_indices(&keys);
    let mut nodes: Vec<usize> = Vec::new();
    let mut k: usize = 0;
    while k < order.len()
        invariant
            k <= order.len(),
            order@.len() == settlements@.len(),
            is_stable_order(order@, keys@),
            keys@.len() == settlements@.len(),
            nodes@.len() == k,
            forall|j: int| 0 <= j < k ==> nodes@[j] == settlements@[order@[j] as int].waypoint_id,
        decreases order.len() - k,
    {
        nodes.push(settlements[order[k]].waypoint_id);
        k = k + 1;
    }
    assert(nodes@ =~= settlement_nodes(settlements@));
    nodes
}

/// Adds to `target` every member of `source`.
fn absorb(target: &mut HashSet<usize>, source: &HashSet<usize>)
    ensures
        final(target)@ == old(target)@.union(source@),
{
    let ghost before = target@;
    for member in it: source.iter()
        invariant
            it.seq().unref().to_set() == source@,
            forall|j: int| 0 <= j < it.index() ==> target@.contains(*#[trigger] it.seq()[j]),
            forall|v: usize| target@.contains(v) ==> before.contains(v) || source@.contains(v),
            forall|v: usize| before.contains(v) ==> target@.contains(v),
    {
        assert(it.seq().unref()[it.index()] == *member);
        assert(it.seq().unref().to_set().contains(*member));
        target.insert(*member);
    }
    assert(target@ =~= before.union(source@));
}

/// Finds the component of each listed vertex, each component once, in
/// the order in which the list first meets them.
fn find_clusters(
    nodes: &Vec<usize>,
    adjacency: &HashMap<usize, HashSet<usize>>,
    Ghost(edges): Ghost<Seq<(usize, usize)>>,
) -> (clusters: Vec<HashSet<usize>>)
    requires
        represents(neighbor_sets(adjacency@), edges),
    ensures
        cluster_sets(clusters@) == components_in_order(edges, nodes@),
{
    let mut visited: HashSet<usize> = HashSet::new();
    let mut clusters: Vec<HashSet<usize>> = Vec::new();
    let mut k: usize = 0;
    assert(nodes@.take(0) =~= Seq::<usize>::empty());
    assert(cluster_sets(clusters@) =~= Seq::<Set<usize>>::empty());
    while k < nodes.len()
        invariant
            k <= nodes.len(),
            represents(neighbor_sets(adjacency@), edges),
            cluster_sets(clusters@) == components_in_order(edges, nodes@.take(k as int)),
            forall|v: usize| visited@.contains(v) <==> covered(cluster_sets(clusters@), v),
            closed(edges, visited@),
        decreases nodes.len() - k,
    {
        let start = nodes[k];
        let ghost sets_before = cluster_sets(clusters@);
        let ghost visited_before = visited@;
        proof {
            assert(nodes@.take(k + 1).drop_last() =~= nodes@.take(k as int));
            assert(nodes@.take(k + 1).last() == start);
        }
        if !visited.contains(&start) {
            let mut cluster: HashSet<usize> = HashSet::new();
            dfs(start, adjacency, &mut visited, &mut cluster);
            proof {
                lemma_reach_is_component(neighbor_sets(adjacency@), edges, visited_before, start);
                lemma_component_closed(edges, start);
                assert(cluster@ =~= component(edges, start));
                assert(visited@ =~= visited_before.union(component(edges, start)));
            }
            clusters.push(cluster);
            proof {
                let fresh = component(edges, start);
                assert(cluster_sets(clusters@) =~= sets_before.push(fresh));
                assert(cluster_sets(clusters@)[sets_before.len() as int] == fresh);
                assert forall|v: usize| visited@.contains(v) <==> covered(
                    cluster_sets(clusters@),
                    v,
                ) by {
                    if visited_before.contains(v) {
                        let j = choose|j: int|
                            0 <= j < sets_before.len() && (#[trigger] sets_before[j]).contains(v);
                        assert(cluster_sets(clusters@)[j].contains(v));
                    }
                    if fresh.contains(v) {
                        assert(cluster_sets(clusters@)[sets_before.len() as int].contains(v));
                    }
                    if covered(cluster_sets(clusters@), v) {
                        let j = choose|j: int|
                            0 <= j < cluster_sets(clusters@).len() && (#[trigger] cluster_sets(
                                clusters@,
                            )[j]).contains(v);
                        if j < sets_before.len() {
                            assert(sets_before[j].contains(v));
                        }
                    }
                }
                assert(closed(edges, visited@)) by {
                    assert forall|x: usize, y: usize|
                        visited@.contains(x) && #[trigger] connected(edges, x, y) implies visited@.contains(
                        y,
                    ) by {
                        if fresh.contains(x) {
                            lemma_connected_transitive(edges, start, x, y);
                        }
                    }
                }
            }
        }
        k = k + 1;
    }
    assert(nodes@.take(k as int) =~= nodes@);
    clusters
}

/// Finds the closest pair between two clusters.
fn nearest_between(
    a: &HashSet<usize>,
    b: &HashSet<usize>,
    waypoints: &HashMap<usize, Waypoint>,
) -> (pair: (usize, usize))
    requires
        inhabited(a@),
        inhabited(b@),
        forall|v: usize| a@.contains(v) ==> waypoints@.contains_key(v),
        forall|v: usize| b@.contains(v) ==> waypoints@.contains_key(v),
    ensures
        is_closest_pair(a@, b@, waypoints@, pair),
{
    let mut found: bool = false;
    let mut best_d: u128 = 0;
    let mut best_x: usize = 0;
    let mut best_y: usize = 0;
    for x in ia: a.iter()
        invariant
            ia.seq().unref().to_set() == a@,
            inhabited(b@),
            forall|v: usize| a@.contains(v) ==> waypoints@.contains_key(v),
            forall|v: usize| b@.contains(v) ==> waypoints@.contains_key(v),
            !found ==> ia.index() == 0,
            found ==> a@.contains(best_x) && b@.contains(best_y) && best_d == sq_dist(
                waypoints@[best_x].position,
                waypoints@[best_y].position,
            ),
            forall|j: int, y: usize|
                #![trigger ia.seq()[j], b@.contains(y)]
                0 <= j < ia.index() && b@.contains(y) ==> found && no_farther(
                    waypoints@,
                    (best_x, best_y),
                    (*ia.seq()[j], y),
                ),
    {
        assert(ia.seq().unref()[ia.index()] == *x);
        assert(ia.seq().unref().to_set().contains(*x));
        let from = *x;
        let origin = waypoints.get(&from).unwrap().position;
        let ghost found_before = found;
        for y in ib: b.iter()
            invariant
                ib.seq().unref().to_set() == b@,
                a@.contains(from),
                waypoints@.contains_key(from),
                origin == waypoints@[from].position,
                forall|v: usize| b@.contains(v) ==> waypoints@.contains_key(v),
                !found ==> ib.index() == 0 && !found_before,
                found ==> a@.contains(best_x) && b@.contains(best_y) && best_d == sq_dist(
                    waypoints@[best_x].position,
                    waypoints@[best_y].position,
                ),
                forall|j: int, z: usize|
                    #![trigger ia.seq()[j], b@.contains(z)]
                    0 <= j < ia.index() && b@.contains(z) ==> found && no_farther(
                        waypoints@,
                        (best_x, best_y),
                        (*ia.seq()[j], z),
                    ),
                forall|k: int|
                    0 <= k < ib.index() ==> found && no_farther(
                        waypoints@,
                        (best_x, best_y),
                        (from, *#[trigger] ib.seq()[k]),
                    ),
        {
            assert(ib.seq().unref()[ib.index()] == *y);
            assert(ib.seq().unref().to_set().contains(*y));
            let to = *y;
            let target = waypoints.get(&to).unwrap().position;
            let d = squared_distance(origin, target);
            let better = !found || d < best_d || (d == best_d && (from < best_x || (from == best_x
                && to < best_y)));
            if better {
                found = true;
                best_d = d;
                best_x = from;
                best_y = to;
            }
        }
        assert forall|z: usize| b@.contains(z) implies found && no_farther(
            waypoints@,
            (best_x, best_y),
            (from, z),
        ) by {}
    }
    assert forall|p: usize, q: usize| a@.contains(p) && b@.contains(q) implies #[trigger] no_farther(
        waypoints@,
        (best_x, best_y),
        (p, q),
    ) by {}
    (best_x, best_y)
}

/// Appends to `existing_roads` the roads that join the components of
/// the settlements into one.
///
/// The components are taken in the order in which the settlements, by
/// ascending id, first meet them. As long as two are left, the first two
/// are bridged by a road between their closest pair of waypoints and
/// merged; the merged component goes to the end of the list. No road is
/// removed or changed.
///
/// Afterwards every settlement's waypoint is connected to every other's.
/// Where the input is refused, the roads stay as they were.
pub fn ensure_connected_network(
    settlements: &Vec<Settlement>,
    waypoints: &HashMap<usize, Waypoint>,
    existing_roads: &mut Vec<Road>,
) -> (result: Result<(), InvariantViolation>)
    ensures
        match result {
            Ok(()) => {
                &&& repair_error(settlements@, waypoints@, old(existing_roads)@) is None
                &&& repaired(settlements@, waypoints@, old(existing_roads)@, final(existing_roads)@)
                &&& forall|i: int, j: int|
                    0 <= i < settlements@.len() && 0 <= j < settlements@.len() ==> connected(
                        endpoints_of(final(existing_roads)@),
                        (#[trigger] settlements@[i]).waypoint_id,
                        (#[trigger] settlements@[j]).waypoint_id,
                    )
                &&& forall|k: int|
                    old(existing_roads)@.len() <= k < final(existing_roads)@.len() ==> is_no_loop(
                        #[trigger] final(existing_roads)@[k],
                    )
                &&& roads_resolve(final(existing_roads)@, waypoints@)
            },
            Err(e) => {
                &&& repair_error(settlements@, waypoints@, old(existing_roads)@) == Some(e)
                &&& final(existing_roads)@ == old(existing_roads)@
            },
        },
{
    if !all_settlements_resolve(settlements, waypoints) {
        return Err(InvariantViolation::MissingSettlementWaypoint);
    }
    if !all_roads_resolve(existing_roads, waypoints) {
        return Err(InvariantViolation::MissingRoadEndpoint);
    }
    let ghost before = existing_roads@;
    let ghost edges = endpoints_of(before);
    let ghost known = waypoints@.dom();
    let nodes = ordered_settlement_nodes(settlements);
    let mut adjacency = build_road_graph(existing_roads);
    let mut clusters = find_clusters(&nodes, &adjacency, Ghost(edges));
    let ghost worklist = cluster_sets(clusters@);
    let ghost plan = bridge_plan(worklist, waypoints@);
    let largest = largest_road_id(existing_roads);
    let needed: usize = if clusters.len() == 0 {
        0
    } else {
        clusters.len() - 1
    };
    proof {
        lemma_bridge_plan_len(worklist, waypoints@);
        assert(plan == repair_plan(settlements@, waypoints@, before));
        assert(plan.len() == needed);
    }
    if largest > usize::MAX - needed {
        return Err(InvariantViolation::RoadIdExhausted);
    }
    proof {
        lemma_nodes_known(settlements@, waypoints@);
        assert forall|v: usize| touched(edges, v) implies known.contains(v) by {
            let i = choose|i: int|
                0 <= i < edges.len() && (#[trigger] edges[i].0 == v || edges[i].1 == v);
            assert(edges[i] == before[i].endpoints);
        }
        lemma_components_sound(edges, nodes@, known);
        assert(existing_roads@.skip(before.len() as int) =~= Seq::<Road>::empty());
        assert(endpoints_of(Seq::<Road>::empty()) =~= Seq::<(usize, usize)>::empty());
    }
    let mut emitted: usize = 0;
    while clusters.len() > 1
        invariant
            known == waypoints@.dom(),
            existing_roads@.len() == before.len() + emitted,
            forall|i: int| 0 <= i < before.len() ==> #[trigger] existing_roads@[i] == before[i],
            sound_worklist(cluster_sets(clusters@), endpoints_of(existing_roads@), nodes@, known),
            represents(neighbor_sets(adjacency@), endpoints_of(existing_roads@)),
            no_idle_keys(neighbor_sets(adjacency@)),
            plan == endpoints_of(existing_roads@.skip(before.len() as int)) + bridge_plan(
                cluster_sets(clusters@),
                waypoints@,
            ),
            forall|k: int|
                0 <= k < emitted ==> (#[trigger] existing_roads@[before.len() + k])@ == bridge_road(
                    largest + 1 + k,
                    plan[k],
                ),
            forall|k: int|
                before.len() <= k < existing_roads@.len() ==> is_no_loop(
                    #[trigger] existing_roads@[k],
                ),
            roads_resolve(existing_roads@, waypoints@),
            emitted + clusters.len() <= needed + 1,
            largest + needed <= usize::MAX,
        decreases clusters.len(),
    {
        let ghost groups = cluster_sets(clusters@);
        let ghost roads_then = existing_roads@;
        let ghost edges_then = endpoints_of(roads_then);
        let ghost clusters_then = clusters@;
        let mut first = clusters.remove(0);
        let second = clusters.remove(0);
        proof {
            assert(first@ == groups[0]);
            assert(second@ == groups[1]);
            assert(clusters@ =~= clusters_then.skip(2));
            assert(inhabited(groups[0]) && inhabited(groups[1]));
            assert(groups_known(groups, known));
            assert forall|v: usize| first@.contains(v) implies waypoints@.contains_key(v) by {
                assert(groups[0].contains(v));
            }
            assert forall|v: usize| second@.contains(v) implies waypoints@.contains_key(v) by {
                assert(groups[1].contains(v));
            }
        }
        let pair = nearest_between(&first, &second, waypoints);
        let road_id: usize = largest + 1 + emitted;
        let name = make_connector_name(pair.0, pair.1);
        existing_roads.push(Road { id: road_id, name: Some(name), endpoints: pair });
        absorb(&mut first, &second);
        clusters.push(first);
        link_both(&mut adjacency, pair.0, pair.1, Ghost(edges_then));
        proof {
            lemma_closest_pair_unique(groups[0], groups[1], waypoints@, pair);
            lemma_merge_sound(groups, edges_then, nodes@, known, pair);
            assert(cluster_sets(clusters@) =~= merge_front(groups)) by {
                assert(cluster_sets(clusters@).len() == merge_front(groups).len());
                assert forall|k: int| 0 <= k < cluster_sets(clusters@).len() implies cluster_sets(
                    clusters@,
                )[k] == merge_front(groups)[k] by {
                    if k < clusters_then.len() - 2 {
                        assert(clusters@[k] == clusters_then[k + 2]);
                    }
                }
            }
            assert(endpoints_of(existing_roads@) =~= edges_then.push(pair));
            let done = endpoints_of(roads_then.skip(before.len() as int));
            assert(endpoints_of(existing_roads@.skip(before.len() as int)) =~= done.push(pair));
            assert(bridge_plan(groups, waypoints@) == seq![pair] + bridge_plan(
                merge_front(groups),
                waypoints@,
            ));
            assert(done + (seq![pair] + bridge_plan(merge_front(groups), waypoints@)) =~= done.push(
                pair,
            ) + bridge_plan(merge_front(groups), waypoints@));
            assert(plan[emitted as int] == pair) by {
                assert(done.len() == emitted);
                assert((done.push(pair) + bridge_plan(merge_front(groups), waypoints@))[emitted as int]
                    == pair);
            }
            assert(existing_roads@[before.len() + emitted]@ == bridge_road(
                largest + 1 + emitted,
                pair,
            ));
            assert forall|i: int| 0 <= i < before.len() implies #[trigger] existing_roads@[i]
                == before[i] by {
                assert(existing_roads@[i] == roads_then[i]);
            }
            assert forall|k: int| 0 <= k < emitted + 1 implies (#[trigger] existing_roads@[before.len()
                + k])@ == bridge_road(largest + 1 + k, plan[k]) by {
                if k < emitted {
                    assert(existing_roads@[before.len() + k] == roads_then[before.len() + k]);
                }
            }
            assert forall|k: int| before.len() <= k < existing_roads@.len() implies is_no_loop(
                #[trigger] existing_roads@[k],
            ) by {
                if k < roads_then.len() {
                    assert(existing_roads@[k] == roads_then[k]);
                }
            }
            assert forall|k: int| 0 <= k < existing_roads@.len() implies waypoints@.contains_key(
                (#[trigger] existing_roads@[k]).endpoints.0,
            ) && waypoints@.contains_key(existing_roads@[k].endpoints.1) by {
                if k < roads_then.len() {
                    assert(existing_roads@[k] == roads_then[k]);
                } else {
                    assert(groups[0].contains(pair.0));
                    assert(groups[1].contains(pair.1));
                }
            }
        }
        emitted = emitted + 1;
    }
    proof {
        let groups = cluster_sets(clusters@);
        let roads_now = existing_roads@;
        let edges_now = endpoints_of(roads_now);
        assert(bridge_plan(groups, waypoints@) =~= Seq::<(usize, usize)>::empty());
        assert(plan =~= endpoints_of(roads_now.skip(before.len() as int)));
        assert(plan.len() == emitted);
        assert(groups_cover(groups, nodes@));
        assert(groups_connected(groups, edges_now));
        assert forall|i: int, j: int|
            0 <= i < settlements@.len() && 0 <= j < settlements@.len() implies connected(
            edges_now,
            (#[trigger] settlements@[i]).waypoint_id,
            (#[trigger] settlements@[j]).waypoint_id,
        ) by {
            lemma_nodes_list_settlements(settlements@, i);
            lemma_nodes_list_settlements(settlements@, j);
            let a = choose|a: int|
                0 <= a < nodes@.len() && nodes@[a] == settlements@[i].waypoint_id;
            let b = choose|b: int|
                0 <= b < nodes@.len() && nodes@[b] == settlements@[j].waypoint_id;
            assert(covered(groups, nodes@[a]));
            assert(covered(groups, nodes@[b]));
            assert(groups[0].contains(nodes@[a]));
            assert(groups[0].contains(nodes@[b]));
        }
    }
    Ok(())
}

/// The list of settlement nodes follows the settlements by rising id;
/// settlements with one id stand in the order of the list.
pub proof fn lemma_nodes_by_rising_id(settlements: Seq<Settlement>, a: int, b: int)
    requires
        settlements.len() <= usize::MAX,
        0 <= a < b < settlements.len(),
    ensures
        ({
            let order = stable_order(id_keys(settlements));
            &&& order[a] < settlements.len()
            &&& order[b] < settlements.len()
            &&& settlement_nodes(settlements)[a] == settlements[order[a] as int].waypoint_id
            &&& settlement_nodes(settlements)[b] == settlements[order[b] as int].waypoint_id
            &&& settlements[order[a] as int].id <= settlements[order[b] as int].id
            &&& settlements[order[a] as int].id == settlements[order[b] as int].id ==> order[a]
                < order[b]
        }),
{
    let keys = id_keys(settlements);
    lemma_stable_order_exists(keys);
    let order = stable_order(keys);
    assert(order[a] < settlements.len() && order[b] < settlements.len());
    assert(precedes(keys, order[a], order[b]));
}

/// Every settlement's waypoint is in the list of settlement nodes.
proof fn lemma_nodes_list_settlements(settlements: Seq<Settlement>, i: int)
    requires
        0 <= i < settlements.len() <= usize::MAX,
    ensures
        exists|a: int|
            0 <= a < settlement_nodes(settlements).len() && settlement_nodes(settlements)[a]
                == settlements[i].waypoint_id,
{
    lemma_stable_order_exists(id_keys(settlements));
    let order = stable_order(id_keys(settlements));
    assert(order.contains(i as usize));
    let a = choose|a: int| 0 <= a < order.len() && order[a] == i as usize;
    assert(settlement_nodes(settlements)[a] == settlements[i].waypoint_id);
}

/// Where the settlements resolve, every settlement node is in the table.
proof fn lemma_nodes_known(settlements: Seq<Settlement>, waypoints: Map<usize, Waypoint>)
    requires
        settlements.len() <= usize::MAX,
        settlements_resolve(settlements, waypoints),
    ensures
        forall|k: int|
            0 <= k < settlement_nodes(settlements).len() ==> waypoints.dom().contains(
                #[trigger] settlement_nodes(settlements)[k],
            ),
{
    lemma_stable_order_exists(id_keys(settlements));
    let order = stable_order(id_keys(settlements));
    assert forall|k: int| 0 <= k < settlement_nodes(settlements).len() implies waypoints.dom().contains(
        #[trigger] settlement_nodes(settlements)[k],
    ) by {
        assert(order[k] < settlements.len());
        assert(waypoints.contains_key(settlements[order[k] as int].waypoint_id));
    }
}

/// The largest id among the roads fits the machine's word.
pub proof fn lemma_max_road_id_fits(roads: Seq<Road>)
    ensures
        max_road_id(roads) <= usize::MAX,
    decreases roads.len(),
{
    if roads.len() > 0 {
        lemma_max_road_id_fits(roads.drop_last());
    }
}

/// Whether no two roads carry one id.
pub open spec fn unique_ids(roads: Seq<Road>) -> bool {
    forall|i: int, j: int|
        0 <= i < roads.len() && 0 <= j < roads.len() && i != j ==> (#[trigger] roads[i]).id != (
        #[trigger] roads[j]).id
}

/// The ids of the roads that a repair adds lie above the ids of all
/// roads that were there, and rise. Roads with unique ids keep unique ids
/// through the repair.
pub proof fn lemma_repair_ids_rise(
    settlements: Seq<Settlement>,
    waypoints: Map<usize, Waypoint>,
    before: Seq<Road>,
    after: Seq<Road>,
)
    requires
        repair_error(settlements, waypoints, before) is None,
        repaired(settlements, waypoints, before, after),
    ensures
        forall|i: int, j: int|
            0 <= i < before.len() <= j < after.len() ==> (#[trigger] after[i]).id < (
            #[trigger] after[j]).id,
        forall|i: int, j: int|
            before.len() <= i < j < after.len() ==> (#[trigger] after[i]).id < (
            #[trigger] after[j]).id,
        unique_ids(before) ==> unique_ids(after),
{
    let plan = repair_plan(settlements, waypoints, before);
    let top = max_road_id(before);
    assert forall|k: int| 0 <= k < plan.len() implies (#[trigger] after[before.len() + k]).id == top
        + 1 + k by {
        assert(after[before.len() + k]@ == bridge_road(top + 1 + k, plan[k]));
    }
    assert forall|i: int| 0 <= i < before.len() implies (#[trigger] after[i]).id <= top by {
        assert(after[i] == before[i]);
        lemma_max_road_id_bounds(before, i);
    }
    assert forall|j: int| before.len() <= j < after.len() implies (#[trigger] after[j]).id == top
        + 1 + (j - before.len()) by {
        let k = j - before.len();
        assert((#[trigger] after[before.len() + k]).id == top + 1 + k);
    }
    if unique_ids(before) {
        assert forall|i: int, j: int|
            0 <= i < after.len() && 0 <= j < after.len() && i != j implies (#[trigger] after[i]).id
            != (#[trigger] after[j]).id by {
            if i < before.len() && j < before.len() {
                assert(after[i] == before[i] && after[j] == before[j]);
            }
        }
    }
}

/// A repair of roads that already connect the settlements adds nothing:
/// after one repair, a second one leaves the roads as they are.
pub proof fn lemma_repair_is_idempotent(
    settlements: Seq<Settlement>,
    waypoints: Map<usize, Waypoint>,
    roads: Seq<Road>,
)
    requires
        settlements.len() <= usize::MAX,
        settlements_resolve(settlements, waypoints),
        roads_resolve(roads, waypoints),
        forall|i: int, j: int|
            0 <= i < settlements.len() && 0 <= j < settlements.len() ==> connected(
                endpoints_of(roads),
                (#[trigger] settlements[i]).waypoint_id,
                (#[trigger] settlements[j]).waypoint_id,
            ),
    ensures
        repair_plan(settlements, waypoints, roads).len() == 0,
        repair_error(settlements, waypoints, roads) is None,
        forall|again: Seq<Road>|
            #[trigger] repaired(settlements, waypoints, roads, again) ==> again == roads,
{
    let edges = endpoints_of(roads);
    let nodes = settlement_nodes(settlements);
    lemma_stable_order_exists(id_keys(settlements));
    let order = stable_order(id_keys(settlements));
    assert(all_connected(edges, nodes)) by {
        assert forall|a: int, b: int| 0 <= a < nodes.len() && 0 <= b < nodes.len() implies connected(
            edges,
            #[trigger] nodes[a],
            #[trigger] nodes[b],
        ) by {
            assert(order[a] < settlements.len() && order[b] < settlements.len());
            assert(nodes[a] == settlements[order[a] as int].waypoint_id);
            assert(nodes[b] == settlements[order[b] as int].waypoint_id);
        }
    }
    if nodes.len() > 0 {
        lemma_connected_nodes_one_component(edges, nodes);
    }
    lemma_bridge_plan_len(components_in_order(edges, nodes), waypoints);
    lemma_max_road_id_fits(roads);
    assert forall|again: Seq<Road>| #[trigger]
        repaired(settlements, waypoints, roads, again) implies again == roads by {
        assert(again =~= roads);
    }
}

} // verus!
