//! The adjacency relation of the road graph and the traversal over it.

use crate::graph::{
    closed, component, connected, is_walk, lemma_connected_symmetric, lemma_linked_is_touched,
    lemma_touched_is_linked, lemma_walk_prefix, linked, touched,
};
use crate::model::{endpoints_of, Road};
use std::collections::HashMap;
use std::collections::HashSet;
use vstd::prelude::*;

verus! {

broadcast use vstd::std_specs::hash::group_hash_axioms;

/// An adjacency table as contracts see it: each key with its set of
/// neighbours.
pub open spec fn neighbor_sets(adjacency: Map<usize, HashSet<usize>>) -> Map<usize, Set<usize>> {
    Map::new(|k: usize| adjacency.contains_key(k), |k: usize| adjacency[k]@)
}

/// Whether the table lists `v` as a neighbour of `u`.
pub open spec fn succ(adj: Map<usize, Set<usize>>, u: usize, v: usize) -> bool {
    adj.contains_key(u) && adj[u].contains(v)
}

/// Whether the table lists exactly the links of the edge list, in both
/// directions.
pub open spec fn represents(adj: Map<usize, Set<usize>>, edges: Seq<(usize, usize)>) -> bool {
    forall|u: usize, v: usize| #[trigger] succ(adj, u, v) <==> linked(edges, u, v)
}

/// The adjacency table of an edge list: every endpoint with the set of
/// vertices that an edge links it to.
pub open spec fn adjacency_of(edges: Seq<(usize, usize)>) -> Map<usize, Set<usize>> {
    Map::new(|u: usize| touched(edges, u), |u: usize| Set::new(|v: usize| linked(edges, u, v)))
}

/// Whether every key of the table has a neighbour.
pub open spec fn no_idle_keys(adj: Map<usize, Set<usize>>) -> bool {
    forall|u: usize| adj.contains_key(u) ==> exists|v: usize| #[trigger] succ(adj, u, v)
}

/// A table without idle keys that represents the edges is their
/// adjacency table.
proof fn lemma_table_is_adjacency(adj: Map<usize, Set<usize>>, edges: Seq<(usize, usize)>)
    requires
        represents(adj, edges),
        no_idle_keys(adj),
    ensures
        adj == adjacency_of(edges),
{
    let expected = adjacency_of(edges);
    assert forall|u: usize| adj.contains_key(u) <==> expected.contains_key(u) by {
        if adj.contains_key(u) {
            let v = choose|v: usize| #[trigger] succ(adj, u, v);
            lemma_linked_is_touched(edges, u, v);
        }
        if touched(edges, u) {
            let v = lemma_touched_is_linked(edges, u);
            assert(succ(adj, u, v));
        }
    }
    assert forall|u: usize| adj.contains_key(u) implies adj[u] == expected[u] by {
        assert forall|v: usize| adj[u].contains(v) <==> expected[u].contains(v) by {
            assert(succ(adj, u, v) <==> linked(edges, u, v));
        }
        assert(adj[u] =~= expected[u]);
    }
    assert(adj =~= expected);
}

/// Whether `route` is a non-empty list of vertices outside `blocked` in
/// which each lists the next as a neighbour.
pub open spec fn is_route(adj: Map<usize, Set<usize>>, blocked: Set<usize>, route: Seq<usize>) -> bool {
    &&& route.len() > 0
    &&& forall|i: int| 0 <= i < route.len() ==> !blocked.contains(#[trigger] route[i])
    &&& forall|i: int| 0 <= i < route.len() - 1 ==> succ(adj, #[trigger] route[i], route[i + 1])
}

/// Whether a route outside `blocked` leads from `start` to `v`.
pub open spec fn reaches(
    adj: Map<usize, Set<usize>>,
    blocked: Set<usize>,
    start: usize,
    v: usize,
) -> bool {
    exists|route: Seq<usize>| #[trigger]
        is_route(adj, blocked, route) && route[0] == start && route.last() == v
}

/// The vertices that a route outside `blocked` reaches from `start`. It is
/// empty where `start` itself is blocked.
pub open spec fn reach_avoiding(
    adj: Map<usize, Set<usize>>,
    blocked: Set<usize>,
    start: usize,
) -> Set<usize> {
    Set::new(|v: usize| reaches(adj, blocked, start, v))
}

proof fn lemma_reaches_self(adj: Map<usize, Set<usize>>, blocked: Set<usize>, start: usize)
    requires
        !blocked.contains(start),
    ensures
        reaches(adj, blocked, start, start),
{
    let route = seq![start];
    assert(is_route(adj, blocked, route));
    assert(route[0] == start && route.last() == start);
}

proof fn lemma_reaches_step(
    adj: Map<usize, Set<usize>>,
    blocked: Set<usize>,
    start: usize,
    u: usize,
    w: usize,
)
    requires
        reaches(adj, blocked, start, u),
        succ(adj, u, w),
        !blocked.contains(w),
    ensures
        reaches(adj, blocked, start, w),
{
    let route = choose|route: Seq<usize>| #[trigger]
        is_route(adj, blocked, route) && route[0] == start && route.last() == u;
    let longer = route.push(w);
    assert(is_route(adj, blocked, longer)) by {
        assert forall|i: int| 0 <= i < longer.len() implies !blocked.contains(
            #[trigger] longer[i],
        ) by {
            if i < route.len() {
                assert(longer[i] == route[i]);
            }
        }
        assert forall|i: int| 0 <= i < longer.len() - 1 implies succ(
            adj,
            #[trigger] longer[i],
            longer[i + 1],
        ) by {
            if i < route.len() - 1 {
                assert(succ(adj, route[i], route[i + 1]));
            }
        }
    }
    assert(longer[0] == start && longer.last() == w);
}

/// A set that holds the start of a route, and with each unblocked member
/// its neighbours, holds the route's end.
proof fn lemma_route_stays_inside(
    adj: Map<usize, Set<usize>>,
    blocked: Set<usize>,
    inside: Set<usize>,
    route: Seq<usize>,
)
    requires
        is_route(adj, blocked, route),
        inside.contains(route[0]),
        forall|u: usize, w: usize|
            inside.contains(u) && !blocked.contains(u) && #[trigger] succ(adj, u, w)
                ==> inside.contains(w),
    ensures
        inside.contains(route.last()),
    decreases route.len(),
{
    if route.len() > 1 {
        let shorter = route.drop_last();
        assert(is_route(adj, blocked, shorter)) by {
            assert forall|i: int| 0 <= i < shorter.len() implies !blocked.contains(
                #[trigger] shorter[i],
            ) by {
                assert(shorter[i] == route[i]);
            }
            assert forall|i: int| 0 <= i < shorter.len() - 1 implies succ(
                adj,
                #[trigger] shorter[i],
                shorter[i + 1],
            ) by {
                assert(succ(adj, route[i], route[i + 1]));
            }
        }
        lemma_route_stays_inside(adj, blocked, inside, shorter);
        let k = route.len() - 2;
        assert(shorter.last() == route[k]);
        assert(succ(adj, route[k], route[k + 1]));
        assert(!blocked.contains(route[k]));
    }
}

/// Where the table represents the edges and the blocked set is closed,
/// the traversal from an unblocked start finds the start's component.
pub proof fn lemma_reach_is_component(
    adj: Map<usize, Set<usize>>,
    edges: Seq<(usize, usize)>,
    blocked: Set<usize>,
    start: usize,
)
    requires
        represents(adj, edges),
        closed(edges, blocked),
        !blocked.contains(start),
    ensures
        reach_avoiding(adj, blocked, start) == component(edges, start),
{
    assert forall|v: usize| reaches(adj, blocked, start, v) implies connected(edges, start, v) by {
        let route = choose|route: Seq<usize>| #[trigger]
            is_route(adj, blocked, route) && route[0] == start && route.last() == v;
        assert(is_walk(edges, route)) by {
            assert forall|i: int| 0 <= i < route.len() - 1 implies linked(
                edges,
                #[trigger] route[i],
                route[i + 1],
            ) by {
                assert(succ(adj, route[i], route[i + 1]));
            }
        }
    }
    assert forall|v: usize| connected(edges, start, v) implies reaches(adj, blocked, start, v) by {
        let walk = choose|walk: Seq<usize>| #[trigger]
            is_walk(edges, walk) && walk[0] == start && walk.last() == v;
        assert(is_route(adj, blocked, walk)) by {
            assert forall|i: int| 0 <= i < walk.len() implies !blocked.contains(
                #[trigger] walk[i],
            ) by {
                if blocked.contains(walk[i]) {
                    lemma_walk_prefix(edges, walk, i);
                    lemma_connected_symmetric(edges, start, walk[i]);
                    assert(connected(edges, walk[i], start));
                }
            }
            assert forall|i: int| 0 <= i < walk.len() - 1 implies succ(
                adj,
                #[trigger] walk[i],
                walk[i + 1],
            ) by {
                assert(linked(edges, walk[i], walk[i + 1]));
            }
        }
    }
    assert(reach_avoiding(adj, blocked, start) =~= component(edges, start));
}

/// Lists `to` among the neighbours of `from`.
fn add_neighbor(adjacency: &mut HashMap<usize, HashSet<usize>>, from: usize, to: usize)
    ensures
        forall|u: usize, v: usize| #[trigger]
            succ(neighbor_sets(final(adjacency)@), u, v) <==> succ(
                neighbor_sets(old(adjacency)@),
                u,
                v,
            ) || (u == from && v == to),
        forall|u: usize| #[trigger]
            final(adjacency)@.contains_key(u) <==> old(adjacency)@.contains_key(u) || u == from,
{
    let ghost before = neighbor_sets(adjacency@);
    let mut neighbors = match adjacency.remove(&from) {
        Some(present) => present,
        None => HashSet::new(),
    };
    let ghost present = neighbors@;
    neighbors.insert(to);
    adjacency.insert(from, neighbors);
    assert forall|u: usize, v: usize| #[trigger]
        succ(neighbor_sets(adjacency@), u, v) <==> succ(before, u, v) || (u == from && v == to) by {
        if u == from {
            assert(neighbor_sets(adjacency@)[u] == present.insert(to));
            if before.contains_key(from) {
                assert(before[from] == present);
            }
        } else {
            assert(neighbor_sets(adjacency@).contains_key(u) == before.contains_key(u));
        }
    }
}

/// Lists either end of the edge `(a, b)` as a neighbour of the other.
pub(crate) fn link_both(
    adjacency: &mut HashMap<usize, HashSet<usize>>,
    a: usize,
    b: usize,
    Ghost(edges): Ghost<Seq<(usize, usize)>>,
)
    requires
        represents(neighbor_sets(old(adjacency)@), edges),
        no_idle_keys(neighbor_sets(old(adjacency)@)),
    ensures
        represents(neighbor_sets(final(adjacency)@), edges.push((a, b))),
        no_idle_keys(neighbor_sets(final(adjacency)@)),
{
    let ghost before = neighbor_sets(adjacency@);
    add_neighbor(adjacency, a, b);
    let ghost between = neighbor_sets(adjacency@);
    add_neighbor(adjacency, b, a);
    proof {
        let longer = edges.push((a, b));
        assert(longer[edges.len() as int] == (a, b));
        assert forall|u: usize, v: usize| #[trigger]
            succ(neighbor_sets(adjacency@), u, v) <==> linked(longer, u, v) by {
            assert(succ(neighbor_sets(adjacency@), u, v) <==> succ(between, u, v) || (u == b && v
                == a));
            assert(succ(between, u, v) <==> succ(before, u, v) || (u == a && v == b));
            assert(succ(before, u, v) <==> linked(edges, u, v));
            if linked(edges, u, v) {
                let k = choose|k: int|
                    0 <= k < edges.len() && (#[trigger] edges[k] == (u, v) || edges[k] == (v, u));
                assert(longer[k] == edges[k]);
            }
            if linked(longer, u, v) {
                let k = choose|k: int|
                    0 <= k < longer.len() && (#[trigger] longer[k] == (u, v) || longer[k] == (v, u));
                if k < edges.len() {
                    assert(edges[k] == longer[k]);
                }
            }
        }
        let after = neighbor_sets(adjacency@);
        assert forall|u: usize| after.contains_key(u) implies exists|v: usize| #[trigger]
            succ(after, u, v) by {
            if before.contains_key(u) {
                let v = choose|v: usize| #[trigger] succ(before, u, v);
                assert(succ(between, u, v));
                assert(succ(neighbor_sets(adjacency@), u, v));
            } else if u == a {
                assert(succ(between, a, b));
                assert(succ(neighbor_sets(adjacency@), a, b));
            } else {
                assert(u == b);
                assert(succ(neighbor_sets(adjacency@), b, a));
            }
        }
    }
}

/// Builds the adjacency table of the roads: each road lists either end
/// as a neighbour of the other.
pub fn build_road_graph(roads: &Vec<Road>) -> (adjacency: HashMap<usize, HashSet<usize>>)
    ensures
        neighbor_sets(adjacency@) == adjacency_of(endpoints_of(roads@)),
        represents(neighbor_sets(adjacency@), endpoints_of(roads@)),
        no_idle_keys(neighbor_sets(adjacency@)),
{
    let ghost edges = endpoints_of(roads@);
    let mut adjacency: HashMap<usize, HashSet<usize>> = HashMap::new();
    let mut i: usize = 0;
    assert(!linked(edges.take(0), 0, 0));
    while i < roads.len()
        invariant
            i <= roads.len(),
            edges == endpoints_of(roads@),
            represents(neighbor_sets(adjacency@), edges.take(i as int)),
            no_idle_keys(neighbor_sets(adjacency@)),
        decreases roads.len() - i,
    {
        let a = roads[i].endpoints.0;
        let b = roads[i].endpoints.1;
        link_both(&mut adjacency, a, b, Ghost(edges.take(i as int)));
        assert(edges.take(i as int).push((a, b)) =~= edges.take(i + 1));
        i = i + 1;
    }
    assert(edges.take(i as int) =~= edges);
    proof {
        lemma_table_is_adjacency(neighbor_sets(adjacency@), edges);
    }
    adjacency
}

/// Collects into `cluster`, and marks in `visited`, every vertex that the
/// adjacency table reaches from `start` without passing through a vertex
/// that was visited before. A start that was visited before yields
/// nothing.
pub fn dfs(
    start: usize,
    adjacency: &HashMap<usize, HashSet<usize>>,
    visited: &mut HashSet<usize>,
    cluster: &mut HashSet<usize>,
)
    ensures
        final(visited)@ == old(visited)@.union(
            reach_avoiding(neighbor_sets(adjacency@), old(visited)@, start),
        ),
        final(cluster)@ == old(cluster)@.union(
            reach_avoiding(neighbor_sets(adjacency@), old(visited)@, start),
        ),
{
    let ghost adj = neighbor_sets(adjacency@);
    let ghost blocked = visited@;
    let ghost gathered = cluster@;
    let ghost found = reach_avoiding(adj, blocked, start);
    let mut stack: Vec<usize> = Vec::new();
    stack.push(start);
    proof {
        if !blocked.contains(start) {
            lemma_reaches_self(adj, blocked, start);
        }
        assert(stack@[0] == start);
    }
    while stack.len() > 0
        invariant
            adj == neighbor_sets(adjacency@),
            found == reach_avoiding(adj, blocked, start),
            forall|v: usize| blocked.contains(v) ==> visited@.contains(v),
            forall|v: usize| visited@.contains(v) && !blocked.contains(v) ==> found.contains(v),
            forall|v: usize|
                cluster@.contains(v) <==> gathered.contains(v) || (visited@.contains(v)
                    && !blocked.contains(v)),
            forall|k: int|
                0 <= k < stack@.len() ==> visited@.contains(#[trigger] stack@[k]) || found.contains(
                    stack@[k],
                ),
            forall|u: usize, w: usize|
                visited@.contains(u) && !blocked.contains(u) && #[trigger] succ(adj, u, w)
                    ==> visited@.contains(w) || stack@.contains(w),
            visited@.contains(start) || stack@.contains(start),
        decreases adjacency@.dom().difference(visited@).len(), stack.len(),
    {
        let ghost stack_before = stack@;
        let ghost visited_before = visited@;
        let node = stack.pop().unwrap();
        assert(stack_before[stack_before.len() - 1] == node);
        assert forall|w: usize| stack_before.contains(w) && w != node implies stack@.contains(w) by {
            let k = choose|k: int| 0 <= k < stack_before.len() && stack_before[k] == w;
            assert(stack@[k] == w);
        }
        let fresh = visited.insert(node);
        proof {
            assert(adjacency@.dom().finite());
            assert(adjacency@.dom().difference(visited_before).finite());
            if !fresh {
                assert(visited@ =~= visited_before);
            }
        }
        if fresh {
            cluster.insert(node);
            assert(found.contains(node));
            proof {
                if adjacency@.contains_key(node) {
                    assert(adjacency@.dom().difference(visited@) =~= adjacency@.dom().difference(
                        visited_before,
                    ).remove(node));
                } else {
                    assert(adjacency@.dom().difference(visited@) =~= adjacency@.dom().difference(
                        visited_before,
                    ));
                }
            }
            match adjacency.get(&node) {
                Some(neighbors) => {
                    assert(adj[node] == neighbors@);
                    let ghost stack_mid = stack@;
                    for neighbor in it: neighbors.iter()
                        invariant
                            it.seq().unref().to_set() == neighbors@,
                            adj == neighbor_sets(adjacency@),
                            adjacency@.contains_key(node),
                            adj[node] == neighbors@,
                            found == reach_avoiding(adj, blocked, start),
                            found.contains(node),
                            visited@ == visited_before.insert(node),
                            forall|v: usize| blocked.contains(v) ==> visited@.contains(v),
                            forall|k: int|
                                0 <= k < stack@.len() ==> visited@.contains(#[trigger] stack@[k])
                                    || found.contains(stack@[k]),
                            forall|w: usize| stack_mid.contains(w) ==> stack@.contains(w),
                            forall|j: int|
                                0 <= j < it.index() ==> visited@.contains(*#[trigger] it.seq()[j])
                                    || stack@.contains(*it.seq()[j]),
                    {
                        let ghost stack_then = stack@;
                        if !visited.contains(neighbor) {
                            proof {
                                assert(it.seq().unref()[it.index()] == *neighbor);
                                assert(it.seq().unref().to_set().contains(*neighbor));
                                assert(succ(adj, node, *neighbor));
                                lemma_reaches_step(adj, blocked, start, node, *neighbor);
                            }
                            stack.push(*neighbor);
                            assert(stack@[stack@.len() - 1] == *neighbor);
                            assert forall|w: usize| stack_then.contains(w) implies stack@.contains(
                                w,
                            ) by {
                                let k = choose|k: int| 0 <= k < stack_then.len() && stack_then[k] == w;
                                assert(stack@[k] == w);
                            }
                        }
                    }
                    assert forall|w: usize| succ(adj, node, w) implies visited@.contains(w)
                        || stack@.contains(w) by {
                        assert(neighbors@.contains(w));
                    }
                },
                None => {
                    assert(!adj.contains_key(node));
                },
            }
        }
    }
    proof {
        assert forall|w: usize| !stack@.contains(w) by {}
        assert forall|v: usize| found.contains(v) implies visited@.contains(v) by {
            let route = choose|route: Seq<usize>| #[trigger]
                is_route(adj, blocked, route) && route[0] == start && route.last() == v;
            assert(!blocked.contains(route[0]));
            lemma_route_stays_inside(adj, blocked, visited@, route);
        }
        assert forall|v: usize| found.contains(v) implies !blocked.contains(v) by {
            let route = choose|route: Seq<usize>| #[trigger]
                is_route(adj, blocked, route) && route[0] == start && route.last() == v;
            assert(!blocked.contains(route[route.len() - 1]));
        }
        assert(visited@ =~= blocked.union(found));
        assert(cluster@ =~= gathered.union(found));
    }
}

} // verus!
