//! The connected components of the settlements, as a worklist, and the
//! plan that bridges them.

use crate::graph::{
    all_connected, component, connected, extends, lemma_component_closed,
    lemma_connected_extends, lemma_connected_link, lemma_connected_self,
    lemma_connected_symmetric, lemma_connected_touched, lemma_connected_transitive, linked,
    touched,
};
use crate::metric::sq_dist;
use crate::model::Waypoint;
use vstd::prelude::*;

verus! {

/// Whether some group holds `v`.
pub open spec fn covered(groups: Seq<Set<usize>>, v: usize) -> bool {
    exists|k: int| 0 <= k < groups.len() && (#[trigger] groups[k]).contains(v)
}

/// The components of the listed vertices, each once, in the order in
/// which the list first meets them.
pub open spec fn components_in_order(edges: Seq<(usize, usize)>, nodes: Seq<usize>) -> Seq<
    Set<usize>,
>
    decreases nodes.len(),
{
    if nodes.len() == 0 {
        Seq::empty()
    } else {
        let earlier = components_in_order(edges, nodes.drop_last());
        if covered(earlier, nodes.last()) {
            earlier
        } else {
            earlier.push(component(edges, nodes.last()))
        }
    }
}

/// Whether the pair `p` is no farther apart than `q`; pairs equally far
/// apart rank by their first id, then by their second.
pub open spec fn no_farther(
    waypoints: Map<usize, Waypoint>,
    p: (usize, usize),
    q: (usize, usize),
) -> bool {
    let dp = sq_dist(waypoints[p.0].position, waypoints[p.1].position);
    let dq = sq_dist(waypoints[q.0].position, waypoints[q.1].position);
    dp < dq || (dp == dq && (p.0 < q.0 || (p.0 == q.0 && p.1 <= q.1)))
}

/// Whether `p` joins a member of `a` to a member of `b` and no such pair
/// is closer: the pair that a scan of `a`, and for each of its members of
/// `b`, in ascending order of ids finds first at the least distance.
pub open spec fn is_closest_pair(
    a: Set<usize>,
    b: Set<usize>,
    waypoints: Map<usize, Waypoint>,
    p: (usize, usize),
) -> bool {
    &&& a.contains(p.0)
    &&& b.contains(p.1)
    &&& forall|x: usize, y: usize|
        a.contains(x) && b.contains(y) ==> #[trigger] no_farther(waypoints, p, (x, y))
}

/// The closest pair between two groups.
pub open spec fn closest_pair(a: Set<usize>, b: Set<usize>, waypoints: Map<usize, Waypoint>) -> (
    usize,
    usize,
) {
    choose|p: (usize, usize)| is_closest_pair(a, b, waypoints, p)
}

/// Two groups have one closest pair and no other.
pub proof fn lemma_closest_pair_unique(
    a: Set<usize>,
    b: Set<usize>,
    waypoints: Map<usize, Waypoint>,
    p: (usize, usize),
)
    requires
        is_closest_pair(a, b, waypoints, p),
    ensures
        closest_pair(a, b, waypoints) == p,
{
    let q = closest_pair(a, b, waypoints);
    assert(is_closest_pair(a, b, waypoints, q));
    assert(no_farther(waypoints, p, (q.0, q.1)));
    assert(no_farther(waypoints, q, (p.0, p.1)));
}

/// The worklist after its first two groups were merged: the others move
/// up and the merged group goes to the end.
pub open spec fn merge_front(worklist: Seq<Set<usize>>) -> Seq<Set<usize>> {
    worklist.skip(2).push(worklist[0].union(worklist[1]))
}

/// The pairs to bridge, in order: as long as two groups are left, the
/// closest pair between the first two, which are then merged.
pub open spec fn bridge_plan(worklist: Seq<Set<usize>>, waypoints: Map<usize, Waypoint>) -> Seq<
    (usize, usize),
>
    decreases worklist.len(),
{
    if worklist.len() < 2 {
        Seq::empty()
    } else {
        seq![closest_pair(worklist[0], worklist[1], waypoints)] + bridge_plan(
            merge_front(worklist),
            waypoints,
        )
    }
}

/// A plan has one pair less than the worklist has groups.
pub proof fn lemma_bridge_plan_len(worklist: Seq<Set<usize>>, waypoints: Map<usize, Waypoint>)
    ensures
        worklist.len() == 0 ==> bridge_plan(worklist, waypoints).len() == 0,
        worklist.len() > 0 ==> bridge_plan(worklist, waypoints).len() == worklist.len() - 1,
    decreases worklist.len(),
{
    if worklist.len() >= 2 {
        lemma_bridge_plan_len(merge_front(worklist), waypoints);
    }
}

/// Whether the set has a member.
pub open spec fn inhabited(group: Set<usize>) -> bool {
    exists|v: usize| group.contains(v)
}

/// Whether every group has a member.
pub open spec fn groups_inhabited(groups: Seq<Set<usize>>) -> bool {
    forall|k: int| 0 <= k < groups.len() ==> inhabited(#[trigger] groups[k])
}

/// Whether no vertex is in two groups.
pub open spec fn groups_disjoint(groups: Seq<Set<usize>>) -> bool {
    forall|j: int, k: int, v: usize|
        0 <= j < groups.len() && 0 <= k < groups.len() && j != k && #[trigger] groups[j].contains(
            v,
        ) ==> !#[trigger] groups[k].contains(v)
}

/// Whether every member of a group is a known waypoint.
pub open spec fn groups_known(groups: Seq<Set<usize>>, known: Set<usize>) -> bool {
    forall|k: int, v: usize|
        0 <= k < groups.len() && #[trigger] groups[k].contains(v) ==> known.contains(v)
}

/// Whether the members of each group are connected to each other.
pub open spec fn groups_connected(groups: Seq<Set<usize>>, edges: Seq<(usize, usize)>) -> bool {
    forall|k: int, x: usize, y: usize|
        0 <= k < groups.len() && #[trigger] groups[k].contains(x) && #[trigger] groups[k].contains(
            y,
        ) ==> connected(edges, x, y)
}

/// Whether every listed vertex is in a group.
pub open spec fn groups_cover(groups: Seq<Set<usize>>, nodes: Seq<usize>) -> bool {
    forall|i: int| 0 <= i < nodes.len() ==> covered(groups, #[trigger] nodes[i])
}

/// What the bridging relies on: the groups are non-empty and share no
/// member, their members are known waypoints, each group is connected
/// within itself, and every listed vertex is in a group.
pub open spec fn sound_worklist(
    groups: Seq<Set<usize>>,
    edges: Seq<(usize, usize)>,
    nodes: Seq<usize>,
    known: Set<usize>,
) -> bool {
    &&& groups_inhabited(groups)
    &&& groups_disjoint(groups)
    &&& groups_known(groups, known)
    &&& groups_connected(groups, edges)
    &&& groups_cover(groups, nodes)
}

/// Whether each group is the component of one of the listed vertices.
pub open spec fn groups_are_components(
    groups: Seq<Set<usize>>,
    edges: Seq<(usize, usize)>,
    nodes: Seq<usize>,
) -> bool {
    forall|k: int|
        0 <= k < groups.len() ==> exists|i: int|
            0 <= i < nodes.len() && #[trigger] groups[k] == component(edges, #[trigger] nodes[i])
}

/// The worklist of components holds, for each listed vertex, its
/// component, and nothing else.
pub proof fn lemma_components_cover(edges: Seq<(usize, usize)>, nodes: Seq<usize>)
    ensures
        groups_are_components(components_in_order(edges, nodes), edges, nodes),
        groups_cover(components_in_order(edges, nodes), nodes),
        components_in_order(edges, nodes).len() <= nodes.len(),
    decreases nodes.len(),
{
    let groups = components_in_order(edges, nodes);
    if nodes.len() > 0 {
        let shorter = nodes.drop_last();
        let earlier = components_in_order(edges, shorter);
        let u = nodes.last();
        lemma_components_cover(edges, shorter);
        lemma_component_closed(edges, u);
        assert forall|k: int| 0 <= k < groups.len() implies exists|i: int|
            0 <= i < nodes.len() && #[trigger] groups[k] == component(
                edges,
                #[trigger] nodes[i],
            ) by {
            if k < earlier.len() {
                let i = choose|i: int|
                    0 <= i < shorter.len() && #[trigger] earlier[k] == component(
                        edges,
                        #[trigger] shorter[i],
                    );
                assert(shorter[i] == nodes[i]);
                assert(groups[k] == component(edges, nodes[i]));
            } else {
                assert(groups[k] == component(edges, nodes[nodes.len() - 1]));
            }
        }
        assert forall|i: int| 0 <= i < nodes.len() implies covered(groups, #[trigger] nodes[i]) by {
            if i < shorter.len() {
                assert(shorter[i] == nodes[i]);
                assert(covered(earlier, shorter[i]));
                let k = choose|k: int|
                    0 <= k < earlier.len() && (#[trigger] earlier[k]).contains(shorter[i]);
                assert(groups[k].contains(nodes[i]));
            } else if !covered(earlier, u) {
                assert(groups[earlier.len() as int].contains(u));
            }
        }
    }
}

/// No vertex is in two components of the worklist.
pub proof fn lemma_components_disjoint(edges: Seq<(usize, usize)>, nodes: Seq<usize>)
    ensures
        groups_disjoint(components_in_order(edges, nodes)),
    decreases nodes.len(),
{
    let groups = components_in_order(edges, nodes);
    if nodes.len() > 0 {
        let shorter = nodes.drop_last();
        let earlier = components_in_order(edges, shorter);
        let u = nodes.last();
        lemma_components_disjoint(edges, shorter);
        if !covered(earlier, u) {
            lemma_components_cover(edges, shorter);
            let fresh = component(edges, u);
            assert forall|k: int, v: usize|
                0 <= k < earlier.len() && #[trigger] earlier[k].contains(v) implies !fresh.contains(
                v,
            ) by {
                if fresh.contains(v) {
                    let i = choose|i: int|
                        0 <= i < shorter.len() && #[trigger] earlier[k] == component(
                            edges,
                            #[trigger] shorter[i],
                        );
                    lemma_connected_symmetric(edges, u, v);
                    lemma_connected_transitive(edges, shorter[i], v, u);
                    assert(earlier[k].contains(u));
                }
            }
            assert forall|j: int, k: int, v: usize|
                0 <= j < groups.len() && 0 <= k < groups.len() && j != k
                    && #[trigger] groups[j].contains(v) implies !#[trigger] groups[k].contains(v) by {
                if j < earlier.len() && k < earlier.len() {
                    assert(earlier[j].contains(v));
                } else if j < earlier.len() {
                    assert(earlier[j].contains(v));
                } else if groups[k].contains(v) {
                    assert(earlier[k].contains(v));
                }
            }
        }
    }
}

/// The components of known vertices form a sound worklist.
pub proof fn lemma_components_sound(
    edges: Seq<(usize, usize)>,
    nodes: Seq<usize>,
    known: Set<usize>,
)
    requires
        forall|i: int| 0 <= i < nodes.len() ==> known.contains(#[trigger] nodes[i]),
        forall|v: usize| touched(edges, v) ==> known.contains(v),
    ensures
        sound_worklist(components_in_order(edges, nodes), edges, nodes, known),
{
    let groups = components_in_order(edges, nodes);
    lemma_components_cover(edges, nodes);
    lemma_components_disjoint(edges, nodes);
    assert(groups_inhabited(groups)) by {
        assert forall|k: int| 0 <= k < groups.len() implies inhabited(#[trigger] groups[k]) by {
            let i = choose|i: int|
                0 <= i < nodes.len() && #[trigger] groups[k] == component(
                    edges,
                    #[trigger] nodes[i],
                );
            lemma_connected_self(edges, nodes[i]);
            assert(groups[k].contains(nodes[i]));
        }
    }
    assert(groups_known(groups, known)) by {
        assert forall|k: int, v: usize|
            0 <= k < groups.len() && #[trigger] groups[k].contains(v) implies known.contains(v) by {
            let i = choose|i: int|
                0 <= i < nodes.len() && #[trigger] groups[k] == component(
                    edges,
                    #[trigger] nodes[i],
                );
            lemma_connected_touched(edges, nodes[i], v);
        }
    }
    assert(groups_connected(groups, edges)) by {
        assert forall|k: int, x: usize, y: usize|
            0 <= k < groups.len() && #[trigger] groups[k].contains(x)
                && #[trigger] groups[k].contains(y) implies connected(edges, x, y) by {
            let i = choose|i: int|
                0 <= i < nodes.len() && #[trigger] groups[k] == component(
                    edges,
                    #[trigger] nodes[i],
                );
            lemma_connected_symmetric(edges, nodes[i], x);
            lemma_connected_transitive(edges, x, nodes[i], y);
        }
    }
}

/// Bridging the first two groups by an edge between them and merging
/// them keeps the worklist sound. The edge is no loop.
pub proof fn lemma_merge_sound(
    groups: Seq<Set<usize>>,
    edges: Seq<(usize, usize)>,
    nodes: Seq<usize>,
    known: Set<usize>,
    pair: (usize, usize),
)
    requires
        sound_worklist(groups, edges, nodes, known),
        groups.len() >= 2,
        groups[0].contains(pair.0),
        groups[1].contains(pair.1),
    ensures
        sound_worklist(merge_front(groups), edges.push(pair), nodes, known),
        pair.0 != pair.1,
{
    let merged = merge_front(groups);
    let more = edges.push(pair);
    let last = merged.len() - 1;
    assert(merged.len() == groups.len() - 1);
    assert(merged[last] == groups[0].union(groups[1]));
    assert forall|k: int| 0 <= k < last implies #[trigger] merged[k] == groups[k + 2] by {}
    assert(pair.0 != pair.1) by {
        assert(groups[0].contains(pair.0));
        if pair.0 == pair.1 {
            assert(groups[1].contains(pair.0));
        }
    }
    assert(groups_inhabited(merged)) by {
        assert forall|k: int| 0 <= k < merged.len() implies inhabited(#[trigger] merged[k]) by {
            if k < last {
                assert(inhabited(groups[k + 2]));
            } else {
                assert(merged[k].contains(pair.0));
            }
        }
    }
    assert(groups_disjoint(merged)) by {
        assert forall|j: int, k: int, v: usize|
            0 <= j < merged.len() && 0 <= k < merged.len() && j != k
                && #[trigger] merged[j].contains(v) implies !#[trigger] merged[k].contains(v) by {
            if j < last && k < last {
                assert(groups[j + 2].contains(v));
            } else if j < last {
                assert(groups[j + 2].contains(v));
                assert(!groups[0].contains(v));
                assert(!groups[1].contains(v));
            } else {
                if groups[0].contains(v) {
                    assert(!groups[k + 2].contains(v));
                } else {
                    assert(groups[1].contains(v));
                    assert(!groups[k + 2].contains(v));
                }
            }
        }
    }
    assert(groups_known(merged, known)) by {
        assert forall|k: int, v: usize|
            0 <= k < merged.len() && #[trigger] merged[k].contains(v) implies known.contains(v) by {
            if k < last {
                assert(groups[k + 2].contains(v));
            } else if groups[0].contains(v) {
            } else {
                assert(groups[1].contains(v));
            }
        }
    }
    assert(groups_cover(merged, nodes)) by {
        assert forall|i: int| 0 <= i < nodes.len() implies covered(merged, #[trigger] nodes[i]) by {
            assert(covered(groups, nodes[i]));
            let k = choose|k: int| 0 <= k < groups.len() && (#[trigger] groups[k]).contains(nodes[i]);
            if k >= 2 {
                assert(merged[k - 2].contains(nodes[i]));
            } else {
                assert(merged[last].contains(nodes[i]));
            }
        }
    }
    assert(groups_connected(merged, more)) by {
        assert(extends(more, edges));
        assert(more[edges.len() as int] == pair);
        assert(linked(more, pair.0, pair.1));
        lemma_connected_link(more, pair.0, pair.1);
        assert forall|k: int, x: usize, y: usize|
            0 <= k < merged.len() && #[trigger] merged[k].contains(x)
                && #[trigger] merged[k].contains(y) implies connected(more, x, y) by {
            if k < last {
                assert(groups[k + 2].contains(x) && groups[k + 2].contains(y));
                lemma_connected_extends(edges, more, x, y);
            } else {
                let gx: int = if groups[0].contains(x) { 0 } else { 1 };
                let gy: int = if groups[0].contains(y) { 0 } else { 1 };
                assert(groups[gx].contains(x));
                assert(groups[gy].contains(y));
                if gx == gy {
                    lemma_connected_extends(edges, more, x, y);
                } else if gx == 0 {
                    assert(connected(edges, x, pair.0));
                    assert(connected(edges, pair.1, y));
                    lemma_connected_extends(edges, more, x, pair.0);
                    lemma_connected_extends(edges, more, pair.1, y);
                    lemma_connected_transitive(more, x, pair.0, pair.1);
                    lemma_connected_transitive(more, x, pair.1, y);
                } else {
                    assert(connected(edges, x, pair.1));
                    assert(connected(edges, pair.0, y));
                    lemma_connected_extends(edges, more, x, pair.1);
                    lemma_connected_extends(edges, more, pair.0, y);
                    lemma_connected_symmetric(more, pair.0, pair.1);
                    lemma_connected_transitive(more, x, pair.1, pair.0);
                    lemma_connected_transitive(more, x, pair.0, y);
                }
            }
        }
    }
}

/// Vertices that are all connected to each other have one component
/// between them: that of the first.
pub proof fn lemma_connected_nodes_one_component(edges: Seq<(usize, usize)>, nodes: Seq<usize>)
    requires
        all_connected(edges, nodes),
        nodes.len() > 0,
    ensures
        components_in_order(edges, nodes) == seq![component(edges, nodes[0])],
    decreases nodes.len(),
{
    let shorter = nodes.drop_last();
    if shorter.len() == 0 {
        assert(components_in_order(edges, shorter) =~= Seq::<Set<usize>>::empty());
        assert(!covered(components_in_order(edges, shorter), nodes.last()));
        assert(nodes.last() == nodes[0]);
        assert(components_in_order(edges, nodes) =~= seq![component(edges, nodes[0])]);
    } else {
        assert forall|i: int, j: int| 0 <= i < shorter.len() && 0 <= j < shorter.len() implies connected(
            edges,
            #[trigger] shorter[i],
            #[trigger] shorter[j],
        ) by {
            assert(shorter[i] == nodes[i] && shorter[j] == nodes[j]);
        }
        lemma_connected_nodes_one_component(edges, shorter);
        let earlier = components_in_order(edges, shorter);
        assert(shorter[0] == nodes[0]);
        assert(connected(edges, nodes[0], nodes[nodes.len() - 1]));
        assert(earlier[0].contains(nodes.last()));
        assert(covered(earlier, nodes.last()));
    }
}

} // verus!
