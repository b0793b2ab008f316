//! The road graph as contracts see it: links, walks and components.
//!
//! A graph is given by its list of edges, each a pair of waypoint ids.
//! Edges have no direction. Every waypoint id is a vertex, whether or not
//! an edge touches it, so a waypoint without roads is a component of its
//! own.

use vstd::prelude::*;

verus! {

/// Whether some edge joins `u` and `v`, in either direction.
pub open spec fn linked(edges: Seq<(usize, usize)>, u: usize, v: usize) -> bool {
    exists|i: int| 0 <= i < edges.len() && (#[trigger] edges[i] == (u, v) || edges[i] == (v, u))
}

/// Whether `walk` is a non-empty list of vertices in which each is linked
/// to the next.
pub open spec fn is_walk(edges: Seq<(usize, usize)>, walk: Seq<usize>) -> bool {
    &&& walk.len() > 0
    &&& forall|i: int| 0 <= i < walk.len() - 1 ==> linked(edges, #[trigger] walk[i], walk[i + 1])
}

/// Whether a walk leads from `u` to `v`.
pub open spec fn connected(edges: Seq<(usize, usize)>, u: usize, v: usize) -> bool {
    exists|walk: Seq<usize>| #[trigger] is_walk(edges, walk) && walk[0] == u && walk.last() == v
}

/// The vertices that a walk from `u` reaches.
pub open spec fn component(edges: Seq<(usize, usize)>, u: usize) -> Set<usize> {
    Set::new(|v: usize| connected(edges, u, v))
}

/// Whether every listed vertex is connected to every other.
pub open spec fn all_connected(edges: Seq<(usize, usize)>, nodes: Seq<usize>) -> bool {
    forall|i: int, j: int|
        0 <= i < nodes.len() && 0 <= j < nodes.len() ==> connected(
            edges,
            #[trigger] nodes[i],
            #[trigger] nodes[j],
        )
}

/// Whether `more` is `edges` with further edges appended.
pub open spec fn extends(more: Seq<(usize, usize)>, edges: Seq<(usize, usize)>) -> bool {
    &&& edges.len() <= more.len()
    &&& forall|i: int| 0 <= i < edges.len() ==> #[trigger] more[i] == edges[i]
}

/// Whether a set of vertices holds, with each member, all that is
/// connected to it.
pub open spec fn closed(edges: Seq<(usize, usize)>, vertices: Set<usize>) -> bool {
    forall|u: usize, v: usize|
        vertices.contains(u) && #[trigger] connected(edges, u, v) ==> vertices.contains(v)
}

/// Whether `v` is an endpoint of some edge.
pub open spec fn touched(edges: Seq<(usize, usize)>, v: usize) -> bool {
    exists|i: int| 0 <= i < edges.len() && (#[trigger] edges[i].0 == v || edges[i].1 == v)
}

pub proof fn lemma_linked_symmetric(edges: Seq<(usize, usize)>, u: usize, v: usize)
    requires
        linked(edges, u, v),
    ensures
        linked(edges, v, u),
{
    let i = choose|i: int| 0 <= i < edges.len() && (#[trigger] edges[i] == (u, v) || edges[i] == (v, u));
    assert(edges[i] == (v, u) || edges[i] == (u, v));
}

/// Every vertex is connected to itself.
pub proof fn lemma_connected_self(edges: Seq<(usize, usize)>, u: usize)
    ensures
        connected(edges, u, u),
{
    let walk = seq![u];
    assert(is_walk(edges, walk));
    assert(walk[0] == u && walk.last() == u);
}

/// Linked vertices are connected.
pub proof fn lemma_connected_link(edges: Seq<(usize, usize)>, u: usize, v: usize)
    requires
        linked(edges, u, v),
    ensures
        connected(edges, u, v),
{
    let walk = seq![u, v];
    assert(is_walk(edges, walk)) by {
        assert forall|i: int| 0 <= i < walk.len() - 1 implies linked(
            edges,
            #[trigger] walk[i],
            walk[i + 1],
        ) by {
            assert(i == 0);
        }
    }
    assert(walk[0] == u && walk.last() == v);
}

/// Connection does not depend on the direction.
pub proof fn lemma_connected_symmetric(edges: Seq<(usize, usize)>, u: usize, v: usize)
    requires
        connected(edges, u, v),
    ensures
        connected(edges, v, u),
{
    let walk = choose|walk: Seq<usize>| #[trigger]
        is_walk(edges, walk) && walk[0] == u && walk.last() == v;
    let back = Seq::new(walk.len(), |i: int| walk[walk.len() - 1 - i]);
    assert(is_walk(edges, back)) by {
        assert forall|i: int| 0 <= i < back.len() - 1 implies linked(
            edges,
            #[trigger] back[i],
            back[i + 1],
        ) by {
            let k = walk.len() - 2 - i;
            assert(linked(edges, walk[k], walk[k + 1]));
            lemma_linked_symmetric(edges, walk[k], walk[k + 1]);
        }
    }
    assert(back[0] == v && back.last() == u);
}

/// Connection carries over a middle vertex.
pub proof fn lemma_connected_transitive(
    edges: Seq<(usize, usize)>,
    u: usize,
    v: usize,
    w: usize,
)
    requires
        connected(edges, u, v),
        connected(edges, v, w),
    ensures
        connected(edges, u, w),
{
    let first = choose|walk: Seq<usize>| #[trigger]
        is_walk(edges, walk) && walk[0] == u && walk.last() == v;
    let second = choose|walk: Seq<usize>| #[trigger]
        is_walk(edges, walk) && walk[0] == v && walk.last() == w;
    let joined = first + second.subrange(1, second.len() as int);
    assert(is_walk(edges, joined)) by {
        assert forall|i: int| 0 <= i < joined.len() - 1 implies linked(
            edges,
            #[trigger] joined[i],
            joined[i + 1],
        ) by {
            if i < first.len() - 1 {
                assert(linked(edges, first[i], first[i + 1]));
            } else {
                let k = i - first.len() + 1;
                assert(linked(edges, second[k], second[k + 1]));
                assert(joined[i + 1] == second[k + 1]);
                if i == first.len() - 1 {
                    assert(joined[i] == first.last());
                } else {
                    assert(joined[i] == second[k]);
                }
            }
        }
    }
    assert(joined[0] == u);
    assert(joined.last() == w) by {
        if second.len() == 1 {
            assert(joined =~= first);
        } else {
            assert(joined.last() == second.last());
        }
    }
}

/// Appending edges keeps what was connected.
pub proof fn lemma_connected_extends(
    edges: Seq<(usize, usize)>,
    more: Seq<(usize, usize)>,
    u: usize,
    v: usize,
)
    requires
        extends(more, edges),
        connected(edges, u, v),
    ensures
        connected(more, u, v),
{
    let walk = choose|walk: Seq<usize>| #[trigger]
        is_walk(edges, walk) && walk[0] == u && walk.last() == v;
    assert(is_walk(more, walk)) by {
        assert forall|i: int| 0 <= i < walk.len() - 1 implies linked(
            more,
            #[trigger] walk[i],
            walk[i + 1],
        ) by {
            assert(linked(edges, walk[i], walk[i + 1]));
            let k = choose|k: int|
                0 <= k < edges.len() && (#[trigger] edges[k] == (walk[i], walk[i + 1]) || edges[k]
                    == (walk[i + 1], walk[i]));
            assert(more[k] == edges[k]);
        }
    }
}

/// Every vertex of a walk is connected to the walk's start.
pub proof fn lemma_walk_prefix(edges: Seq<(usize, usize)>, walk: Seq<usize>, k: int)
    requires
        is_walk(edges, walk),
        0 <= k < walk.len(),
    ensures
        connected(edges, walk[0], walk[k]),
{
    let prefix = walk.subrange(0, k + 1);
    assert(is_walk(edges, prefix)) by {
        assert forall|i: int| 0 <= i < prefix.len() - 1 implies linked(
            edges,
            #[trigger] prefix[i],
            prefix[i + 1],
        ) by {
            assert(linked(edges, walk[i], walk[i + 1]));
        }
    }
    assert(prefix[0] == walk[0] && prefix.last() == walk[k]);
}

/// What is connected to `u` is `u` itself or the endpoint of an edge.
pub proof fn lemma_connected_touched(edges: Seq<(usize, usize)>, u: usize, v: usize)
    requires
        connected(edges, u, v),
    ensures
        v == u || touched(edges, v),
{
    let walk = choose|walk: Seq<usize>| #[trigger]
        is_walk(edges, walk) && walk[0] == u && walk.last() == v;
    if walk.len() > 1 {
        let k = walk.len() - 2;
        assert(linked(edges, walk[k], walk[k + 1]));
        let i = choose|i: int|
            0 <= i < edges.len() && (#[trigger] edges[i] == (walk[k], walk[k + 1]) || edges[i] == (
                walk[k + 1],
                walk[k],
            ));
        assert(edges[i].0 == v || edges[i].1 == v);
    }
}

/// An endpoint of an edge is linked to the edge's other end.
pub proof fn lemma_touched_is_linked(edges: Seq<(usize, usize)>, u: usize) -> (v: usize)
    requires
        touched(edges, u),
    ensures
        linked(edges, u, v),
{
    let i = choose|i: int| 0 <= i < edges.len() && (#[trigger] edges[i].0 == u || edges[i].1 == u);
    let edge = edges[i];
    let v = if edge.0 == u {
        edge.1
    } else {
        edge.0
    };
    assert(edges[i] == (u, v) || edges[i] == (v, u));
    v
}

/// What is linked to something is an endpoint of an edge.
pub proof fn lemma_linked_is_touched(edges: Seq<(usize, usize)>, u: usize, v: usize)
    requires
        linked(edges, u, v),
    ensures
        touched(edges, u),
{
    let i = choose|i: int|
        0 <= i < edges.len() && (#[trigger] edges[i] == (u, v) || edges[i] == (v, u));
    assert(edges[i].0 == u || edges[i].1 == u);
}

/// A component holds, with each member, all that is connected to it.
pub proof fn lemma_component_closed(edges: Seq<(usize, usize)>, u: usize)
    ensures
        closed(edges, component(edges, u)),
        component(edges, u).contains(u),
{
    lemma_connected_self(edges, u);
    assert forall|x: usize, y: usize|
        component(edges, u).contains(x) && #[trigger] connected(edges, x, y) implies component(
        edges,
        u,
    ).contains(y) by {
        lemma_connected_transitive(edges, u, x, y);
    }
}

} // verus!
