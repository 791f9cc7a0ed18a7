//! Walks through a topology: which nodes can reach which, and by how few
//! hops.

use vstd::prelude::*;
use crate::link::Connection;
use crate::link::Link;

verus! {

/// Whether some link joins `a` and `b`.
pub open spec fn adjacent(links: Map<u32, Link>, a: u32, b: u32) -> bool {
    exists|e: u32| links.dom().contains(e) && (#[trigger] links[e]).joins(a, b)
}

/// Whether a link joins the node at position `k` of `path` and the next one.
pub open spec fn step_ok(links: Map<u32, Link>, path: Seq<u32>, k: int) -> bool {
    adjacent(links, path[k], path[k + 1])
}

/// Whether `path` leads from `from` to `to`, each node joined to the next by
/// a link. A single node is a walk from itself to itself.
pub open spec fn is_walk(links: Map<u32, Link>, from: u32, to: u32, path: Seq<u32>) -> bool {
    &&& path.len() > 0
    &&& path[0] == from
    &&& path[path.len() - 1] == to
    &&& forall|k: int| 0 <= k < path.len() - 1 ==> #[trigger] step_ok(links, path, k)
}

/// Whether some walk leads from `from` to `to`.
pub open spec fn reachable(links: Map<u32, Link>, from: u32, to: u32) -> bool {
    exists|path: Seq<u32>| is_walk(links, from, to, path)
}

/// Whether `path` is a walk from `from` to `to` and no walk between them
/// takes fewer hops.
pub open spec fn is_shortest_walk(links: Map<u32, Link>, from: u32, to: u32, path: Seq<u32>) -> bool {
    &&& is_walk(links, from, to, path)
    &&& forall|other: Seq<u32>| #[trigger] is_walk(links, from, to, other) ==> path.len() <= other.len()
}

/// Whether the link `edges[k]` joins the nodes at positions `k` and `k + 1`
/// of `path`.
pub open spec fn hop_ok(links: Map<u32, Link>, path: Seq<u32>, edges: Seq<u32>, k: int) -> bool {
    links.dom().contains(edges[k]) && links[edges[k]].joins(path[k], path[k + 1])
}

/// Whether `edges` are links along `path`, one for each hop, in order.
pub open spec fn follows(links: Map<u32, Link>, path: Seq<u32>, edges: Seq<u32>) -> bool {
    &&& edges.len() + 1 == path.len()
    &&& forall|k: int| 0 <= k < edges.len() ==> #[trigger] hop_ok(links, path, edges, k)
}

/// Whether `edges` are the links of a route from `from` to `to`: links along
/// a walk between them that takes the fewest hops.
pub open spec fn is_route(links: Map<u32, Link>, from: u32, to: u32, edges: Seq<u32>) -> bool {
    exists|path: Seq<u32>| is_shortest_walk(links, from, to, path) && #[trigger] follows(links, path, edges)
}

/// Whether two sets of links have the same indices and each link joins the
/// same two nodes in both.
pub open spec fn same_wiring(one: Map<u32, Link>, other: Map<u32, Link>) -> bool {
    &&& one.dom() == other.dom()
    &&& forall|e: u32| one.dom().contains(e) ==> (#[trigger] one[e]).a == other[e].a && one[e].b == other[e].b
}

/// Whether routing has arrived: it has at the node it was headed for.
pub fn arrived(node: u32, goal: u32) -> (there: bool)
    ensures
        there == (node == goal),
{
    node == goal
}

/// The cost of crossing a link when routing: one hop, whatever the link
/// carries.
pub fn hop_cost(wire: &Connection) -> (cost: usize)
    ensures
        cost == 1,
{
    1
}

/// The estimate of the hops that remain from a node when routing: none, so
/// that the search is uninformed.
pub fn hop_estimate(node: u32) -> (estimate: usize)
    ensures
        estimate == 0,
{
    0
}

/// Links that are wired alike join the same nodes.
pub proof fn lemma_same_wiring_adjacent(one: Map<u32, Link>, other: Map<u32, Link>, a: u32, b: u32)
    requires
        same_wiring(one, other),
    ensures
        adjacent(one, a, b) == adjacent(other, a, b),
{
    if adjacent(one, a, b) {
        let e = choose|e: u32| one.dom().contains(e) && (#[trigger] one[e]).joins(a, b);
        assert(other.dom().contains(e) && other[e].joins(a, b));
    }
    if adjacent(other, a, b) {
        let e = choose|e: u32| other.dom().contains(e) && (#[trigger] other[e]).joins(a, b);
        assert(one.dom().contains(e) && one[e].joins(a, b));
    }
}

/// Links that are wired alike have the same walks.
pub proof fn lemma_same_wiring_walk(one: Map<u32, Link>, other: Map<u32, Link>, from: u32, to: u32, path: Seq<u32>)
    requires
        same_wiring(one, other),
    ensures
        is_walk(one, from, to, path) == is_walk(other, from, to, path),
{
    assert forall|k: int| 0 <= k < path.len() - 1 implies step_ok(one, path, k) == step_ok(other, path, k) by {
        lemma_same_wiring_adjacent(one, other, path[k], path[k + 1]);
    }
    if is_walk(one, from, to, path) {
        assert forall|k: int| 0 <= k < path.len() - 1 implies #[trigger] step_ok(other, path, k) by {}
    }
    if is_walk(other, from, to, path) {
        assert forall|k: int| 0 <= k < path.len() - 1 implies #[trigger] step_ok(one, path, k) by {}
    }
}

/// Links that are wired alike connect the same nodes, by the same shortest
/// walks and the same routes.
pub proof fn lemma_same_wiring(one: Map<u32, Link>, other: Map<u32, Link>)
    requires
        same_wiring(one, other),
    ensures
        forall|from: u32, to: u32, path: Seq<u32>| is_walk(one, from, to, path) == is_walk(other, from, to, path),
        forall|from: u32, to: u32| reachable(one, from, to) == reachable(other, from, to),
        forall|from: u32, to: u32, path: Seq<u32>|
            is_shortest_walk(one, from, to, path) == is_shortest_walk(other, from, to, path),
        forall|path: Seq<u32>, edges: Seq<u32>| follows(one, path, edges) == follows(other, path, edges),
        forall|from: u32, to: u32, edges: Seq<u32>| is_route(one, from, to, edges) == is_route(other, from, to, edges),
{
    assert forall|from: u32, to: u32, path: Seq<u32>| is_walk(one, from, to, path) == is_walk(other, from, to, path) by {
        lemma_same_wiring_walk(one, other, from, to, path);
    }
    assert forall|path: Seq<u32>, edges: Seq<u32>| follows(one, path, edges) == follows(other, path, edges) by {
        if follows(one, path, edges) {
            assert forall|k: int| 0 <= k < edges.len() implies #[trigger] hop_ok(other, path, edges, k) by {
                assert(hop_ok(one, path, edges, k));
            }
        }
        if follows(other, path, edges) {
            assert forall|k: int| 0 <= k < edges.len() implies #[trigger] hop_ok(one, path, edges, k) by {
                assert(hop_ok(other, path, edges, k));
            }
        }
    }
}

/// A walk that takes the fewest hops passes no node twice.
pub proof fn lemma_shortest_is_simple(links: Map<u32, Link>, from: u32, to: u32, path: Seq<u32>)
    requires
        is_shortest_walk(links, from, to, path),
    ensures
        path.no_duplicates(),
{
    assert forall|i: int, j: int| 0 <= i < j < path.len() implies path[i] != path[j] by {
        if path[i] == path[j] {
            let cut = path.subrange(0, i + 1) + path.subrange(j + 1, path.len() as int);
            assert forall|k: int| 0 <= k < cut.len() - 1 implies #[trigger] step_ok(links, cut, k) by {
                if k < i {
                    assert(step_ok(links, path, k));
                } else {
                    assert(step_ok(links, path, k + (j - i)));
                }
            }
            assert(is_walk(links, from, to, cut));
        }
    }
}

/// The links along a path that passes no node twice are all different.
pub proof fn lemma_simple_path_links(links: Map<u32, Link>, path: Seq<u32>, edges: Seq<u32>)
    requires
        path.no_duplicates(),
        follows(links, path, edges),
    ensures
        edges.no_duplicates(),
{
    assert forall|i: int, j: int| 0 <= i < j < edges.len() implies edges[i] != edges[j] by {
        assert(hop_ok(links, path, edges, i));
        assert(hop_ok(links, path, edges, j));
    }
}

} // verus!
