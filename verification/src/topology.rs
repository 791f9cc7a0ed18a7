//! The topology: an undirected `petgraph` stable graph whose edges are the
//! links, seen by the verified code as a set of nodes and a map of links.

use vstd::prelude::*;
use petgraph::algo::astar;
use petgraph::stable_graph::EdgeIndex;
use petgraph::stable_graph::NodeIndex;
use petgraph::stable_graph::StableGraph;
use petgraph::Undirected;
use crate::link::Connection;
use crate::link::Link;
use crate::walk::arrived;
use crate::walk::hop_cost;
use crate::walk::hop_estimate;
use crate::walk::is_shortest_walk;
use crate::walk::reachable;

verus! {

/// `petgraph::stable_graph::StableGraph`, opaque to the verifier.
#[verifier::external_type_specification]
#[verifier::external_body]
#[verifier::reject_recursive_types(N)]
#[verifier::reject_recursive_types(E)]
#[verifier::reject_recursive_types(Ty)]
#[verifier::reject_recursive_types(Ix)]
pub struct ExStableGraph<N, E, Ty, Ix>(StableGraph<N, E, Ty, Ix>);

/// `petgraph::Undirected`, the marker of graphs whose edges have no direction.
#[verifier::external_type_specification]
#[verifier::external_body]
pub struct ExUndirected(Undirected);

/// A network: nodes without payload, joined by links.
pub type Topology = StableGraph<u8, Connection, Undirected, u32>;

/// The links of a topology, each under its edge index.
pub uninterp spec fn topology_links(graph: Topology) -> Map<u32, Link>;

/// The node indices of a topology.
pub uninterp spec fn topology_nodes(graph: Topology) -> Set<u32>;

/// The indices of the links of a topology in the order in which they were
/// laid. `petgraph` keeps the links of each node in that order, newest
/// first, as its `add_edge` and `remove_edge` show; its documentation does
/// not say so. A freed index goes to the next link laid, so two topologies
/// with the same links under the same indices were laid in one order only.
pub uninterp spec fn topology_order(graph: Topology) -> Seq<u32>;

/// Which two nodes each link joins, whatever it carries.
pub open spec fn wiring(links: Map<u32, Link>) -> Map<u32, (u32, u32)> {
    Map::new(|e: u32| links.dom().contains(e), |e: u32| (links[e].a, links[e].b))
}

/// The path that the search of `shortest_path` finds from `from` to `to`.
/// The search reaches the links through the lists of each node only, and
/// those go by the wiring and the order of laying; this is read from the
/// source of `astar` and of `StableGraph`, whose documentation leaves open
/// which of several shortest paths comes out.
pub uninterp spec fn found_path(wires: Map<u32, (u32, u32)>, order: Seq<u32>, from: u32, to: u32) -> Option<Seq<u32>>;

/// The link that `find_link` finds between `a` and `b`. The lookup walks the
/// lists of `a`, which go by the wiring and the order of laying; this is read
/// from the source of `find_edge`, whose documentation leaves open which of
/// several links comes out.
pub uninterp spec fn found_link(wires: Map<u32, (u32, u32)>, order: Seq<u32>, a: u32, b: u32) -> Option<u32>;

/// The links of a topology without links.
pub open spec fn no_links() -> Map<u32, Link> {
    Map::empty()
}

/// Whether `ids` lists the indices of `links`, each once, in rising order.
pub open spec fn is_listing(links: Map<u32, Link>, ids: Seq<u32>) -> bool {
    &&& forall|i: int, j: int| 0 <= i < j < ids.len() ==> ids[i] < ids[j]
    &&& forall|e: u32| links.dom().contains(e) <==> ids.contains(e)
}

/// The indices below `bound` under which `links` holds a link, in rising
/// order.
pub open spec fn listing_below(links: Map<u32, Link>, bound: nat) -> Seq<u32>
    decreases bound,
{
    if bound == 0 {
        Seq::empty()
    } else if links.dom().contains((bound - 1) as u32) {
        listing_below(links, (bound - 1) as nat).push((bound - 1) as u32)
    } else {
        listing_below(links, (bound - 1) as nat)
    }
}

/// The indices of `links` in rising order: the order in which the links are
/// gone through.
pub open spec fn listing(links: Map<u32, Link>) -> Seq<u32> {
    listing_below(links, 0x1_0000_0000)
}

/// `listing_below` lists the indices below its bound, each once, in rising
/// order.
pub proof fn lemma_listing_below(links: Map<u32, Link>, bound: nat)
    requires
        bound <= 0x1_0000_0000,
    ensures
        forall|i: int, j: int| 0 <= i < j < listing_below(links, bound).len() ==> listing_below(links, bound)[i] < listing_below(links, bound)[j],
        forall|i: int| 0 <= i < listing_below(links, bound).len() ==> (#[trigger] listing_below(links, bound)[i]) < bound,
        forall|e: u32| (links.dom().contains(e) && e < bound) <==> listing_below(links, bound).contains(e),
    decreases bound,
{
    if bound > 0 {
        let rest = listing_below(links, (bound - 1) as nat);
        let top = (bound - 1) as u32;
        lemma_listing_below(links, (bound - 1) as nat);
        if links.dom().contains(top) {
            let all = rest.push(top);
            assert forall|e: u32| (links.dom().contains(e) && e < bound) <==> all.contains(e) by {
                if links.dom().contains(e) && e < bound {
                    if e == top {
                        assert(all[rest.len() as int] == e);
                    } else {
                        let i = choose|i: int| 0 <= i < rest.len() && rest[i] == e;
                        assert(all[i] == e);
                    }
                }
                if all.contains(e) {
                    let i = choose|i: int| 0 <= i < all.len() && all[i] == e;
                    if i < rest.len() {
                        assert(rest[i] == e);
                    }
                }
            }
        }
    }
}

/// `listing` is a listing, of whatever links.
pub proof fn lemma_listing(links: Map<u32, Link>)
    ensures
        is_listing(links, listing(links)),
{
    lemma_listing_below(links, 0x1_0000_0000);
}

/// Two listings of the same links agree on their first `k` entries.
pub proof fn lemma_listing_agrees(links: Map<u32, Link>, one: Seq<u32>, other: Seq<u32>, k: nat)
    requires
        is_listing(links, one),
        is_listing(links, other),
        k <= one.len(),
    ensures
        k <= other.len(),
        forall|i: int| 0 <= i < k ==> one[i] == other[i],
    decreases k,
{
    if k > 0 {
        lemma_listing_agrees(links, one, other, (k - 1) as nat);
        let x = one[k - 1];
        assert(one.contains(x));
        assert(other.contains(x));
        let m = choose|m: int| 0 <= m < other.len() && other[m] == x;
        if m < k - 1 {
            assert(one[m] == other[m]);
        } else if m > k - 1 {
            let y = other[k - 1];
            assert(other.contains(y));
            assert(one.contains(y));
            let m2 = choose|m2: int| 0 <= m2 < one.len() && one[m2] == y;
                assert(one[m2] == other[m2]);
        }
    }
}

/// The links have one listing only.
pub proof fn lemma_listing_unique(links: Map<u32, Link>, ids: Seq<u32>)
    requires
        is_listing(links, ids),
    ensures
        ids == listing(links),
{
    lemma_listing(links);
    lemma_listing_agrees(links, ids, listing(links), ids.len());
    lemma_listing_agrees(links, listing(links), ids, listing(links).len());
}

/// There are finitely many links.
pub proof fn lemma_links_finite(links: Map<u32, Link>)
    ensures
        links.dom().finite(),
{
    lemma_listing(links);
    vstd::seq_lib::seq_to_set_is_finite(listing(links));
    assert(links.dom() =~= listing(links).to_set());
}

/// `StableGraph::with_capacity`: a graph without nodes or links. The two
/// arguments only size its storage.
#[verifier::external_body]
pub(crate) fn empty_topology(nodes: usize, links: usize) -> (graph: Topology)
    ensures
        topology_links(graph) == no_links(),
        topology_nodes(graph) == Set::<u32>::empty(),
{
    StableGraph::with_capacity(nodes, links)
}

/// `Clone::clone` of `StableGraph`: a graph with the same nodes and links
/// under the same indices.
#[verifier::external_body]
pub(crate) fn copy_topology(graph: &Topology) -> (copy: Topology)
    ensures
        topology_links(copy) == topology_links(*graph),
        topology_nodes(copy) == topology_nodes(*graph),
        topology_order(copy) == topology_order(*graph),
{
    graph.clone()
}

/// `StableGraph::add_node`: adds a node under an index that no node had, and
/// returns the index. It panics on a graph that holds `u32::MAX` nodes, which
/// the precondition leaves out.
#[verifier::external_body]
pub(crate) fn add_node(graph: &mut Topology) -> (node: u32)
    requires
        topology_nodes(*old(graph)).len() < u32::MAX,
    ensures
        !topology_nodes(*old(graph)).contains(node),
        topology_nodes(*final(graph)) == topology_nodes(*old(graph)).insert(node),
        topology_links(*final(graph)) == topology_links(*old(graph)),
{
    graph.add_node(0).index() as u32
}

/// `StableGraph::add_edge`: adds a link between two nodes under an index that
/// no link had, and returns the index. Links between the same two nodes may
/// exist already. It panics where one of the nodes is missing or the graph
/// holds `u32::MAX` links, which the preconditions leave out.
#[verifier::external_body]
pub(crate) fn add_link(graph: &mut Topology, a: u32, b: u32, wire: Connection) -> (id: u32)
    requires
        topology_nodes(*old(graph)).contains(a),
        topology_nodes(*old(graph)).contains(b),
        topology_links(*old(graph)).dom().len() < u32::MAX,
    ensures
        !topology_links(*old(graph)).dom().contains(id),
        topology_links(*final(graph)) == topology_links(*old(graph)).insert(id, Link { a, b, wire }),
        topology_nodes(*final(graph)) == topology_nodes(*old(graph)),
{
    graph.add_edge(NodeIndex::new(a as usize), NodeIndex::new(b as usize), wire).index() as u32
}

/// `StableGraph::edge_indices`: the indices of all links, in rising order.
#[verifier::external_body]
pub(crate) fn link_ids(graph: &Topology) -> (ids: Vec<u32>)
    ensures
        is_listing(topology_links(*graph), ids@),
{
    graph.edge_indices().map(|e| e.index() as u32).collect()
}

/// `StableGraph::edge_weight`: what the link under an index carries, if there
/// is such a link.
#[verifier::external_body]
pub(crate) fn link_at(graph: &Topology, id: u32) -> (wire: Option<Connection>)
    ensures
        wire == (if topology_links(*graph).dom().contains(id) {
            Some(topology_links(*graph)[id].wire)
        } else {
            None
        }),
{
    graph.edge_weight(EdgeIndex::new(id as usize)).copied()
}

/// Assigning through an edge index of a `StableGraph`: replaces what the
/// link under the index carries; the link stays between its two nodes. It
/// panics where there is no such link, which the precondition leaves out.
#[verifier::external_body]
pub(crate) fn put_link(graph: &mut Topology, id: u32, wire: Connection)
    requires
        topology_links(*old(graph)).dom().contains(id),
    ensures
        topology_links(*final(graph)) == topology_links(*old(graph)).insert(
            id,
            Link { a: topology_links(*old(graph))[id].a, b: topology_links(*old(graph))[id].b, wire },
        ),
        topology_nodes(*final(graph)) == topology_nodes(*old(graph)),
        topology_order(*final(graph)) == topology_order(*old(graph)),
{
    graph[EdgeIndex::new(id as usize)] = wire;
}

/// `StableGraph::remove_edge`: takes the link under an index out of the
/// graph. The other links keep their indices, and the nodes stay.
#[verifier::external_body]
pub(crate) fn remove_link(graph: &mut Topology, id: u32)
    ensures
        topology_links(*final(graph)) == topology_links(*old(graph)).remove(id),
        topology_nodes(*final(graph)) == topology_nodes(*old(graph)),
{
    graph.remove_edge(EdgeIndex::new(id as usize));
}

/// `StableGraph::find_edge`: the index of a link between two nodes, if one
/// joins them. Where several do, it is one of them: the one that
/// `found_link` names.
#[verifier::external_body]
pub(crate) fn find_link(graph: &Topology, a: u32, b: u32) -> (id: Option<u32>)
    ensures
        match id {
            Some(e) => topology_links(*graph).dom().contains(e) && topology_links(*graph)[e].joins(a, b),
            None => forall|e: u32| topology_links(*graph).dom().contains(e) ==> !(#[trigger] topology_links(*graph)[e]).joins(a, b),
        },
        id == found_link(wiring(topology_links(*graph)), topology_order(*graph), a, b),
{
    graph.find_edge(NodeIndex::new(a as usize), NodeIndex::new(b as usize)).map(|e| e.index() as u32)
}

/// `petgraph::algo::astar` with a cost of one for every link and an estimate
/// of zero for every node: a walk from `from` to `to` that takes the fewest
/// hops, if any walk leads there. Where several take the fewest, it is one of
/// them: the one that `found_path` names.
#[verifier::external_body]
pub(crate) fn shortest_path(graph: &Topology, from: u32, to: u32) -> (found: Option<Vec<u32>>)
    ensures
        match found {
            Some(path) => is_shortest_walk(topology_links(*graph), from, to, path@),
            None => !reachable(topology_links(*graph), from, to),
        },
        match found {
            Some(path) => found_path(wiring(topology_links(*graph)), topology_order(*graph), from, to) == Some(path@),
            None => found_path(wiring(topology_links(*graph)), topology_order(*graph), from, to) is None,
        },
{
    let found = astar(
        graph,
        NodeIndex::new(from as usize),
        |node| arrived(node.index() as u32, to),
        |edge| hop_cost(edge.weight()),
        |node| hop_estimate(node.index() as u32),
    );
    found.map(|(_, path)| path.into_iter().map(|node| node.index() as u32).collect())
}

} // verus!
