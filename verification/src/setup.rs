//! Building topologies and demand matrices, and the sample network of twenty
//! nodes.

use vstd::prelude::*;
use crate::demand::Intensity;
use crate::failure::uniform;
use crate::flow::pair_before;
use crate::link::Connection;
use crate::link::Link;
use crate::link::DEFAULT_STABILITY;
use crate::topology::add_link;
use crate::topology::add_node;
use crate::topology::empty_topology;
use crate::topology::lemma_links_finite;
use crate::topology::no_links;
use crate::topology::topology_links;
use crate::topology::topology_nodes;
use crate::topology::Topology;

verus! {

/// The number of nodes of the sample network.
pub const NODES: usize = 20;

/// A link to lay: the positions of its two nodes in the list of nodes, and
/// its bandwidth.
pub type Cable = (usize, usize, u64);

/// The link that a cable becomes between the nodes of `nodes`: new, so
/// without flow and of the default stability.
pub open spec fn cable_link(nodes: Seq<u32>, cable: Cable) -> Link {
    Link {
        a: nodes[cable.0 as int],
        b: nodes[cable.1 as int],
        wire: Connection { bandwidth: cable.2, flow: 0, stability: DEFAULT_STABILITY },
    }
}

/// The links that the cables become, in their order.
pub open spec fn cable_links(nodes: Seq<u32>, cables: Seq<Cable>) -> Seq<Link> {
    Seq::new(cables.len(), |k: int| cable_link(nodes, cables[k]))
}

/// Whether `after` is `before` with the links `added` under the indices
/// `ids`, which are new and all different.
pub open spec fn placed(before: Map<u32, Link>, after: Map<u32, Link>, added: Seq<Link>, ids: Seq<u32>) -> bool {
    &&& ids.len() == added.len()
    &&& ids.no_duplicates()
    &&& forall|k: int| 0 <= k < ids.len() ==> !before.dom().contains(#[trigger] ids[k])
    &&& forall|e: u32| #[trigger] after.dom().contains(e) <==> before.dom().contains(e) || ids.contains(e)
    &&& forall|e: u32| before.dom().contains(e) ==> #[trigger] after[e] == before[e]
    &&& forall|k: int| 0 <= k < ids.len() ==> after[#[trigger] ids[k]] == added[k]
}

/// Whether `after` is `before` with the links `added`, each under an index of
/// its own that no link had.
pub open spec fn wired(before: Map<u32, Link>, after: Map<u32, Link>, added: Seq<Link>) -> bool {
    exists|ids: Seq<u32>| placed(before, after, added, ids)
}

/// Whether every position that the cables name is a position of `nodes`, and
/// the node there is one of `present`.
pub open spec fn cables_fit(cables: Seq<Cable>, nodes: Seq<u32>, present: Set<u32>) -> bool {
    forall|k: int|
        0 <= k < cables.len() ==> {
            &&& (#[trigger] cables[k]).0 < nodes.len()
            &&& cables[k].1 < nodes.len()
            &&& present.contains(nodes[cables[k].0 as int])
            &&& present.contains(nodes[cables[k].1 as int])
        }
}

/// Lays the cables: each becomes a new link between the two nodes at its
/// positions in `nodes`. Links that exist stay, also between the same nodes.
///
/// The nodes that the cables join must be nodes of the topology, and the
/// links must stay fewer than `u32::MAX`.
pub fn add_links(graph: &mut Topology, nodes: &Vec<u32>, cables: &Vec<Cable>)
    requires
        cables_fit(cables@, nodes@, topology_nodes(*old(graph))),
        topology_links(*old(graph)).dom().len() + cables.len() <= u32::MAX,
    ensures
        wired(topology_links(*old(graph)), topology_links(*final(graph)), cable_links(nodes@, cables@)),
        topology_nodes(*final(graph)) == topology_nodes(*old(graph)),
{
    let ghost before = topology_links(*graph);
    let ghost added = cable_links(nodes@, cables@);
    let ghost mut ids: Seq<u32> = Seq::empty();
    proof {
        lemma_links_finite(before);
    }
    let mut k: usize = 0;
    while k < cables.len()
        invariant
            k <= cables.len(),
            added == cable_links(nodes@, cables@),
            cables_fit(cables@, nodes@, topology_nodes(*graph)),
            topology_nodes(*graph) == topology_nodes(*old(graph)),
            before.dom().finite(),
            before.dom().len() + cables.len() <= u32::MAX,
            topology_links(*graph).dom().finite(),
            topology_links(*graph).dom().len() == before.dom().len() + k,
            placed(before, topology_links(*graph), added.take(k as int), ids),
        decreases cables.len() - k,
    {
        let ghost now = topology_links(*graph);
        let cable: Cable = cables[k];
        let id: u32 = add_link(graph, nodes[cable.0], nodes[cable.1], Connection::new(cable.2));
        proof {
            let grown = ids.push(id);
            assert(!ids.contains(id));
            assert forall|e: u32| #[trigger] topology_links(*graph).dom().contains(e) <==> before.dom().contains(e) || grown.contains(e) by {
                if grown.contains(e) {
                    let m = choose|m: int| 0 <= m < grown.len() && grown[m] == e;
                    if m < ids.len() {
                        assert(ids[m] == e);
                    }
                }
                if e == id {
                    assert(grown[ids.len() as int] == e);
                } else {
                    if ids.contains(e) {
                        let m = choose|m: int| 0 <= m < ids.len() && ids[m] == e;
                        assert(grown[m] == e);
                    }
                }
            }
            assert forall|m: int| 0 <= m < grown.len() implies topology_links(*graph)[#[trigger] grown[m]] == added.take(k + 1)[m] by {}
            assert forall|e: u32| before.dom().contains(e) implies #[trigger] topology_links(*graph)[e] == before[e] by {}
            ids = grown;
        }
        k = k + 1;
    }
    assert(added.take(k as int) =~= added);
}

/// The bandwidth of an access link of the sample network.
pub const GIGABIT: u64 = 1_000_000_000;

/// The bandwidth of a distribution link of the sample network.
pub const TEN_GIGABIT: u64 = 10_000_000_000;

/// The bandwidth of a backbone link of the sample network.
pub const HUNDRED_GIGABIT: u64 = 100_000_000_000;

/// The unit of the demands of the sample network.
pub const MEGABIT: u64 = 1_000_000;

/// The cables of the sample network: a tree, then links between the
/// distribution nodes, then links between neighbouring access nodes.
pub open spec fn sample_cables() -> Seq<Cable> {
    seq![
        (0usize, 3usize, GIGABIT),
        (1usize, 3usize, GIGABIT),
        (2usize, 3usize, GIGABIT),
        (3usize, 4usize, TEN_GIGABIT),
        (4usize, 5usize, TEN_GIGABIT),
        (5usize, 6usize, GIGABIT),
        (5usize, 7usize, GIGABIT),
        (5usize, 8usize, GIGABIT),
        (4usize, 9usize, HUNDRED_GIGABIT),
        (9usize, 10usize, TEN_GIGABIT),
        (10usize, 11usize, GIGABIT),
        (10usize, 12usize, GIGABIT),
        (9usize, 13usize, HUNDRED_GIGABIT),
        (13usize, 14usize, TEN_GIGABIT),
        (14usize, 15usize, GIGABIT),
        (14usize, 16usize, GIGABIT),
        (13usize, 17usize, TEN_GIGABIT),
        (17usize, 18usize, GIGABIT),
        (17usize, 19usize, GIGABIT),
        (3usize, 5usize, TEN_GIGABIT),
        (3usize, 10usize, TEN_GIGABIT),
        (5usize, 14usize, TEN_GIGABIT),
        (14usize, 17usize, TEN_GIGABIT),
        (10usize, 17usize, TEN_GIGABIT),
        (0usize, 1usize, GIGABIT),
        (1usize, 2usize, GIGABIT),
        (6usize, 7usize, GIGABIT),
        (7usize, 8usize, GIGABIT),
        (11usize, 12usize, GIGABIT),
        (15usize, 16usize, GIGABIT),
        (18usize, 19usize, GIGABIT),
    ]
}

/// Lays the cables of the sample network between the first `NODES` nodes of
/// `nodes`.
///
/// Those nodes must be nodes of the topology, and the links must stay fewer
/// than `u32::MAX`.
pub fn set_edges(graph: &mut Topology, nodes: &Vec<u32>)
    requires
        nodes.len() >= NODES,
        forall|i: int| 0 <= i < NODES ==> topology_nodes(*old(graph)).contains(#[trigger] nodes[i]),
        topology_links(*old(graph)).dom().len() + sample_cables().len() <= u32::MAX,
    ensures
        wired(topology_links(*old(graph)), topology_links(*final(graph)), cable_links(nodes@, sample_cables())),
        topology_nodes(*final(graph)) == topology_nodes(*old(graph)),
{
    let cables: Vec<Cable> = vec![
        (0, 3, GIGABIT),
        (1, 3, GIGABIT),
        (2, 3, GIGABIT),
        (3, 4, TEN_GIGABIT),
        (4, 5, TEN_GIGABIT),
        (5, 6, GIGABIT),
        (5, 7, GIGABIT),
        (5, 8, GIGABIT),
        (4, 9, HUNDRED_GIGABIT),
        (9, 10, TEN_GIGABIT),
        (10, 11, GIGABIT),
        (10, 12, GIGABIT),
        (9, 13, HUNDRED_GIGABIT),
        (13, 14, TEN_GIGABIT),
        (14, 15, GIGABIT),
        (14, 16, GIGABIT),
        (13, 17, TEN_GIGABIT),
        (17, 18, GIGABIT),
        (17, 19, GIGABIT),
        (3, 5, TEN_GIGABIT),
        (3, 10, TEN_GIGABIT),
        (5, 14, TEN_GIGABIT),
        (14, 17, TEN_GIGABIT),
        (10, 17, TEN_GIGABIT),
        (0, 1, GIGABIT),
        (1, 2, GIGABIT),
        (6, 7, GIGABIT),
        (7, 8, GIGABIT),
        (11, 12, GIGABIT),
        (15, 16, GIGABIT),
        (18, 19, GIGABIT),
    ];
    add_links(graph, nodes, &cables);
}

/// Whether `cables` is a cabling that `set_edges2` may draw: one cable from
/// each of the `NODES` nodes in turn, then ten more from anywhere, each to
/// any of the nodes and with a bandwidth from 1000 up to, not including,
/// 10000.
pub open spec fn is_random_cabling(cables: Seq<Cable>) -> bool {
    &&& cables.len() == NODES + 10
    &&& forall|k: int|
        0 <= k < cables.len() ==> {
            &&& (#[trigger] cables[k]).0 < NODES
            &&& k < NODES ==> cables[k].0 == k
            &&& cables[k].1 < NODES
            &&& 1000 <= cables[k].2 < 10000
        }
}

/// Draws a random cabling.
pub fn random_cables() -> (cables: Vec<Cable>)
    ensures
        is_random_cabling(cables@),
{
    let mut cables: Vec<Cable> = Vec::new();
    let mut k: usize = 0;
    while k < NODES + 10
        invariant
            k <= NODES + 10,
            cables@.len() == k,
            forall|m: int|
                0 <= m < k ==> {
                    &&& (#[trigger] cables@[m]).0 < NODES
                    &&& m < NODES ==> cables@[m].0 == m
                    &&& cables@[m].1 < NODES
                    &&& 1000 <= cables@[m].2 < 10000
                },
        decreases NODES + 10 - k,
    {
        let from: usize = if k < NODES {
            k
        } else {
            uniform(0, NODES as u64) as usize
        };
        let to: usize = uniform(0, NODES as u64) as usize;
        let bandwidth: u64 = uniform(1000, 10000);
        cables.push((from, to, bandwidth));
        k = k + 1;
    }
    cables
}

/// Lays a random cabling between the first `NODES` nodes of `nodes`.
///
/// Those nodes must be nodes of the topology, and the links must stay fewer
/// than `u32::MAX`.
pub fn set_edges2(graph: &mut Topology, nodes: &Vec<u32>)
    requires
        nodes.len() >= NODES,
        forall|i: int| 0 <= i < NODES ==> topology_nodes(*old(graph)).contains(#[trigger] nodes[i]),
        topology_links(*old(graph)).dom().len() + NODES + 10 <= u32::MAX,
    ensures
        exists|cables: Seq<Cable>| is_random_cabling(cables)
            && #[trigger] wired(topology_links(*old(graph)), topology_links(*final(graph)), cable_links(nodes@, cables)),
        topology_nodes(*final(graph)) == topology_nodes(*old(graph)),
{
    let cables = random_cables();
    add_links(graph, nodes, &cables);
}

/// The class of traffic of the node at position `i` of the sample network:
/// 0 for an access node, 1 for a distribution node, 2 for a backbone node.
pub open spec fn tier(i: int) -> int {
    if i == 3 || i == 5 || i == 10 || i == 14 || i == 17 {
        1
    } else if i == 4 || i == 9 || i == 13 {
        2
    } else {
        0
    }
}

/// The demand between two nodes of the given classes.
pub open spec fn tier_demand(one: int, other: int) -> u64 {
    if one == 0 && other == 0 {
        10_000_000
    } else if one + other == 1 {
        20_000_000
    } else if one == 1 && other == 1 {
        40_000_000
    } else if one + other == 2 {
        30_000_000
    } else if one + other == 3 {
        60_000_000
    } else {
        80_000_000
    }
}

/// The demand between the nodes at positions `i` and `j` of the sample
/// network.
pub open spec fn pair_demand(i: int, j: int) -> u64 {
    tier_demand(tier(i), tier(j))
}

/// The class of traffic of the node at position `i`.
pub fn tier_of(i: usize) -> (class: u8)
    ensures
        class == tier(i as int),
{
    if i == 3 || i == 5 || i == 10 || i == 14 || i == 17 {
        1
    } else if i == 4 || i == 9 || i == 13 {
        2
    } else {
        0
    }
}

/// The demand between the nodes at positions `i` and `j` of the sample
/// network.
pub fn demand_between(i: usize, j: usize) -> (volume: u64)
    ensures
        volume == pair_demand(i as int, j as int),
{
    let one: u8 = tier_of(i);
    let other: u8 = tier_of(j);
    if one == 0 && other == 0 {
        10 * MEGABIT
    } else if one + other == 1 {
        20 * MEGABIT
    } else if one == 1 && other == 1 {
        40 * MEGABIT
    } else if one + other == 2 {
        30 * MEGABIT
    } else if one + other == 3 {
        60 * MEGABIT
    } else {
        80 * MEGABIT
    }
}

/// The matrix `rows` with the demands of the sample network written over the
/// entries `(r, c)` of the pairs before `(i, j)`.
pub open spec fn overlaid_upto(rows: Seq<Seq<u64>>, i: int, j: int) -> Seq<Seq<u64>> {
    Seq::new(
        rows.len(),
        |r: int|
            Seq::new(
                rows[r].len(),
                |c: int|
                    if pair_before(NODES as int, i, j, r, c) {
                        pair_demand(r, c)
                    } else {
                        rows[r][c]
                    },
            ),
    )
}

/// The matrix `rows` with the demands of the sample network written over the
/// entries `(r, c)` with `r < c < NODES`.
pub open spec fn overlaid(rows: Seq<Seq<u64>>) -> Seq<Seq<u64>> {
    Seq::new(
        rows.len(),
        |r: int|
            Seq::new(
                rows[r].len(),
                |c: int|
                    if 0 <= r < c < NODES {
                        pair_demand(r, c)
                    } else {
                        rows[r][c]
                    },
            ),
    )
}

/// Writes the demands of the sample network: the entry `(i, j)`, for
/// `i < j < NODES`, becomes the demand between the nodes at positions `i` and
/// `j`. The other entries stay.
///
/// The matrix must have `NODES` rows or more.
pub fn set_intensity(intensity: &mut Intensity)
    requires
        old(intensity)@.len() >= NODES,
    ensures
        final(intensity)@ == overlaid(old(intensity)@),
{
    let size: usize = intensity.size();
    let ghost rows = intensity@;
    let mut i: usize = 0;
    assert(intensity@ =~~= overlaid_upto(rows, 0, 1));
    while i < NODES
        invariant
            i <= NODES,
            NODES <= size,
            size == rows.len(),
            forall|r: int| 0 <= r < size ==> (#[trigger] rows[r]).len() == size,
            intensity@ == overlaid_upto(rows, i as int, i + 1),
        decreases NODES - i,
    {
        let mut j: usize = i + 1;
        while j < NODES
            invariant
                i < NODES,
                i < j <= NODES,
                NODES <= size,
                size == rows.len(),
                forall|r: int| 0 <= r < size ==> (#[trigger] rows[r]).len() == size,
                intensity@ == overlaid_upto(rows, i as int, j as int),
            decreases NODES - j,
        {
            intensity.set(i, j, demand_between(i, j));
            assert(intensity@ =~~= overlaid_upto(rows, i as int, j + 1));
            j = j + 1;
        }
        assert(overlaid_upto(rows, i as int, NODES as int) =~~= overlaid_upto(rows, i + 1, i + 2));
        i = i + 1;
    }
    assert(overlaid_upto(rows, NODES as int, NODES + 1) =~~= overlaid(rows));
}

/// The demand matrix of the sample network.
pub open spec fn sample_demand() -> Seq<Seq<u64>> {
    Seq::new(
        NODES as nat,
        |r: int|
            Seq::new(
                NODES as nat,
                |c: int|
                    if r < c {
                        pair_demand(r, c)
                    } else {
                        0
                    },
            ),
    )
}

/// Builds a topology of `count` nodes without links, with room for `room`
/// links, and the list of its nodes.
pub fn build_topology(count: usize, room: usize) -> (built: (Topology, Vec<u32>))
    requires
        count <= u32::MAX,
    ensures
        built.1@.len() == count,
        built.1@.no_duplicates(),
        topology_nodes(built.0) == built.1@.to_set(),
        topology_links(built.0) == no_links(),
{
    let mut graph = empty_topology(count, room);
    let mut nodes: Vec<u32> = Vec::new();
    let mut k: usize = 0;
    while k < count
        invariant
            k <= count,
            count <= u32::MAX,
            nodes@.len() == k,
            nodes@.no_duplicates(),
            topology_nodes(graph) == nodes@.to_set(),
            topology_nodes(graph).finite(),
            topology_nodes(graph).len() <= k,
            topology_links(graph) == no_links(),
        decreases count - k,
    {
        let ghost earlier = nodes@;
        let node: u32 = add_node(&mut graph);
        nodes.push(node);
        proof {
            assert(nodes@.to_set() =~= earlier.to_set().insert(node)) by {
                assert forall|x: u32| nodes@.to_set().contains(x) <==> earlier.to_set().insert(node).contains(x) by {
                    if nodes@.contains(x) {
                        let m = choose|m: int| 0 <= m < nodes@.len() && nodes@[m] == x;
                        if m < earlier.len() {
                            assert(earlier[m] == x);
                        }
                    }
                    if earlier.contains(x) {
                        let m = choose|m: int| 0 <= m < earlier.len() && earlier[m] == x;
                        assert(nodes@[m] == x);
                    }
                    if x == node {
                        assert(nodes@[earlier.len() as int] == x);
                    }
                }
            }
        }
        k = k + 1;
    }
    (graph, nodes)
}

/// Builds the sample network: a topology of `NODES` nodes joined by the
/// cables of the sample network, the list of its nodes, and its demand
/// matrix.
pub fn init_graph() -> (built: (Topology, Vec<u32>, Intensity))
    ensures
        built.1@.len() == NODES,
        built.1@.no_duplicates(),
        topology_nodes(built.0) == built.1@.to_set(),
        wired(no_links(), topology_links(built.0), cable_links(built.1@, sample_cables())),
        built.2@ == sample_demand(),
{
    let (mut graph, nodes) = build_topology(NODES, 30);
    proof {
        assert forall|i: int| 0 <= i < nodes@.len() implies topology_nodes(graph).contains(#[trigger] nodes@[i]) by {}
    }
    set_edges(&mut graph, &nodes);
    let mut intensity = Intensity::blank(NODES);
    set_intensity(&mut intensity);
    assert(intensity@ =~~= sample_demand());
    (graph, nodes, intensity)
}

} // verus!
