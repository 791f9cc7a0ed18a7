//! Routing: the traffic of each pair of nodes goes along a shortest path and
//! adds to the flow of every link on it.

use vstd::prelude::*;
use crate::demand::is_square;
use crate::demand::lemma_range_sum_from;
use crate::demand::lemma_range_sum_grows;
use crate::demand::lemma_rows_sum_grows;
use crate::demand::range_sum;
use crate::demand::rows_sum;
use crate::demand::total;
use crate::demand::Intensity;
use crate::link::Connection;
use crate::link::Link;
use crate::topology::find_link;
use crate::topology::found_link;
use crate::topology::found_path;
use crate::topology::is_listing;
use crate::topology::link_at;
use crate::topology::link_ids;
use crate::topology::put_link;
use crate::topology::shortest_path;
use crate::topology::topology_links;
use crate::topology::topology_nodes;
use crate::topology::topology_order;
use crate::topology::wiring;
use crate::topology::Topology;
use crate::walk::follows;
use crate::walk::hop_ok;
use crate::walk::is_route;
use crate::walk::is_shortest_walk;
use crate::walk::is_walk;
use crate::walk::lemma_same_wiring;
use crate::walk::lemma_shortest_is_simple;
use crate::walk::lemma_simple_path_links;
use crate::walk::reachable;
use crate::walk::same_wiring;
use crate::walk::step_ok;

verus! {

/// The links with no flow on any of them.
pub open spec fn unladen(links: Map<u32, Link>) -> Map<u32, Link> {
    Map::new(|e: u32| links.dom().contains(e), |e: u32| links[e].carrying(0))
}

/// Whether `after` has the links of `before`, each between the same nodes
/// with the same bandwidth and stability: only flows may differ.
pub open spec fn same_but_flow(before: Map<u32, Link>, after: Map<u32, Link>) -> bool {
    &&& after.dom() == before.dom()
    &&& forall|e: u32| before.dom().contains(e) ==> #[trigger] after[e] == before[e].carrying(after[e].wire.flow)
}

/// The routes chosen for the pairs of nodes: under `(i, j)`, for `i < j`, the
/// links that carry the traffic between the nodes at positions `i` and `j`.
pub type Plan = Map<(int, int), Seq<u32>>;

/// Whether `plan` routes the pair at positions `i` and `j` rightly: along a
/// route between the two nodes if one can reach the other, and over no link
/// if not.
pub open spec fn routes_pair(links: Map<u32, Link>, nodes: Seq<u32>, plan: Plan, i: int, j: int) -> bool {
    &&& plan.dom().contains((i, j))
    &&& if reachable(links, nodes[i], nodes[j]) {
        is_route(links, nodes[i], nodes[j], plan[(i, j)])
    } else {
        plan[(i, j)].len() == 0
    }
}

/// Whether `(a, b)` is a pair of positions, `a < b < n`, that comes before
/// `(i, j)` when the pairs are taken row by row.
pub open spec fn pair_before(n: int, i: int, j: int, a: int, b: int) -> bool {
    0 <= a < b < n && (a < i || (a == i && b < j))
}

/// Whether `plan` routes every pair of positions rightly.
pub open spec fn routes_all(links: Map<u32, Link>, nodes: Seq<u32>, plan: Plan) -> bool {
    forall|a: int, b: int| 0 <= a < b < nodes.len() ==> #[trigger] routes_pair(links, nodes, plan, a, b)
}

/// Whether the node at position `a` of `nodes` can reach the one at `b`.
pub open spec fn pair_reachable(links: Map<u32, Link>, nodes: Seq<u32>, a: int, b: int) -> bool {
    reachable(links, nodes[a], nodes[b])
}

/// Whether every node of `nodes` can reach every other.
pub open spec fn all_reachable(links: Map<u32, Link>, nodes: Seq<u32>) -> bool {
    forall|a: int, b: int| 0 <= a < b < nodes.len() ==> #[trigger] pair_reachable(links, nodes, a, b)
}

/// How many of the pairs `(i, j)` with `i < j < hi` are two nodes without a
/// path between them.
pub open spec fn row_unreachable(links: Map<u32, Link>, nodes: Seq<u32>, i: int, hi: int) -> nat
    decreases hi - i,
{
    if hi <= i + 1 {
        0
    } else {
        row_unreachable(links, nodes, i, hi - 1) + (if pair_reachable(links, nodes, i, hi - 1) {
            0nat
        } else {
            1nat
        })
    }
}

/// How many of the pairs `(i, j)` with `i < rows` and `i < j` are two nodes
/// without a path between them.
pub open spec fn unreachable_pairs(links: Map<u32, Link>, nodes: Seq<u32>, rows: int) -> nat
    decreases rows,
{
    if rows <= 0 {
        0
    } else {
        unreachable_pairs(links, nodes, rows - 1) + row_unreachable(links, nodes, rows - 1, nodes.len() as int)
    }
}

/// Whether `plan` routes every pair before `(i, j)` rightly.
pub open spec fn routes_before(links: Map<u32, Link>, nodes: Seq<u32>, plan: Plan, i: int, j: int) -> bool {
    forall|a: int, b: int| pair_before(nodes.len() as int, i, j, a, b) ==> #[trigger] routes_pair(links, nodes, plan, a, b)
}

/// What the pair at positions `i` and `j` puts on link `e`: its whole demand
/// if its route runs over the link, nothing if not.
pub open spec fn share(plan: Plan, demand: Seq<Seq<u64>>, e: u32, i: int, j: int) -> nat {
    if plan[(i, j)].contains(e) {
        demand[i][j] as nat
    } else {
        0
    }
}

/// What the pairs `(i, j)` with `i < j < hi` put on link `e`.
pub open spec fn row_load(plan: Plan, demand: Seq<Seq<u64>>, e: u32, i: int, hi: int) -> nat
    decreases hi - i,
{
    if hi <= i + 1 {
        0
    } else {
        row_load(plan, demand, e, i, hi - 1) + share(plan, demand, e, i, hi - 1)
    }
}

/// What the pairs `(i, j)` with `i < rows` and `i < j < n` put on link `e`.
pub open spec fn load(plan: Plan, demand: Seq<Seq<u64>>, e: u32, n: int, rows: int) -> nat
    decreases rows,
{
    if rows <= 0 {
        0
    } else {
        load(plan, demand, e, n, rows - 1) + row_load(plan, demand, e, rows - 1, n)
    }
}

/// The demand of the pairs `(i, j)` with `i < rows` and `i < j < n`.
pub open spec fn pair_total(demand: Seq<Seq<u64>>, n: int, rows: int) -> nat
    decreases rows,
{
    if rows <= 0 {
        0
    } else {
        pair_total(demand, n, rows - 1) + range_sum(demand[rows - 1], rows, n)
    }
}

/// Whether `after` is `before` with the traffic of the first `n` positions
/// added along the routes of `plan`.
pub open spec fn carries(before: Map<u32, Link>, after: Map<u32, Link>, n: int, demand: Seq<Seq<u64>>, plan: Plan) -> bool {
    &&& same_but_flow(before, after)
    &&& forall|e: u32| before.dom().contains(e) ==> (#[trigger] after[e]).wire.flow == before[e].wire.flow + load(plan, demand, e, n, n)
}

/// The links along `path` that the lookup of links finds, one for each hop;
/// none for a path without nodes.
pub open spec fn found_links(wires: Map<u32, (u32, u32)>, order: Seq<u32>, path: Seq<u32>) -> Seq<u32> {
    if path.len() == 0 {
        Seq::empty()
    } else {
        Seq::new(
            (path.len() - 1) as nat,
            |k: int|
                match found_link(wires, order, path[k], path[k + 1]) {
                    Some(e) => e,
                    None => 0u32,
                },
        )
    }
}

/// The links that carry the traffic from `from` to `to`: those along the
/// path that the search finds, and none where it finds no path.
pub open spec fn found_route(wires: Map<u32, (u32, u32)>, order: Seq<u32>, from: u32, to: u32) -> Seq<u32> {
    match found_path(wires, order, from, to) {
        Some(path) => found_links(wires, order, path),
        None => Seq::empty(),
    }
}

/// The routes that the search finds for the pairs of positions of `nodes`.
pub open spec fn found_plan(wires: Map<u32, (u32, u32)>, order: Seq<u32>, nodes: Seq<u32>) -> Plan {
    Map::new(
        |pair: (int, int)| 0 <= pair.0 < pair.1 < nodes.len(),
        |pair: (int, int)| found_route(wires, order, nodes[pair.0], nodes[pair.1]),
    )
}

/// Whether `after` is what routing along the routes that the search finds
/// makes of `before`, and those routes are routes.
pub open spec fn routed_as_found(before: Map<u32, Link>, order: Seq<u32>, nodes: Seq<u32>, demand: Seq<Seq<u64>>, after: Map<u32, Link>) -> bool {
    &&& routes_all(before, nodes, found_plan(wiring(before), order, nodes))
    &&& carries(before, after, nodes.len() as int, demand, found_plan(wiring(before), order, nodes))
}

/// Whether `after` is what routing the demand between `nodes` makes of
/// `before`: every pair of positions `i < j` sends its demand along a route
/// between its two nodes, where one can reach the other, and the flow of each
/// link grows by the demand of the pairs routed over it.
pub open spec fn routed(before: Map<u32, Link>, nodes: Seq<u32>, demand: Seq<Seq<u64>>, after: Map<u32, Link>) -> bool {
    exists|plan: Plan| routes_all(before, nodes, plan) && #[trigger] carries(before, after, nodes.len() as int, demand, plan)
}

/// Resetting changes flows only, and leaves none.
pub proof fn lemma_unladen(links: Map<u32, Link>)
    ensures
        same_but_flow(links, unladen(links)),
        same_wiring(links, unladen(links)),
        forall|e: u32| links.dom().contains(e) ==> (#[trigger] unladen(links)[e]).wire.flow == 0,
{
    assert(unladen(links).dom() =~= links.dom());
}

/// Links that differ in flow only are wired alike.
pub proof fn lemma_same_wires(before: Map<u32, Link>, after: Map<u32, Link>)
    requires
        same_but_flow(before, after),
    ensures
        wiring(after) == wiring(before),
        same_wiring(before, after),
{
    assert(wiring(after) =~= wiring(before));
}

/// Links that are wired alike join the same nodes of a list.
pub proof fn lemma_same_reach(one: Map<u32, Link>, other: Map<u32, Link>, nodes: Seq<u32>)
    requires
        same_wiring(one, other),
    ensures
        all_reachable(one, nodes) == all_reachable(other, nodes),
{
    lemma_same_wiring(one, other);
    assert forall|a: int, b: int| pair_reachable(one, nodes, a, b) == pair_reachable(other, nodes, a, b) by {}
}

/// No more pairs of a row are unreachable than the row has, and none is
/// exactly if each of its nodes can reach the first.
pub proof fn lemma_row_unreachable(links: Map<u32, Link>, nodes: Seq<u32>, i: int, hi: int)
    ensures
        row_unreachable(links, nodes, i, hi) <= (if hi <= i + 1 {
            0
        } else {
            hi - i - 1
        }),
        row_unreachable(links, nodes, i, hi) == 0 <==> forall|b: int| i < b < hi ==> #[trigger] pair_reachable(links, nodes, i, b),
    decreases hi - i,
{
    if hi > i + 1 {
        lemma_row_unreachable(links, nodes, i, hi - 1);
        if row_unreachable(links, nodes, i, hi) == 0 {
            assert forall|b: int| i < b < hi implies #[trigger] pair_reachable(links, nodes, i, b) by {}
        }
    }
}

/// No more pairs are unreachable than there are, and none is exactly if every
/// node can reach every other.
pub proof fn lemma_unreachable_pairs(links: Map<u32, Link>, nodes: Seq<u32>, rows: int)
    requires
        rows <= nodes.len(),
    ensures
        unreachable_pairs(links, nodes, rows) <= (if rows <= 0 {
            0
        } else {
            rows * nodes.len()
        }),
        unreachable_pairs(links, nodes, rows) == 0 <==> forall|a: int, b: int|
            0 <= a < rows && a < b < nodes.len() ==> #[trigger] pair_reachable(links, nodes, a, b),
        rows == nodes.len() ==> (unreachable_pairs(links, nodes, rows) == 0 <==> all_reachable(links, nodes)),
    decreases rows,
{
    let n = nodes.len() as int;
    if rows > 0 {
        lemma_unreachable_pairs(links, nodes, rows - 1);
        lemma_row_unreachable(links, nodes, rows - 1, n);
        assert((rows - 1) * n + n == rows * n) by (nonlinear_arith);
        if unreachable_pairs(links, nodes, rows) == 0 {
            assert forall|a: int, b: int| 0 <= a < rows && a < b < n implies #[trigger] pair_reachable(links, nodes, a, b) by {}
        }
    }
}

/// A pair puts on a link no more than its demand, so a row of pairs no more
/// than the demand of the row.
pub proof fn lemma_row_load_bound(plan: Plan, demand: Seq<Seq<u64>>, e: u32, i: int, hi: int)
    ensures
        row_load(plan, demand, e, i, hi) <= range_sum(demand[i], i + 1, hi),
    decreases hi - i,
{
    if hi > i + 1 {
        lemma_row_load_bound(plan, demand, e, i, hi - 1);
    }
}

/// The pairs of the first rows put on a link no more than their demand.
pub proof fn lemma_load_bound(plan: Plan, demand: Seq<Seq<u64>>, e: u32, n: int, rows: int)
    ensures
        load(plan, demand, e, n, rows) <= pair_total(demand, n, rows),
    decreases rows,
{
    if rows > 0 {
        lemma_load_bound(plan, demand, e, n, rows - 1);
        lemma_row_load_bound(plan, demand, e, rows - 1, n);
    }
}

/// More rows of pairs demand no less.
pub proof fn lemma_pair_total_grows(demand: Seq<Seq<u64>>, n: int, rows: int, further: int)
    requires
        rows <= further,
    ensures
        pair_total(demand, n, rows) <= pair_total(demand, n, further),
    decreases further - rows,
{
    if rows < further {
        lemma_pair_total_grows(demand, n, rows, further - 1);
    }
}

/// The pairs demand no more than the whole matrix holds.
pub proof fn lemma_pair_total_within(demand: Seq<Seq<u64>>, n: int, rows: int)
    requires
        0 <= rows <= n <= demand.len(),
        is_square(demand),
    ensures
        pair_total(demand, n, rows) <= rows_sum(demand, rows),
        pair_total(demand, n, rows) <= total(demand),
    decreases rows,
{
    if rows > 0 {
        lemma_pair_total_within(demand, n, rows - 1);
        let row = demand[rows - 1];
        lemma_range_sum_from(row, rows, n, 0);
        lemma_range_sum_grows(row, 0, n, row.len() as int);
    }
    lemma_rows_sum_grows(demand, rows, demand.len() as int);
}

/// A row of pairs puts the same on a link under two plans that route each
/// pair of the row over the link or past it alike.
pub proof fn lemma_row_load_agrees(one: Plan, other: Plan, demand: Seq<Seq<u64>>, e: u32, i: int, hi: int)
    requires
        forall|j: int| i < j < hi ==> #[trigger] share(one, demand, e, i, j) == share(other, demand, e, i, j),
    ensures
        row_load(one, demand, e, i, hi) == row_load(other, demand, e, i, hi),
    decreases hi - i,
{
    if hi > i + 1 {
        lemma_row_load_agrees(one, other, demand, e, i, hi - 1);
    }
}

/// Two plans that route each pair over a link or past it alike put the same
/// on the link.
pub proof fn lemma_load_agrees(one: Plan, other: Plan, demand: Seq<Seq<u64>>, e: u32, n: int, rows: int)
    requires
        forall|i: int, j: int| 0 <= i < rows && i < j < n ==> #[trigger] share(one, demand, e, i, j) == share(other, demand, e, i, j),
    ensures
        load(one, demand, e, n, rows) == load(other, demand, e, n, rows),
    decreases rows,
{
    if rows > 0 {
        lemma_load_agrees(one, other, demand, e, n, rows - 1);
        lemma_row_load_agrees(one, other, demand, e, rows - 1, n);
    }
}

/// Sets the flow of every link to zero.
pub fn reset_flow(graph: &mut Topology)
    ensures
        topology_links(*final(graph)) == unladen(topology_links(*old(graph))),
        topology_nodes(*final(graph)) == topology_nodes(*old(graph)),
        topology_order(*final(graph)) == topology_order(*old(graph)),
{
    let ghost before = topology_links(*graph);
    let ids = link_ids(graph);
    let mut k: usize = 0;
    assert forall|i: int| 0 <= i < ids@.len() implies before.dom().contains(#[trigger] ids@[i]) by {
        assert(ids@.contains(ids@[i]));
    }
    while k < ids.len()
        invariant
            k <= ids.len(),
            is_listing(before, ids@),
            topology_nodes(*graph) == topology_nodes(*old(graph)),
            topology_order(*graph) == topology_order(*old(graph)),
            topology_links(*graph).dom() == before.dom(),
            forall|i: int| 0 <= i < ids.len() ==> before.dom().contains(#[trigger] ids[i]) && topology_links(*graph)[ids[i]] == (if i < k {
                before[ids[i]].carrying(0)
            } else {
                before[ids[i]]
            }),
        decreases ids.len() - k,
    {
        let id: u32 = ids[k];
        assert(ids@.contains(id));
        match link_at(graph, id) {
            Some(wire) => {
                put_link(graph, id, Connection { bandwidth: wire.bandwidth, flow: 0, stability: wire.stability });
            },
            None => {},
        }
        k = k + 1;
    }
    assert(topology_links(*graph) =~= unladen(before)) by {
        assert forall|e: u32| before.dom().contains(e) implies topology_links(*graph)[e] == before[e].carrying(0) by {
            assert(ids@.contains(e));
            let i = choose|i: int| 0 <= i < ids@.len() && ids@[i] == e;
            assert(topology_links(*graph)[ids[i]] == before[ids[i]].carrying(0));
        }
    }
}

/// Sends `volume` along `path`: adds it to the flow of one link for each hop,
/// and returns the links it took, in order. Where several links join two
/// nodes that follow each other, it takes the one that the lookup of links
/// finds.
///
/// The path must lead through the topology, each node joined to the next by
/// a link, and pass no node twice; `route` hands it the paths that the search
/// finds, which are such. The flows must leave room for the volume.
pub fn carry(graph: &mut Topology, path: &Vec<u32>, volume: u64) -> (edges: Vec<u32>)
    requires
        path@.len() > 0,
        path@.no_duplicates(),
        forall|k: int| 0 <= k < path@.len() - 1 ==> #[trigger] step_ok(topology_links(*old(graph)), path@, k),
        forall|e: u32| topology_links(*old(graph)).dom().contains(e) ==> (#[trigger] topology_links(*old(graph))[e]).wire.flow + volume <= u64::MAX,
    ensures
        follows(topology_links(*old(graph)), path@, edges@),
        edges@ == found_links(wiring(topology_links(*old(graph))), topology_order(*old(graph)), path@),
        topology_order(*final(graph)) == topology_order(*old(graph)),
        edges@.no_duplicates(),
        same_but_flow(topology_links(*old(graph)), topology_links(*final(graph))),
        forall|e: u32| topology_links(*old(graph)).dom().contains(e) ==> (#[trigger] topology_links(*final(graph))[e]).wire.flow
            == topology_links(*old(graph))[e].wire.flow + (if edges@.contains(e) { volume as int } else { 0 }),
        topology_nodes(*final(graph)) == topology_nodes(*old(graph)),
{
    let ghost before = topology_links(*graph);
    let ghost order = topology_order(*graph);
    let ghost wires = wiring(before);
    let ghost mut edges: Seq<u32> = Seq::empty();
    let mut taken: Vec<u32> = Vec::new();
    let mut k: usize = 0;
    while k + 1 < path.len()
        invariant
            k + 1 <= path.len(),
            edges.len() == k,
            taken@ == edges,
            wires == wiring(before),
            topology_order(*graph) == order,
            forall|i: int| 0 <= i < k ==> found_link(wires, order, path@[i], path@[i + 1]) == Some(#[trigger] edges[i]),
            path@.no_duplicates(),
            forall|i: int| 0 <= i < path@.len() - 1 ==> #[trigger] step_ok(before, path@, i),
            forall|e: u32| before.dom().contains(e) ==> (#[trigger] before[e]).wire.flow + volume <= u64::MAX,
            forall|i: int| 0 <= i < k ==> #[trigger] hop_ok(before, path@, edges, i),
            same_but_flow(before, topology_links(*graph)),
            forall|e: u32| before.dom().contains(e) ==> (#[trigger] topology_links(*graph)[e]).wire.flow
                == before[e].wire.flow + (if edges.contains(e) { volume as int } else { 0 }),
            topology_nodes(*graph) == topology_nodes(*old(graph)),
        decreases path.len() - k,
    {
        let ghost now = topology_links(*graph);
        let a: u32 = path[k];
        let b: u32 = path[k + 1];
        proof {
            lemma_same_wires(before, now);
        }
        match find_link(graph, a, b) {
            Some(id) => {
                taken.push(id);
                assert(before[id].joins(a, b));
                assert(!edges.contains(id)) by {
                    if edges.contains(id) {
                        let m = choose|m: int| 0 <= m < edges.len() && edges[m] == id;
                        assert(hop_ok(before, path@, edges, m));
                    }
                }
                match link_at(graph, id) {
                    Some(wire) => {
                        put_link(
                            graph,
                            id,
                            Connection { bandwidth: wire.bandwidth, flow: wire.flow + volume, stability: wire.stability },
                        );
                    },
                    None => {},
                }
                proof {
                    let grown = edges.push(id);
                    assert(topology_links(*graph).dom() =~= before.dom());
                    assert forall|i: int| 0 <= i < k + 1 implies #[trigger] hop_ok(before, path@, grown, i) by {
                        if i < k {
                            assert(hop_ok(before, path@, edges, i));
                        }
                    }
                    assert forall|e: u32| before.dom().contains(e) implies (#[trigger] topology_links(*graph)[e]).wire.flow
                        == before[e].wire.flow + (if grown.contains(e) { volume as int } else { 0 }) by {
                        if e == id {
                            assert(grown[k as int] == id);
                        } else {
                            if edges.contains(e) {
                                let m = choose|m: int| 0 <= m < edges.len() && edges[m] == e;
                                assert(grown[m] == e);
                            }
                            if grown.contains(e) {
                                let m = choose|m: int| 0 <= m < grown.len() && grown[m] == e;
                                assert(edges[m] == e);
                            }
                        }
                    }
                    edges = grown;
                }
            },
            None => {
                proof {
                    assert(step_ok(before, path@, k as int));
                    let e = choose|e: u32| before.dom().contains(e) && (#[trigger] before[e]).joins(a, b);
                    assert(now[e] == before[e].carrying(now[e].wire.flow));
                    assert(now[e].joins(a, b));
                    assert(false);
                }
            },
        }
        k = k + 1;
    }
    proof {
        lemma_simple_path_links(before, path@, edges);
        assert(edges =~= found_links(wires, order, path@));
    }
    taken
}

/// Routes the demand between the nodes: for every pair of positions `i < j`
/// of `nodes`, the entry `(i, j)` of `intensity` is added to the flow of each
/// link along a shortest path between the two nodes, if there is a path. It
/// returns the number of pairs that had none; a pair without demand counts
/// like any other.
///
/// The flows must leave room for the demand of all pairs.
pub fn route(graph: &mut Topology, nodes: &Vec<u32>, intensity: &Intensity) -> (unreachable: u128)
    requires
        nodes.len() <= intensity@.len(),
        forall|e: u32| topology_links(*old(graph)).dom().contains(e) ==> (#[trigger] topology_links(*old(graph))[e]).wire.flow
            + pair_total(intensity@, nodes.len() as int, nodes.len() as int) <= u64::MAX,
    ensures
        unreachable == unreachable_pairs(topology_links(*old(graph)), nodes@, nodes.len() as int),
        routed(topology_links(*old(graph)), nodes@, intensity@, topology_links(*final(graph))),
        routed_as_found(topology_links(*old(graph)), topology_order(*old(graph)), nodes@, intensity@, topology_links(*final(graph))),
        topology_order(*final(graph)) == topology_order(*old(graph)),
        topology_nodes(*final(graph)) == topology_nodes(*old(graph)),
{
    let n: usize = nodes.len();
    let size: usize = intensity.size();
    let ghost before = topology_links(*graph);
    let ghost demand = intensity@;
    let ghost count = n as int;
    let ghost order = topology_order(*graph);
    let ghost wires = wiring(before);
    let ghost mut plan: Plan = Map::empty();
    let mut unreachable: u128 = 0;
    let mut i: usize = 0;
    while i < n
        invariant
            i <= n,
            n == nodes.len(),
            count == n,
            n <= size,
            size == demand.len(),
            demand == intensity@,
            forall|r: int| 0 <= r < size ==> (#[trigger] demand[r]).len() == size,
            forall|e: u32| before.dom().contains(e) ==> (#[trigger] before[e]).wire.flow + pair_total(demand, count, count) <= u64::MAX,
            same_but_flow(before, topology_links(*graph)),
            topology_nodes(*graph) == topology_nodes(*old(graph)),
            routes_before(before, nodes@, plan, i as int, i + 1),
            wires == wiring(before),
            topology_order(*graph) == order,
            forall|a: int, b: int| pair_before(count, i as int, i + 1, a, b) ==> #[trigger] plan[(a, b)] == found_route(wires, order, nodes@[a], nodes@[b]),
            unreachable == unreachable_pairs(before, nodes@, i as int),
            forall|e: u32| before.dom().contains(e) ==> (#[trigger] topology_links(*graph)[e]).wire.flow
                == before[e].wire.flow + load(plan, demand, e, count, i as int),
        decreases n - i,
    {
        let mut j: usize = i + 1;
        while j < n
            invariant
                i < n,
                i < j <= n,
                n == nodes.len(),
                count == n,
                n <= size,
                size == demand.len(),
                demand == intensity@,
                forall|r: int| 0 <= r < size ==> (#[trigger] demand[r]).len() == size,
                forall|e: u32| before.dom().contains(e) ==> (#[trigger] before[e]).wire.flow + pair_total(demand, count, count) <= u64::MAX,
                same_but_flow(before, topology_links(*graph)),
                topology_nodes(*graph) == topology_nodes(*old(graph)),
                routes_before(before, nodes@, plan, i as int, j as int),
                wires == wiring(before),
                topology_order(*graph) == order,
                forall|a: int, b: int| pair_before(count, i as int, j as int, a, b) ==> #[trigger] plan[(a, b)] == found_route(wires, order, nodes@[a], nodes@[b]),
                unreachable == unreachable_pairs(before, nodes@, i as int) + row_unreachable(before, nodes@, i as int, j as int),
                forall|e: u32| before.dom().contains(e) ==> (#[trigger] topology_links(*graph)[e]).wire.flow
                    == before[e].wire.flow + load(plan, demand, e, count, i as int) + row_load(plan, demand, e, i as int, j as int),
            decreases n - j,
        {
            let ghost now = topology_links(*graph);
            let ghost earlier = plan;
            let volume: u64 = intensity.at(i, j);
            let from: u32 = nodes[i];
            let to: u32 = nodes[j];
            proof {
                lemma_same_wiring(before, now);
                lemma_same_wires(before, now);
            }
            match shortest_path(graph, from, to) {
                Some(path) => {
                    proof {
                        lemma_shortest_is_simple(now, from, to, path@);
                        assert forall|k: int| 0 <= k < path@.len() - 1 implies #[trigger] step_ok(now, path@, k) by {}
                        assert forall|e: u32| now.dom().contains(e) implies (#[trigger] now[e]).wire.flow + volume <= u64::MAX by {
                            lemma_load_bound(plan, demand, e, count, i as int);
                            lemma_row_load_bound(plan, demand, e, i as int, j as int);
                            lemma_range_sum_grows(demand[i as int], i + 1, j + 1, count);
                            lemma_pair_total_grows(demand, count, i + 1, count);
                        }
                    }
                    let edges = carry(graph, &path, volume);
                    proof {
                        plan = earlier.insert((i as int, j as int), edges@);
                        assert(is_route(before, from, to, edges@));
                        assert(reachable(before, from, to));
                        assert(same_but_flow(before, topology_links(*graph))) by {
                            assert forall|e: u32| before.dom().contains(e) implies #[trigger] topology_links(*graph)[e]
                                == before[e].carrying(topology_links(*graph)[e].wire.flow) by {}
                        }
                    }
                },
                None => {
                    proof {
                        lemma_unreachable_pairs(before, nodes@, i as int);
                        lemma_row_unreachable(before, nodes@, i as int, j as int);
                        assert(i * count + count <= count * count) by (nonlinear_arith)
                            requires
                                0 <= i < count,
                        ;
                        assert(count * count <= u128::MAX) by (nonlinear_arith)
                            requires
                                0 <= count <= 0xffff_ffff_ffff_ffff,
                        ;
                        plan = earlier.insert((i as int, j as int), Seq::empty());
                    }
                    unreachable = unreachable + 1;
                },
            }
            proof {
                assert forall|a: int, b: int| pair_before(count, i as int, j + 1, a, b) implies #[trigger] routes_pair(before, nodes@, plan, a, b) by {
                    if !(a == i && b == j) {
                        assert(routes_pair(before, nodes@, earlier, a, b));
                    }
                }
                assert forall|e: u32| before.dom().contains(e) implies (#[trigger] topology_links(*graph)[e]).wire.flow
                    == before[e].wire.flow + load(plan, demand, e, count, i as int) + row_load(plan, demand, e, i as int, j + 1) by {
                    lemma_load_agrees(plan, earlier, demand, e, count, i as int);
                    lemma_row_load_agrees(plan, earlier, demand, e, i as int, j as int);
                }
            }
            j = j + 1;
        }
        proof {
            assert forall|a: int, b: int| pair_before(count, i + 1, i + 2, a, b) implies #[trigger] routes_pair(before, nodes@, plan, a, b) by {}
        }
        i = i + 1;
    }
    proof {
        assert forall|a: int, b: int| 0 <= a < b < nodes@.len() implies #[trigger] routes_pair(before, nodes@, plan, a, b) by {}
        assert(carries(before, topology_links(*graph), count, demand, plan));
        let found = found_plan(wires, order, nodes@);
        assert forall|a: int, b: int| 0 <= a < b < count implies plan[(a, b)] == #[trigger] found[(a, b)] by {
            assert(pair_before(count, count, count + 1, a, b));
        }
        assert forall|a: int, b: int| 0 <= a < b < nodes@.len() implies #[trigger] routes_pair(before, nodes@, found, a, b) by {
            assert(routes_pair(before, nodes@, plan, a, b));
        }
        assert forall|e: u32| before.dom().contains(e) implies (#[trigger] topology_links(*graph)[e]).wire.flow == before[e].wire.flow + load(
            found,
            demand,
            e,
            count,
            count,
        ) by {
            lemma_load_agrees(plan, found, demand, e, count, count);
        }
    }
    unreachable
}

/// Routes the demand between the nodes, as `route` does, and returns whether
/// every pair of nodes had a path.
///
/// The flows must leave room for the demand of all pairs.
pub fn set_flow(graph: &mut Topology, nodes: &Vec<u32>, intensity: &Intensity) -> (joined: bool)
    requires
        nodes.len() <= intensity@.len(),
        forall|e: u32| topology_links(*old(graph)).dom().contains(e) ==> (#[trigger] topology_links(*old(graph))[e]).wire.flow
            + pair_total(intensity@, nodes.len() as int, nodes.len() as int) <= u64::MAX,
    ensures
        joined == all_reachable(topology_links(*old(graph)), nodes@),
        routed(topology_links(*old(graph)), nodes@, intensity@, topology_links(*final(graph))),
        routed_as_found(topology_links(*old(graph)), topology_order(*old(graph)), nodes@, intensity@, topology_links(*final(graph))),
        topology_order(*final(graph)) == topology_order(*old(graph)),
        topology_nodes(*final(graph)) == topology_nodes(*old(graph)),
{
    proof {
        lemma_unreachable_pairs(topology_links(*graph), nodes@, nodes.len() as int);
    }
    route(graph, nodes, intensity) == 0
}

} // verus!
