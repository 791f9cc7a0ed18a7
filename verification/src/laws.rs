//! What holds of routing, failures and trials whatever the network.

use vstd::prelude::*;
use crate::congestion::loads_of;
use crate::congestion::overloads;
use crate::demand::is_square;
use crate::demand::total;
use crate::failure::fails;
use crate::failure::is_sample;
use crate::failure::kept_upto;
use crate::failure::survivors;
use crate::flow::all_reachable;
use crate::flow::carries;
use crate::flow::lemma_load_agrees;
use crate::flow::lemma_same_wires;
use crate::flow::lemma_unladen;
use crate::flow::lemma_unreachable_pairs;
use crate::flow::unreachable_pairs;
use crate::flow::load;
use crate::flow::pair_reachable;
use crate::flow::routed;
use crate::flow::routed_as_found;
use crate::flow::routes_all;
use crate::flow::routes_pair;
use crate::flow::row_load;
use crate::flow::same_but_flow;
use crate::flow::share;
use crate::flow::unladen;
use crate::flow::Plan;
use crate::link::Link;
use crate::link::FULL_STABILITY;
use crate::topology::lemma_listing;
use crate::topology::listing;
use crate::topology::no_links;
use crate::trial::samples_of;
use crate::trial::tally_of;
use crate::trial::trial_as_found;
use crate::trial::trial_of;
use crate::trial::Trial;
use crate::walk::follows;
use crate::walk::is_route;
use crate::walk::is_shortest_walk;
use crate::walk::is_walk;
use crate::walk::lemma_same_wiring;
use crate::walk::lemma_shortest_is_simple;
use crate::walk::reachable;
use crate::walk::step_ok;

verus! {

/// Whether every pair of positions with a demand has one route only.
pub open spec fn single_routes(links: Map<u32, Link>, nodes: Seq<u32>, demand: Seq<Seq<u64>>) -> bool {
    forall|a: int, b: int, one: Seq<u32>, other: Seq<u32>|
        0 <= a < b < nodes.len() && demand[a][b] != 0 && #[trigger] is_route(links, nodes[a], nodes[b], one) && #[trigger] is_route(
            links,
            nodes[a],
            nodes[b],
            other,
        ) ==> one == other
}

/// Whether no link carries any flow.
pub open spec fn no_flow(links: Map<u32, Link>) -> bool {
    forall|e: u32| links.dom().contains(e) ==> (#[trigger] links[e]).wire.flow == 0
}

/// A row of pairs that put nothing on a link puts nothing on it.
proof fn lemma_row_load_none(plan: Plan, demand: Seq<Seq<u64>>, e: u32, a: int, hi: int)
    requires
        forall|b: int| a < b < hi ==> #[trigger] share(plan, demand, e, a, b) == 0,
    ensures
        row_load(plan, demand, e, a, hi) == 0,
    decreases hi - a,
{
    if hi > a + 1 {
        lemma_row_load_none(plan, demand, e, a, hi - 1);
    }
}

/// A row of pairs of which only `(i, j)` puts anything on a link puts on it
/// what that pair does.
proof fn lemma_row_load_single(plan: Plan, demand: Seq<Seq<u64>>, e: u32, hi: int, i: int, j: int)
    requires
        forall|b: int| i < b < hi && b != j ==> #[trigger] share(plan, demand, e, i, b) == 0,
        i < j,
    ensures
        row_load(plan, demand, e, i, hi) == (if j < hi {
            share(plan, demand, e, i, j)
        } else {
            0
        }),
    decreases hi - i,
{
    if hi > i + 1 {
        lemma_row_load_single(plan, demand, e, hi - 1, i, j);
    }
}

/// Pairs of which only `(i, j)` puts anything on a link put on it what that
/// pair does.
proof fn lemma_load_single(plan: Plan, demand: Seq<Seq<u64>>, e: u32, n: int, rows: int, i: int, j: int)
    requires
        forall|a: int, b: int| 0 <= a < b < n && !(a == i && b == j) ==> #[trigger] share(plan, demand, e, a, b) == 0,
        0 <= i < j < n,
    ensures
        load(plan, demand, e, n, rows) == (if i < rows {
            share(plan, demand, e, i, j)
        } else {
            0
        }),
    decreases rows,
{
    if rows > 0 {
        lemma_load_single(plan, demand, e, n, rows - 1, i, j);
        if rows - 1 == i {
            lemma_row_load_single(plan, demand, e, n, i, j);
        } else {
            lemma_row_load_none(plan, demand, e, rows - 1, n);
        }
    }
}

/// Two plans for links on which every pair with a demand has one route only
/// put the same on each link.
proof fn lemma_load_determined(
    links: Map<u32, Link>,
    nodes: Seq<u32>,
    demand: Seq<Seq<u64>>,
    one: Plan,
    other: Plan,
    e: u32,
)
    requires
        routes_all(links, nodes, one),
        routes_all(links, nodes, other),
        single_routes(links, nodes, demand),
    ensures
        load(one, demand, e, nodes.len() as int, nodes.len() as int) == load(
            other,
            demand,
            e,
            nodes.len() as int,
            nodes.len() as int,
        ),
{
    let n = nodes.len() as int;
    assert forall|a: int, b: int| 0 <= a < n && a < b < n implies #[trigger] share(one, demand, e, a, b) == share(
        other,
        demand,
        e,
        a,
        b,
    ) by {
        assert(routes_pair(links, nodes, one, a, b));
        assert(routes_pair(links, nodes, other, a, b));
    }
    lemma_load_agrees(one, other, demand, e, n, n);
}

/// Routing has one result where every pair with a demand has one route only.
pub proof fn lemma_routed_unique(
    before: Map<u32, Link>,
    nodes: Seq<u32>,
    demand: Seq<Seq<u64>>,
    one: Map<u32, Link>,
    other: Map<u32, Link>,
)
    requires
        routed(before, nodes, demand, one),
        routed(before, nodes, demand, other),
        single_routes(before, nodes, demand),
    ensures
        one == other,
{
    let n = nodes.len() as int;
    let first = choose|plan: Plan| routes_all(before, nodes, plan) && #[trigger] carries(before, one, n, demand, plan);
    let second = choose|plan: Plan| routes_all(before, nodes, plan) && #[trigger] carries(before, other, n, demand, plan);
    assert forall|e: u32| before.dom().contains(e) implies one[e] == other[e] by {
        lemma_load_determined(before, nodes, demand, first, second, e);
    }
}

/// Flow additivity. Where no link carries flow, one pair of nodes alone has a
/// demand and one route only leads from one of the two to the other, routing
/// puts the demand of the pair on every link of that route and nothing on
/// the other links.
pub proof fn law_flow_additivity(
    before: Map<u32, Link>,
    nodes: Seq<u32>,
    demand: Seq<Seq<u64>>,
    after: Map<u32, Link>,
    i: int,
    j: int,
    edges: Seq<u32>,
)
    requires
        routed(before, nodes, demand, after),
        no_flow(before),
        nodes.len() <= demand.len(),
        is_square(demand),
        0 <= i < j < nodes.len(),
        forall|a: int, b: int| 0 <= a < b < nodes.len() && !(a == i && b == j) ==> #[trigger] demand[a][b] == 0,
        is_route(before, nodes[i], nodes[j], edges),
        forall|other: Seq<u32>| #[trigger] is_route(before, nodes[i], nodes[j], other) ==> other == edges,
    ensures
        after.dom() == before.dom(),
        forall|e: u32|
            before.dom().contains(e) ==> (#[trigger] after[e]).wire.flow == (if edges.contains(e) {
                demand[i][j]
            } else {
                0
            }),
{
    let n = nodes.len() as int;
    let plan = choose|plan: Plan| routes_all(before, nodes, plan) && #[trigger] carries(before, after, n, demand, plan);
    assert(routes_pair(before, nodes, plan, i, j));
    let path = choose|path: Seq<u32>| is_shortest_walk(before, nodes[i], nodes[j], path) && #[trigger] follows(before, path, edges);
    assert(is_walk(before, nodes[i], nodes[j], path));
    assert forall|e: u32| before.dom().contains(e) implies (#[trigger] after[e]).wire.flow == (if edges.contains(e) {
        demand[i][j]
    } else {
        0
    }) by {
        assert forall|a: int, b: int| 0 <= a < b < n && !(a == i && b == j) implies #[trigger] share(plan, demand, e, a, b) == 0 by {}
        lemma_load_single(plan, demand, e, n, n, i, j);
    }
}

/// Reset idempotence. Resetting leaves no flow on any link, and resetting
/// again changes nothing.
pub proof fn law_reset_idempotent(links: Map<u32, Link>)
    ensures
        no_flow(unladen(links)),
        unladen(unladen(links)) == unladen(links),
        same_but_flow(links, unladen(links)),
{
    lemma_unladen(links);
}

/// Routing accumulates. Routing a second time, without a reset between,
/// adds to every link what the first time added: from links without flow,
/// every flow doubles. This is stated of networks on which every pair with a
/// demand has one route only; between routes of equal length the choice is
/// free each time.
pub proof fn law_routing_accumulates(
    start: Map<u32, Link>,
    nodes: Seq<u32>,
    demand: Seq<Seq<u64>>,
    once: Map<u32, Link>,
    twice: Map<u32, Link>,
)
    requires
        routed(start, nodes, demand, once),
        routed(once, nodes, demand, twice),
        single_routes(start, nodes, demand),
    ensures
        twice.dom() == start.dom(),
        forall|e: u32| start.dom().contains(e) ==> (#[trigger] twice[e]).wire.flow - once[e].wire.flow == once[e].wire.flow - start[e].wire.flow,
        no_flow(start) ==> forall|e: u32| start.dom().contains(e) ==> (#[trigger] twice[e]).wire.flow == 2 * once[e].wire.flow,
{
    let n = nodes.len() as int;
    let first = choose|plan: Plan| routes_all(start, nodes, plan) && #[trigger] carries(start, once, n, demand, plan);
    let second = choose|plan: Plan| routes_all(once, nodes, plan) && #[trigger] carries(once, twice, n, demand, plan);
    lemma_same_wiring(start, once);
    assert(routes_all(start, nodes, second)) by {
        assert forall|a: int, b: int| 0 <= a < b < nodes.len() implies #[trigger] routes_pair(start, nodes, second, a, b) by {
            assert(routes_pair(once, nodes, second, a, b));
        }
    }
    assert forall|e: u32| start.dom().contains(e) implies (#[trigger] twice[e]).wire.flow - once[e].wire.flow == once[e].wire.flow
        - start[e].wire.flow by {
        lemma_load_determined(start, nodes, demand, first, second, e);
    }
}

/// Routing as found has one result: the links before, the order in which
/// they were laid, the nodes and the demand fix the links after. This rests
/// on the search and the lookup of links going by the wiring and the order of
/// laying alone, which is read from the source of `petgraph`.
pub proof fn law_found_routing_is_one(
    before: Map<u32, Link>,
    order: Seq<u32>,
    nodes: Seq<u32>,
    demand: Seq<Seq<u64>>,
    one: Map<u32, Link>,
    other: Map<u32, Link>,
)
    requires
        routed_as_found(before, order, nodes, demand, one),
        routed_as_found(before, order, nodes, demand, other),
    ensures
        one == other,
{
    assert forall|e: u32| before.dom().contains(e) implies one[e] == other[e] by {}
    assert(one =~= other);
}

/// Routing as found accumulates. Routing a second time, without a reset
/// between and with the links laid as they were, adds to every link what the
/// first time added: from links without flow, every flow doubles. Unlike
/// `law_routing_accumulates`, this holds of every network, and rests on what
/// `law_found_routing_is_one` rests on.
pub proof fn law_found_routing_accumulates(
    start: Map<u32, Link>,
    order: Seq<u32>,
    nodes: Seq<u32>,
    demand: Seq<Seq<u64>>,
    once: Map<u32, Link>,
    twice: Map<u32, Link>,
)
    requires
        routed_as_found(start, order, nodes, demand, once),
        routed_as_found(once, order, nodes, demand, twice),
    ensures
        twice.dom() == start.dom(),
        forall|e: u32| start.dom().contains(e) ==> (#[trigger] twice[e]).wire.flow - once[e].wire.flow == once[e].wire.flow - start[e].wire.flow,
        no_flow(start) ==> forall|e: u32| start.dom().contains(e) ==> (#[trigger] twice[e]).wire.flow == 2 * once[e].wire.flow,
{
    lemma_same_wires(start, once);
    assert forall|e: u32| start.dom().contains(e) implies (#[trigger] twice[e]).wire.flow - once[e].wire.flow == once[e].wire.flow
        - start[e].wire.flow by {
        assert(once.dom().contains(e));
    }
}

/// Among the walks between two nodes that one can reach from the other, one
/// takes the fewest hops.
pub proof fn lemma_shortest_exists(links: Map<u32, Link>, from: u32, to: u32, walk: Seq<u32>) -> (shortest: Seq<u32>)
    requires
        is_walk(links, from, to, walk),
    ensures
        is_shortest_walk(links, from, to, shortest),
    decreases walk.len(),
{
    if forall|other: Seq<u32>| #[trigger] is_walk(links, from, to, other) ==> walk.len() <= other.len() {
        walk
    } else {
        let other = choose|other: Seq<u32>| #[trigger] is_walk(links, from, to, other) && other.len() < walk.len();
        lemma_shortest_exists(links, from, to, other)
    }
}

/// Disconnection. Where one path only leads from one node to another, and
/// one link only joins two nodes that follow each other on it, taking that
/// link away leaves the first node unable to reach the second, so that the
/// pair counts as unreachable and the nodes are no longer all joined; putting
/// the link back restores the path.
pub proof fn law_cut_disconnects(
    links: Map<u32, Link>,
    nodes: Seq<u32>,
    i: int,
    j: int,
    path: Seq<u32>,
    k: int,
    cut: u32,
)
    requires
        0 <= i < j < nodes.len(),
        is_walk(links, nodes[i], nodes[j], path),
        path.no_duplicates(),
        forall|other: Seq<u32>| #[trigger] is_walk(links, nodes[i], nodes[j], other) && other.no_duplicates() ==> other == path,
        0 <= k < path.len() - 1,
        links.dom().contains(cut),
        forall|e: u32| links.dom().contains(e) && (#[trigger] links[e]).joins(path[k], path[k + 1]) <==> e == cut,
    ensures
        !reachable(links.remove(cut), nodes[i], nodes[j]),
        !all_reachable(links.remove(cut), nodes),
        unreachable_pairs(links.remove(cut), nodes, nodes.len() as int) > 0,
        links.remove(cut).insert(cut, links[cut]) == links,
        reachable(links, nodes[i], nodes[j]),
{
    let rest = links.remove(cut);
    let from = nodes[i];
    let to = nodes[j];
    if reachable(rest, from, to) {
        let walk = choose|walk: Seq<u32>| is_walk(rest, from, to, walk);
        let shortest = lemma_shortest_exists(rest, from, to, walk);
        lemma_shortest_is_simple(rest, from, to, shortest);
        assert forall|m: int| 0 <= m < shortest.len() - 1 implies #[trigger] step_ok(links, shortest, m) by {
            assert(step_ok(rest, shortest, m));
            let e = choose|e: u32| rest.dom().contains(e) && (#[trigger] rest[e]).joins(shortest[m], shortest[m + 1]);
            assert(links.dom().contains(e) && links[e].joins(shortest[m], shortest[m + 1]));
        }
        assert(is_walk(links, from, to, shortest));
        assert(step_ok(rest, path, k));
        let e = choose|e: u32| rest.dom().contains(e) && (#[trigger] rest[e]).joins(path[k], path[k + 1]);
        assert(links.dom().contains(e) && links[e].joins(path[k], path[k + 1]));
        assert(false);
    }
    if all_reachable(rest, nodes) {
        assert(pair_reachable(rest, nodes, i, j));
    }
    lemma_unreachable_pairs(rest, nodes, nodes.len() as int);
}

/// Reliability bounds. Every trial is counted once, as joined or as failed;
/// the reliable trials are among the joined ones, so the reliability, the
/// reliable trials out of all, lies between 0 and 1.
pub proof fn law_tally_counts(runs: Seq<Trial>, verdicts: Seq<bool>)
    requires
        runs.len() <= usize::MAX,
        verdicts.len() == runs.len(),
    ensures
        tally_of(runs, verdicts).trials == runs.len(),
        tally_of(runs, verdicts).failed + samples_of(runs).len() == runs.len(),
        0 <= tally_of(runs, verdicts).reliable <= samples_of(runs).len() <= tally_of(runs, verdicts).trials,
    decreases runs.len(),
{
    if runs.len() > 0 {
        law_tally_counts(runs.drop_last(), verdicts.drop_last());
    }
}

/// Stable links survive. A link whose stability is full meets no draw from
/// [0, 1) on which it fails: if all links are such, failures remove none.
pub proof fn law_stable_links_survive(links: Map<u32, Link>, draws: Seq<u64>)
    requires
        forall|e: u32| links.dom().contains(e) ==> (#[trigger] links[e]).wire.stability >= FULL_STABILITY,
        is_sample(links, draws),
    ensures
        survivors(links, draws) == links,
{
    assert forall|e: u32| links.dom().contains(e) implies kept_upto(links, listing(links), draws, listing(links).len() as int, e) by {
        assert forall|k: int|
            0 <= k < listing(links).len() && k < draws.len() && (#[trigger] listing(links)[k]) == e implies !fails(
            draws[k],
            links[e].wire.stability,
        ) by {}
    }
}

/// Stable networks stay whole. If every link has full stability, a trial is
/// joined exactly if every node of the network can reach every other.
pub proof fn law_stable_trials_join(base: Map<u32, Link>, nodes: Seq<u32>, demand: Seq<Seq<u64>>, trial: Trial)
    requires
        forall|e: u32| base.dom().contains(e) ==> (#[trigger] base[e]).wire.stability >= FULL_STABILITY,
        trial_of(base, nodes, demand, trial),
    ensures
        trial.joined == all_reachable(base, nodes),
{
    let (draws, after) = choose|draws: Seq<u64>, after: Map<u32, Link>|
        {
            &&& is_sample(base, draws)
            &&& #[trigger] routed(unladen(survivors(base, draws)), nodes, demand, after)
            &&& trial.joined == all_reachable(survivors(base, draws), nodes)
            &&& trial.congestion.loads@ == loads_of(after)
            &&& trial.congestion.demand == total(demand)
            &&& trial.overloaded == overloads(loads_of(after))
        };
    law_stable_links_survive(base, draws);
}

/// Stable networks never fail. If every link has full stability and every
/// node can reach every other, no trial of a run fails: all are joined.
pub proof fn law_stable_runs_join(
    base: Map<u32, Link>,
    nodes: Seq<u32>,
    demand: Seq<Seq<u64>>,
    runs: Seq<Trial>,
    verdicts: Seq<bool>,
)
    requires
        forall|e: u32| base.dom().contains(e) ==> (#[trigger] base[e]).wire.stability >= FULL_STABILITY,
        all_reachable(base, nodes),
        forall|k: int| 0 <= k < runs.len() ==> trial_of(base, nodes, demand, #[trigger] runs[k]),
        runs.len() <= usize::MAX,
        verdicts.len() == runs.len(),
    ensures
        tally_of(runs, verdicts).failed == 0,
        samples_of(runs).len() == runs.len(),
    decreases runs.len(),
{
    if runs.len() > 0 {
        law_stable_runs_join(base, nodes, demand, runs.drop_last(), verdicts.drop_last());
        law_stable_trials_join(base, nodes, demand, runs.last());
        law_tally_counts(runs.drop_last(), verdicts.drop_last());
    }
}

/// Stable networks behave alike. If every link has full stability, and every
/// pair with a demand has one route only, any two trials have the same
/// outcome: they measure the same loads and the same number of overloaded
/// links.
pub proof fn law_stable_trials_agree(
    base: Map<u32, Link>,
    nodes: Seq<u32>,
    demand: Seq<Seq<u64>>,
    one: Trial,
    other: Trial,
)
    requires
        forall|e: u32| base.dom().contains(e) ==> (#[trigger] base[e]).wire.stability >= FULL_STABILITY,
        single_routes(base, nodes, demand),
        trial_of(base, nodes, demand, one),
        trial_of(base, nodes, demand, other),
    ensures
        other.joined == one.joined,
        other.congestion.loads@ == one.congestion.loads@,
        other.congestion.demand == one.congestion.demand,
        other.overloaded == one.overloaded,
{
    let (draws1, after1) = choose|draws: Seq<u64>, after: Map<u32, Link>|
        {
            &&& is_sample(base, draws)
            &&& #[trigger] routed(unladen(survivors(base, draws)), nodes, demand, after)
            &&& one.joined == all_reachable(survivors(base, draws), nodes)
            &&& one.congestion.loads@ == loads_of(after)
            &&& one.congestion.demand == total(demand)
            &&& one.overloaded == overloads(loads_of(after))
        };
    let (draws2, after2) = choose|draws: Seq<u64>, after: Map<u32, Link>|
        {
            &&& is_sample(base, draws)
            &&& #[trigger] routed(unladen(survivors(base, draws)), nodes, demand, after)
            &&& other.joined == all_reachable(survivors(base, draws), nodes)
            &&& other.congestion.loads@ == loads_of(after)
            &&& other.congestion.demand == total(demand)
            &&& other.overloaded == overloads(loads_of(after))
        };
    law_stable_links_survive(base, draws1);
    law_stable_links_survive(base, draws2);
    let clear = unladen(base);
    lemma_unladen(base);
    lemma_same_wiring(base, clear);
    lemma_routed_unique(clear, nodes, demand, after1, after2);
}

/// Stable networks behave alike, whatever their routes. If every link has
/// full stability, any two trials on the links as they are laid have the same
/// outcome: they measure the same loads and the same number of overloaded
/// links. Unlike `law_stable_trials_agree`, this holds also where two routes
/// are equally short, and rests on what `law_found_routing_is_one` rests on.
pub proof fn law_found_trials_agree(
    base: Map<u32, Link>,
    laid: Seq<u32>,
    nodes: Seq<u32>,
    demand: Seq<Seq<u64>>,
    one: Trial,
    other: Trial,
)
    requires
        forall|e: u32| base.dom().contains(e) ==> (#[trigger] base[e]).wire.stability >= FULL_STABILITY,
        trial_as_found(base, laid, nodes, demand, one),
        trial_as_found(base, laid, nodes, demand, other),
    ensures
        other.joined == one.joined,
        other.congestion.loads@ == one.congestion.loads@,
        other.congestion.demand == one.congestion.demand,
        other.overloaded == one.overloaded,
{
    let (draws1, left1, after1) = choose|draws: Seq<u64>, left: Seq<u32>, after: Map<u32, Link>|
        {
            &&& is_sample(base, draws)
            &&& (survivors(base, draws) == base ==> left == laid)
            &&& #[trigger] routed_as_found(unladen(survivors(base, draws)), left, nodes, demand, after)
            &&& one.joined == all_reachable(survivors(base, draws), nodes)
            &&& one.congestion.loads@ == loads_of(after)
            &&& one.congestion.demand == total(demand)
            &&& one.overloaded == overloads(loads_of(after))
        };
    let (draws2, left2, after2) = choose|draws: Seq<u64>, left: Seq<u32>, after: Map<u32, Link>|
        {
            &&& is_sample(base, draws)
            &&& (survivors(base, draws) == base ==> left == laid)
            &&& #[trigger] routed_as_found(unladen(survivors(base, draws)), left, nodes, demand, after)
            &&& other.joined == all_reachable(survivors(base, draws), nodes)
            &&& other.congestion.loads@ == loads_of(after)
            &&& other.congestion.demand == total(demand)
            &&& other.overloaded == overloads(loads_of(after))
        };
    law_stable_links_survive(base, draws1);
    law_stable_links_survive(base, draws2);
    law_found_routing_is_one(unladen(base), laid, nodes, demand, after1, after2);
}

/// Unstable links fail. A link whose stability is zero fails on every draw
/// but zero itself: if all links are such and no draw is zero, failures
/// remove every link.
pub proof fn law_unstable_links_fail(links: Map<u32, Link>, draws: Seq<u64>)
    requires
        forall|e: u32| links.dom().contains(e) ==> (#[trigger] links[e]).wire.stability == 0,
        is_sample(links, draws),
        forall|k: int| 0 <= k < draws.len() ==> #[trigger] draws[k] > 0,
    ensures
        survivors(links, draws) == no_links(),
{
    lemma_listing(links);
    let ids = listing(links);
    assert forall|e: u32| links.dom().contains(e) implies !kept_upto(links, ids, draws, ids.len() as int, e) by {
        assert(ids.contains(e));
        let k = choose|k: int| 0 <= k < ids.len() && ids[k] == e;
        assert(draws[k] > 0);
    }
}

/// Without links no node reaches another, so nodes that are not all the same
/// node are not joined.
pub proof fn law_no_links_no_paths(nodes: Seq<u32>, i: int, j: int)
    requires
        0 <= i < j < nodes.len(),
        nodes[i] != nodes[j],
    ensures
        !reachable(no_links(), nodes[i], nodes[j]),
        !all_reachable(no_links(), nodes),
        unreachable_pairs(no_links(), nodes, nodes.len() as int) > 0,
{
    if reachable(no_links(), nodes[i], nodes[j]) {
        let walk = choose|walk: Seq<u32>| is_walk(no_links(), nodes[i], nodes[j], walk);
        assert(step_ok(no_links(), walk, 0));
    }
    if all_reachable(no_links(), nodes) {
        assert(pair_reachable(no_links(), nodes, i, j));
    }
    lemma_unreachable_pairs(no_links(), nodes, nodes.len() as int);
}

} // verus!
