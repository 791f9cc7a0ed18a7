use petgraph::stable_graph::{EdgeIndex, NodeIndex, StableUnGraph};
use rand::Rng;
use sieci::{
    reset_flow, route, set_flow, test_network, Congestion, Connection, Intensity, Topology,
    FULL_STABILITY,
};

fn network(count: usize, links: &[(usize, usize, u64)]) -> (Topology, Vec<u32>) {
    let mut graph: Topology = StableUnGraph::with_capacity(count, links.len());
    let nodes: Vec<u32> = (0..count).map(|_| graph.add_node(0).index() as u32).collect();
    for (a, b, bandwidth) in links {
        graph.add_edge(
            NodeIndex::new(nodes[*a] as usize),
            NodeIndex::new(nodes[*b] as usize),
            Connection::with_stability(*bandwidth, FULL_STABILITY),
        );
    }
    (graph, nodes)
}

fn demand(count: usize, entries: &[(usize, usize, u64)]) -> Intensity {
    let mut intensity = Intensity::zeros(count).unwrap();
    for (i, j, volume) in entries {
        assert!(intensity.set(*i, *j, *volume));
    }
    intensity
}

fn flows(graph: &Topology) -> Vec<u64> {
    graph.edge_weights().map(|w| w.flow).collect()
}

fn value(congestion: &Congestion) -> f64 {
    let mut sum_e = 0.;
    for &(flow, bandwidth) in &congestion.loads {
        let (a, c) = (flow as f64, bandwidth as f64);
        sum_e += a / (c - a);
    }
    let t = sum_e / congestion.demand as f64;
    if t > 0. {
        t
    } else {
        1.
    }
}

#[test]
fn end_to_end_path_of_four() {
    let (mut graph, nodes) = network(4, &[(0, 1, 1000), (1, 2, 1000), (2, 3, 1000)]);
    let intensity = demand(4, &[(0, 3, 500)]);
    reset_flow(&mut graph);
    assert!(set_flow(&mut graph, &nodes, &intensity));
    assert_eq!(flows(&graph), vec![500, 500, 500]);
    let (congestion, over) = test_network(&graph, &intensity);
    assert_eq!(over, 0);
    assert_eq!(congestion.loads, vec![(500, 1000), (500, 1000), (500, 1000)]);
    assert_eq!(congestion.demand, 500);
    assert_eq!(value(&congestion), 3. / 500.);
}

#[test]
fn flow_goes_along_the_only_path_and_nowhere_else() {
    // a tree: 0 - 1 - 2 - 3, with branches 1 - 4 and 2 - 5
    let (mut graph, nodes) =
        network(6, &[(0, 1, 10), (1, 2, 10), (2, 3, 10), (1, 4, 10), (2, 5, 10)]);
    let intensity = demand(6, &[(0, 3, 7)]);
    assert!(set_flow(&mut graph, &nodes, &intensity));
    assert_eq!(flows(&graph), vec![7, 7, 7, 0, 0]);
}

#[test]
fn flows_of_several_pairs_add_up() {
    let (mut graph, nodes) = network(4, &[(0, 1, 10), (1, 2, 10), (2, 3, 10)]);
    let intensity = demand(4, &[(0, 3, 1), (0, 1, 10), (1, 3, 100), (2, 3, 1000)]);
    assert!(set_flow(&mut graph, &nodes, &intensity));
    assert_eq!(flows(&graph), vec![11, 101, 1101]);
}

#[test]
fn only_the_upper_triangle_is_routed() {
    let (mut graph, nodes) = network(3, &[(0, 1, 10), (1, 2, 10)]);
    let intensity = demand(3, &[(2, 0, 5), (1, 1, 9), (1, 0, 3)]);
    assert!(set_flow(&mut graph, &nodes, &intensity));
    assert_eq!(flows(&graph), vec![0, 0]);
}

#[test]
fn reset_twice_leaves_no_flow() {
    let (mut graph, nodes) = network(3, &[(0, 1, 10), (1, 2, 10)]);
    let intensity = demand(3, &[(0, 2, 4)]);
    assert!(set_flow(&mut graph, &nodes, &intensity));
    assert_eq!(flows(&graph), vec![4, 4]);
    reset_flow(&mut graph);
    assert_eq!(flows(&graph), vec![0, 0]);
    reset_flow(&mut graph);
    assert_eq!(flows(&graph), vec![0, 0]);
    assert_eq!(
        graph.edge_weight(EdgeIndex::new(1)),
        Some(&Connection { bandwidth: 10, flow: 0, stability: FULL_STABILITY })
    );
}

#[test]
fn routing_twice_without_reset_doubles_the_flows() {
    let (mut graph, nodes) = network(4, &[(0, 1, 10), (1, 2, 10), (2, 3, 10), (1, 3, 10)]);
    let intensity = demand(4, &[(0, 3, 5), (0, 2, 3)]);
    assert!(set_flow(&mut graph, &nodes, &intensity));
    assert_eq!(flows(&graph), vec![8, 3, 0, 5]);
    assert!(set_flow(&mut graph, &nodes, &intensity));
    assert_eq!(flows(&graph), vec![16, 6, 0, 10]);
}

#[test]
fn cutting_the_only_path_disconnects_and_mending_it_reconnects() {
    let (mut graph, nodes) = network(4, &[(0, 1, 10), (1, 2, 10), (2, 3, 10)]);
    let intensity = demand(4, &[(0, 3, 5)]);
    let cut = graph.remove_edge(EdgeIndex::new(1)).unwrap();
    assert!(!set_flow(&mut graph, &nodes, &intensity));
    assert_eq!(flows(&graph), vec![0, 0]);
    graph.add_edge(NodeIndex::new(1), NodeIndex::new(2), cut);
    assert!(set_flow(&mut graph, &nodes, &intensity));
    assert_eq!(flows(&graph), vec![5, 5, 5]);
}

#[test]
fn a_pair_without_demand_still_counts_as_unreachable() {
    let (mut graph, nodes) = network(3, &[(0, 1, 10)]);
    let intensity = demand(3, &[(0, 1, 5)]);
    assert!(!set_flow(&mut graph, &nodes, &intensity));
    assert_eq!(flows(&graph), vec![5]);
}

#[test]
fn without_links_nothing_is_joined() {
    let (mut graph, nodes) = network(2, &[]);
    let intensity = demand(2, &[(0, 1, 5)]);
    assert!(!set_flow(&mut graph, &nodes, &intensity));
}

#[test]
fn a_single_node_is_joined() {
    let (mut graph, nodes) = network(1, &[]);
    let intensity = demand(1, &[]);
    assert!(set_flow(&mut graph, &nodes, &intensity));
    let (mut graph, nodes) = network(0, &[]);
    assert!(set_flow(&mut graph, &nodes, &demand(0, &[])));
}

#[test]
fn the_path_with_the_fewest_hops_is_taken() {
    // 0 - 1 - 2 - 3 - 4 and the link 0 - 4 laid last, then first
    let (mut graph, nodes) =
        network(5, &[(0, 1, 10), (1, 2, 10), (2, 3, 10), (3, 4, 10), (0, 4, 10)]);
    let intensity = demand(5, &[(0, 4, 9), (0, 3, 2)]);
    assert!(set_flow(&mut graph, &nodes, &intensity));
    assert_eq!(flows(&graph), vec![0, 0, 0, 2, 11]);
    let (mut graph, nodes) =
        network(5, &[(0, 4, 10), (0, 1, 10), (1, 2, 10), (2, 3, 10), (3, 4, 10)]);
    assert!(set_flow(&mut graph, &nodes, &intensity));
    assert_eq!(flows(&graph), vec![11, 0, 0, 0, 2]);
}

#[test]
fn bandwidth_does_not_draw_traffic() {
    // two hops over wide links lose to one hop over a narrow one
    let (mut graph, nodes) = network(3, &[(0, 1, 1_000_000), (1, 2, 1_000_000), (0, 2, 1)]);
    let intensity = demand(3, &[(0, 2, 50)]);
    assert!(set_flow(&mut graph, &nodes, &intensity));
    assert_eq!(flows(&graph), vec![0, 0, 50]);
    let (_, over) = test_network(&graph, &intensity);
    assert_eq!(over, 1);
}

#[test]
fn of_two_links_between_the_same_nodes_one_carries_the_flow() {
    let (mut graph, nodes) = network(2, &[(0, 1, 10), (0, 1, 20)]);
    let intensity = demand(2, &[(0, 1, 6)]);
    assert!(set_flow(&mut graph, &nodes, &intensity));
    let carried = flows(&graph);
    assert!(carried == vec![6, 0] || carried == vec![0, 6]);
}

#[test]
fn of_two_shortest_paths_one_carries_the_flow() {
    // a square: 0 - 1 - 3 and 0 - 2 - 3
    let (mut graph, nodes) = network(4, &[(0, 1, 10), (1, 3, 10), (0, 2, 10), (2, 3, 10)]);
    let intensity = demand(4, &[(0, 3, 6)]);
    assert!(set_flow(&mut graph, &nodes, &intensity));
    let carried = flows(&graph);
    assert!(carried == vec![6, 6, 0, 0] || carried == vec![0, 0, 6, 6]);
}

#[test]
fn nodes_are_taken_by_their_position_in_the_list() {
    let (mut graph, mut nodes) = network(3, &[(0, 1, 10), (1, 2, 10)]);
    nodes.reverse();
    // position 0 is node 2 now, position 1 is node 1
    let intensity = demand(3, &[(0, 1, 4)]);
    assert!(set_flow(&mut graph, &nodes, &intensity));
    assert_eq!(flows(&graph), vec![0, 4]);
}

#[test]
fn a_larger_matrix_is_read_as_far_as_there_are_nodes() {
    let (mut graph, nodes) = network(2, &[(0, 1, 10)]);
    let intensity = demand(3, &[(0, 1, 4), (0, 2, 100), (1, 2, 100)]);
    assert!(set_flow(&mut graph, &nodes, &intensity));
    assert_eq!(flows(&graph), vec![4]);
    let (congestion, _) = test_network(&graph, &intensity);
    assert_eq!(congestion.demand, 204);
}

#[test]
fn flows_may_reach_the_limit() {
    let (mut graph, nodes) = network(2, &[(0, 1, 10)]);
    let intensity = demand(2, &[(0, 1, u64::MAX)]);
    assert!(set_flow(&mut graph, &nodes, &intensity));
    assert_eq!(flows(&graph), vec![u64::MAX]);
}

#[test]
fn route_counts_the_pairs_without_a_path() {
    // two pieces: 0 - 1 - 2 and 3 - 4
    let (mut graph, nodes) = network(5, &[(0, 1, 10), (1, 2, 10), (3, 4, 10)]);
    let intensity = demand(5, &[(0, 2, 3), (0, 4, 100), (3, 4, 7)]);
    assert_eq!(route(&mut graph, &nodes, &intensity), 6);
    assert_eq!(flows(&graph), vec![3, 3, 7]);
}

#[test]
fn route_counts_nothing_on_a_joined_network() {
    let (mut graph, nodes) = network(4, &[(0, 1, 10), (1, 2, 10), (2, 3, 10)]);
    assert_eq!(route(&mut graph, &nodes, &demand(4, &[(0, 3, 500)])), 0);
    assert_eq!(flows(&graph), vec![500, 500, 500]);
}

#[test]
fn route_counts_every_pair_without_links() {
    let (mut graph, nodes) = network(7, &[]);
    assert_eq!(route(&mut graph, &nodes, &demand(7, &[])), 21);
}

/// The fewest hops from `from` to every node, by breadth-first search.
fn hops(count: usize, links: &[(usize, usize, u64)], from: usize) -> Vec<Option<u64>> {
    let mut found = vec![None; count];
    found[from] = Some(0);
    let mut queue = std::collections::VecDeque::from([from]);
    while let Some(at) = queue.pop_front() {
        for (a, b, _) in links {
            for (near, far) in [(*a, *b), (*b, *a)] {
                if near == at && found[far].is_none() {
                    found[far] = Some(found[at].unwrap() + 1);
                    queue.push_back(far);
                }
            }
        }
    }
    found
}

#[test]
fn routes_take_as_many_hops_as_a_breadth_first_search() {
    let mut rng = rand::thread_rng();
    for _ in 0..200 {
        let count = rng.gen_range(2..9);
        let links: Vec<(usize, usize, u64)> = (0..rng.gen_range(0..14))
            .map(|_| (rng.gen_range(0..count), rng.gen_range(0..count), 1000))
            .collect();
        let i = rng.gen_range(0..count - 1);
        let j = rng.gen_range(i + 1..count);
        let (mut graph, nodes) = network(count, &links);
        let unreachable = route(&mut graph, &nodes, &demand(count, &[(i, j, 7)]));
        let mut expected = 0;
        for a in 0..count {
            let found = hops(count, &links, a);
            expected += (a + 1..count).filter(|b| found[*b].is_none()).count() as u128;
        }
        assert_eq!(unreachable, expected);
        let carried: u64 = flows(&graph).iter().sum();
        match hops(count, &links, i)[j] {
            Some(distance) => assert_eq!(carried, 7 * distance),
            None => assert_eq!(carried, 0),
        }
        assert!(flows(&graph).iter().all(|flow| *flow == 0 || *flow == 7));
    }
}

#[test]
fn carry_adds_the_volume_along_the_path_it_is_given() {
    let (mut graph, _) = network(4, &[(0, 1, 10), (1, 2, 10), (2, 3, 10)]);
    let taken = sieci::carry(&mut graph, &vec![0, 1, 2, 3], 5);
    assert_eq!(taken, vec![0, 1, 2]);
    assert_eq!(flows(&graph), vec![5, 5, 5]);
}

#[test]
fn carry_returns_the_links_in_the_order_of_the_path() {
    let (mut graph, _) = network(4, &[(0, 1, 10), (1, 2, 10), (2, 3, 10)]);
    let taken = sieci::carry(&mut graph, &vec![3, 2, 1, 0], 5);
    assert_eq!(taken, vec![2, 1, 0]);
    assert_eq!(flows(&graph), vec![5, 5, 5]);
}

#[test]
fn carry_leaves_the_other_links_alone() {
    // a tree: 0 - 1 - 2 - 3, with branches 1 - 4 and 2 - 5
    let (mut graph, _) = network(6, &[(0, 1, 10), (1, 2, 10), (2, 3, 10), (1, 4, 10), (2, 5, 10)]);
    let taken = sieci::carry(&mut graph, &vec![4, 1, 2, 5], 7);
    assert_eq!(taken, vec![3, 1, 4]);
    assert_eq!(flows(&graph), vec![0, 7, 0, 7, 7]);
    assert_eq!(
        graph.edge_weight(EdgeIndex::new(1)),
        Some(&Connection { bandwidth: 10, flow: 7, stability: FULL_STABILITY })
    );
}

#[test]
fn carry_along_a_single_node_changes_nothing() {
    let (mut graph, _) = network(3, &[(0, 1, 10), (1, 2, 10)]);
    let taken = sieci::carry(&mut graph, &vec![1], 9);
    assert!(taken.is_empty());
    assert_eq!(flows(&graph), vec![0, 0]);
}

#[test]
fn carry_twice_accumulates() {
    let (mut graph, _) = network(3, &[(0, 1, 10), (1, 2, 10)]);
    sieci::carry(&mut graph, &vec![0, 1, 2], 4);
    sieci::carry(&mut graph, &vec![1, 2], 3);
    assert_eq!(flows(&graph), vec![4, 7]);
}

#[test]
fn carry_takes_the_link_that_routing_takes_between_the_same_nodes() {
    let (graph, nodes) = network(3, &[(0, 1, 10), (0, 1, 20), (1, 2, 10), (1, 0, 30)]);
    let mut carried = graph.clone();
    let mut routed = graph.clone();
    let taken = sieci::carry(&mut carried, &vec![0, 1, 2], 6);
    assert_eq!(taken.len(), 2);
    let (a, b) = carried.edge_endpoints(EdgeIndex::new(taken[0] as usize)).unwrap();
    assert!((a.index(), b.index()) == (0, 1) || (a.index(), b.index()) == (1, 0));
    assert_eq!(taken[1], 2);
    assert_eq!(flows(&carried).iter().sum::<u64>(), 12);
    assert_eq!(route(&mut routed, &nodes, &demand(3, &[(0, 2, 6)])), 0);
    assert_eq!(flows(&carried), flows(&routed));
}
