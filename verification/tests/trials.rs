use petgraph::stable_graph::{NodeIndex, StableUnGraph};
use sieci::{reliability, trial, Congestion, Connection, Intensity, Tally, Topology, FULL_STABILITY};

fn path(count: usize, stability: u64) -> (Topology, Vec<u32>) {
    let mut graph: Topology = StableUnGraph::with_capacity(count, count);
    let nodes: Vec<u32> = (0..count).map(|_| graph.add_node(0).index() as u32).collect();
    for k in 0..count - 1 {
        graph.add_edge(
            NodeIndex::new(nodes[k] as usize),
            NodeIndex::new(nodes[k + 1] as usize),
            Connection::with_stability(1000, stability),
        );
    }
    (graph, nodes)
}

fn single_demand(count: usize, volume: u64) -> Intensity {
    let mut intensity = Intensity::zeros(count).unwrap();
    assert!(intensity.set(0, count - 1, volume));
    intensity
}

fn t_value(congestion: &Congestion) -> f64 {
    let mut sum_e = 0.;
    for &(flow, bandwidth) in &congestion.loads {
        let (a, c) = (flow as f64, bandwidth as f64);
        sum_e += a / (c - a);
    }
    let t = sum_e / congestion.demand as f64;
    if t > 0. {
        t
    } else {
        1.
    }
}

#[test]
fn a_trial_on_a_stable_path() {
    let (graph, nodes) = path(4, FULL_STABILITY);
    let outcome = trial(&graph, &nodes, &single_demand(4, 500));
    assert!(outcome.joined);
    assert_eq!(outcome.overloaded, 0);
    assert_eq!(outcome.congestion.loads, vec![(500, 1000), (500, 1000), (500, 1000)]);
    assert_eq!(outcome.congestion.demand, 500);
    assert_eq!(t_value(&outcome.congestion), 0.006);
}

#[test]
fn a_trial_leaves_the_base_topology_alone() {
    let (mut graph, nodes) = path(3, 0);
    graph.edge_weights_mut().for_each(|w| w.flow = 77);
    let outcome = trial(&graph, &nodes, &single_demand(3, 5));
    assert!(!outcome.joined);
    assert_eq!(outcome.congestion.loads, vec![]);
    assert_eq!(graph.edge_count(), 2);
    assert!(graph.edge_weights().all(|w| w.flow == 77));
}

#[test]
fn a_trial_resets_the_flow_before_routing() {
    let (mut graph, nodes) = path(3, FULL_STABILITY);
    graph.edge_weights_mut().for_each(|w| w.flow = 77);
    let outcome = trial(&graph, &nodes, &single_demand(3, 5));
    assert_eq!(outcome.congestion.loads, vec![(5, 1000), (5, 1000)]);
}

#[test]
fn a_trial_counts_overloaded_links() {
    let (graph, nodes) = path(3, FULL_STABILITY);
    let outcome = trial(&graph, &nodes, &single_demand(3, 1001));
    assert!(outcome.joined);
    assert_eq!(outcome.overloaded, 2);
    assert_eq!(t_value(&outcome.congestion), 1.);
}

#[test]
fn trials_on_a_stable_network_agree() {
    let (graph, nodes) = path(5, FULL_STABILITY);
    let intensity = single_demand(5, 250);
    let first = trial(&graph, &nodes, &intensity);
    for _ in 0..50 {
        let next = trial(&graph, &nodes, &intensity);
        assert_eq!(next.joined, first.joined);
        assert_eq!(next.overloaded, first.overloaded);
        assert_eq!(next.congestion.loads, first.congestion.loads);
        assert_eq!(next.congestion.demand, first.congestion.demand);
    }
}

#[test]
fn tally_starts_empty() {
    assert_eq!(Tally::new(), Tally { trials: 0, failed: 0, reliable: 0, overloaded: 0 });
    assert_eq!(Tally::new().connected(), 0);
}

#[test]
fn tally_counts_each_trial_once() {
    let mut tally = Tally::new();
    tally.record(true, true, 2);
    assert_eq!(tally, Tally { trials: 1, failed: 0, reliable: 1, overloaded: 2 });
    tally.record(true, false, 3);
    assert_eq!(tally, Tally { trials: 2, failed: 0, reliable: 1, overloaded: 5 });
    tally.record(false, true, 7);
    assert_eq!(tally, Tally { trials: 3, failed: 1, reliable: 1, overloaded: 12 });
    tally.record(false, false, 0);
    assert_eq!(tally, Tally { trials: 4, failed: 2, reliable: 1, overloaded: 12 });
    assert_eq!(tally.connected(), 2);
}

#[test]
fn tally_holds_more_overloaded_links_than_a_word() {
    let mut tally = Tally::new();
    tally.record(true, true, usize::MAX);
    tally.record(true, true, usize::MAX);
    assert_eq!(tally.overloaded, 2 * (usize::MAX as u128));
}

#[test]
fn reliability_of_a_stable_network_within_the_threshold() {
    let (graph, nodes) = path(4, FULL_STABILITY);
    let estimate = reliability(&graph, &nodes, &single_demand(4, 500), 25, |c: &Congestion| {
        t_value(c) < 0.01
    });
    assert_eq!(estimate.tally, Tally { trials: 25, failed: 0, reliable: 25, overloaded: 0 });
    assert_eq!(estimate.samples.len(), 25);
    assert!(estimate.samples.iter().all(|c| t_value(c) == 0.006));
}

#[test]
fn reliability_of_a_stable_network_beyond_the_threshold() {
    let (graph, nodes) = path(4, FULL_STABILITY);
    let estimate = reliability(&graph, &nodes, &single_demand(4, 1500), 10, |c: &Congestion| {
        t_value(c) < 0.006
    });
    assert_eq!(estimate.tally, Tally { trials: 10, failed: 0, reliable: 0, overloaded: 30 });
    assert_eq!(estimate.samples.len(), 10);
}

#[test]
fn reliability_of_a_network_that_always_falls_apart() {
    let (graph, nodes) = path(4, 0);
    let estimate = reliability(&graph, &nodes, &single_demand(4, 500), 10, |_: &Congestion| true);
    assert_eq!(estimate.tally, Tally { trials: 10, failed: 10, reliable: 0, overloaded: 0 });
    assert!(estimate.samples.is_empty());
    assert_eq!(estimate.tally.connected(), 0);
}

#[test]
fn reliability_of_no_trials() {
    let (graph, nodes) = path(4, FULL_STABILITY);
    let estimate = reliability(&graph, &nodes, &single_demand(4, 500), 0, |_: &Congestion| true);
    assert_eq!(estimate.tally, Tally::new());
    assert!(estimate.samples.is_empty());
}

#[test]
fn reliability_lies_between_nothing_and_everything() {
    let (graph, nodes) = path(6, FULL_STABILITY / 8 * 7);
    let estimate = reliability(&graph, &nodes, &single_demand(6, 500), 200, |c: &Congestion| {
        t_value(c) < 1.
    });
    let tally = estimate.tally;
    assert_eq!(tally.trials, 200);
    assert!(tally.reliable <= tally.trials);
    assert_eq!(tally.failed + estimate.samples.len(), 200);
    assert_eq!(tally.connected(), estimate.samples.len());
    assert_eq!(tally.reliable, estimate.samples.len());
    assert!(tally.failed > 50 && tally.failed < 150);
    let value = tally.reliable as f64 / tally.trials as f64;
    assert!((0. ..=1.).contains(&value));
}
