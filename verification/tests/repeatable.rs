use petgraph::stable_graph::{EdgeIndex, NodeIndex, StableUnGraph};
use rand::Rng;
use sieci::{reset_flow, route, Connection, Intensity, Topology, FULL_STABILITY};

fn flows(graph: &Topology) -> Vec<u64> {
    graph.edge_weights().map(|w| w.flow).collect()
}

/// Routing goes by the links and the order in which they were laid: copies
/// of a network route alike, and routing again doubles every flow, also where
/// two routes are equally short or two links join the same nodes.
#[test]
fn routing_is_repeatable_on_ties_and_parallel_links() {
    let mut rng = rand::thread_rng();
    let mut carried = 0;
    for _ in 0..500 {
        let count = rng.gen_range(2..9);
        let mut graph: Topology = StableUnGraph::with_capacity(count, 20);
        let nodes: Vec<u32> = (0..count).map(|_| graph.add_node(0).index() as u32).collect();
        for _ in 0..rng.gen_range(0..18) {
            let a = rng.gen_range(0..count);
            let b = rng.gen_range(0..count);
            graph.add_edge(NodeIndex::new(a), NodeIndex::new(b), Connection::with_stability(1000, FULL_STABILITY));
        }
        // holes and reuse of freed slots
        for _ in 0..rng.gen_range(0..4) {
            if graph.edge_count() > 0 {
                let ids: Vec<EdgeIndex> = graph.edge_indices().collect();
                graph.remove_edge(ids[rng.gen_range(0..ids.len())]);
                let a = rng.gen_range(0..count);
                let b = rng.gen_range(0..count);
                graph.add_edge(NodeIndex::new(a), NodeIndex::new(b), Connection::with_stability(1000, FULL_STABILITY));
            }
        }
        let mut intensity = Intensity::zeros(count).unwrap();
        for i in 0..count {
            for j in i + 1..count {
                assert!(intensity.set(i, j, rng.gen_range(0..5)));
            }
        }
        let mut first = graph.clone();
        let mut second = graph.clone();
        reset_flow(&mut first);
        reset_flow(&mut second);
        let u1 = route(&mut first, &nodes, &intensity);
        let u2 = route(&mut second, &nodes, &intensity);
        assert_eq!(u1, u2, "clones disagree on unreachable pairs");
        assert_eq!(flows(&first), flows(&second), "clones disagree on flows");
        let once = flows(&first);
        route(&mut first, &nodes, &intensity);
        let twice = flows(&first);
        let doubled: Vec<u64> = once.iter().map(|f| 2 * f).collect();
        assert_eq!(twice, doubled, "second routing chose other routes");
        if once.iter().any(|f| *f != 0) {
            carried += 1;
        }
    }
    assert!(carried > 100, "too few networks carried flow for the comparison to mean anything: {}", carried);
}

/// Builds the links `laid` in order on `count` nodes. With `detour`, links
/// beyond them are laid first at the end and taken away again, so that the
/// two graphs hold the same links under the same indices in the same order
/// of laying, but have different free slots and different storage behind
/// them.
fn built(count: usize, laid: &[(usize, usize)], detour: usize) -> (Topology, Vec<u32>) {
    let mut graph: Topology = StableUnGraph::with_capacity(count, 4);
    let nodes: Vec<u32> = (0..count).map(|_| graph.add_node(0).index() as u32).collect();
    for (a, b) in laid {
        graph.add_edge(NodeIndex::new(*a), NodeIndex::new(*b), Connection::with_stability(1000, FULL_STABILITY));
    }
    let mut extra = Vec::new();
    for k in 0..detour {
        extra.push(graph.add_edge(
            NodeIndex::new(k % count),
            NodeIndex::new((k + 1) % count),
            Connection::with_stability(1, FULL_STABILITY),
        ));
    }
    for e in extra {
        graph.remove_edge(e);
    }
    (graph, nodes)
}

fn wiring(graph: &Topology) -> Vec<(usize, usize, usize)> {
    graph
        .edge_indices()
        .map(|e| {
            let (a, b) = graph.edge_endpoints(e).unwrap();
            (e.index(), a.index(), b.index())
        })
        .collect()
}

/// Two networks with the same links under the same indices, laid in the same
/// order, route alike, though links came and went on one of them meanwhile.
#[test]
fn routes_depend_on_wiring_and_laying_order_only() {
    let mut rng = rand::thread_rng();
    let mut carried = 0;
    for _ in 0..500 {
        let count = rng.gen_range(2..9);
        let laid: Vec<(usize, usize)> =
            (0..rng.gen_range(0..16)).map(|_| (rng.gen_range(0..count), rng.gen_range(0..count))).collect();
        let (mut plain, nodes) = built(count, &laid, 0);
        let (mut other, other_nodes) = built(count, &laid, rng.gen_range(1..6));
        assert_eq!(nodes, other_nodes);
        assert_eq!(wiring(&plain), wiring(&other), "the two histories should end with the same links");
        let mut intensity = Intensity::zeros(count).unwrap();
        for i in 0..count {
            for j in i + 1..count {
                assert!(intensity.set(i, j, rng.gen_range(0..5)));
            }
        }
        let u1 = route(&mut plain, &nodes, &intensity);
        let u2 = route(&mut other, &nodes, &intensity);
        assert_eq!(u1, u2);
        assert_eq!(flows(&plain), flows(&other), "equal wiring and laying order, different routes");
        if flows(&plain).iter().any(|f| *f != 0) {
            carried += 1;
        }
    }
    assert!(carried > 100, "too few graphs carried flow for the comparison to mean anything: {}", carried);
}
