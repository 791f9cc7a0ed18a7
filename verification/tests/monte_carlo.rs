use petgraph::stable_graph::{NodeIndex, StableUnGraph};
use petgraph::visit::IntoEdgeReferences;
use rand::distributions::{Distribution, Uniform};
use rand::{thread_rng, Rng};
use sieci::{
    init_graph, random_disconnect, reset_flow, set_flow, test_network, Congestion, Connection,
    Intensity, Topology, NODES,
};

/// The congestion metric: the sum of a / (c - a) over the links, divided by
/// the whole demand; 1 where that is not positive.
fn metric(congestion: &Congestion) -> f64 {
    let mut sum_e = 0.;
    for &(flow, bandwidth) in &congestion.loads {
        let (a, c) = (flow as f64, bandwidth as f64);
        sum_e += a / (c - a);
    }
    let t = sum_e / congestion.demand as f64;
    if t > 0. {
        t
    } else {
        1.
    }
}

/// The metric without the clamp: a link within its bandwidth adds
/// a / (c - a), an overloaded one adds a.
fn plain_metric(congestion: &Congestion) -> f64 {
    let mut sum_e = 0.;
    for &(flow, bandwidth) in &congestion.loads {
        let (a, c) = (flow as f64, bandwidth as f64);
        let mut val = 1.;
        if a <= c {
            val = c - a;
        }
        sum_e += a / val;
    }
    1. / congestion.demand as f64 * sum_e
}

fn fixed_point(probability: f64) -> u64 {
    (probability * 4503599627370496.) as u64
}

/// The small network: twenty nodes, a tree with five more links between its
/// distribution nodes, bandwidths in plain units and stabilities drawn from
/// 0.9 up to 1.
fn small_network() -> (Topology, Vec<u32>, Intensity) {
    let mut graph: Topology = StableUnGraph::with_capacity(NODES, 30);
    let mut nodes = Vec::new();
    for _ in 0..NODES {
        nodes.push(graph.add_node(0).index() as u32);
    }
    let cables: [(usize, usize, u64); 24] = [
        (0, 3, 1000),
        (1, 3, 1000),
        (2, 3, 1000),
        (3, 4, 10_000),
        (4, 5, 10_000),
        (5, 6, 1000),
        (5, 7, 1000),
        (5, 8, 1000),
        (4, 9, 100_000),
        (9, 10, 10_000),
        (10, 11, 1000),
        (10, 12, 1000),
        (9, 13, 100_000),
        (13, 14, 10_000),
        (14, 15, 1000),
        (14, 16, 1000),
        (13, 17, 10_000),
        (17, 18, 1000),
        (17, 19, 1000),
        (3, 5, 10_000),
        (3, 10, 10_000),
        (5, 14, 10_000),
        (14, 17, 10_000),
        (10, 17, 10_000),
    ];
    for (a, b, bandwidth) in cables {
        let stability = fixed_point(thread_rng().gen_range(0.9..1.));
        graph.add_edge(
            NodeIndex::new(nodes[a] as usize),
            NodeIndex::new(nodes[b] as usize),
            Connection::with_stability(bandwidth, stability),
        );
    }
    let small = vec![0, 1, 2, 6, 7, 8, 11, 12, 15, 16, 18, 19];
    let medium = vec![3, 5, 10, 14, 17];
    let big = vec![4, 9, 13];
    let mut intensity = Intensity::zeros(NODES).unwrap();
    let mut put = |index1: usize, index2: usize, value: u64| {
        if index1 < index2 {
            assert!(intensity.set(index1, index2, value));
        } else {
            assert!(intensity.set(index2, index1, value));
        }
    };
    for i in 0..small.len() {
        for j in (i + 1)..small.len() {
            put(small[i], small[j], 10);
        }
    }
    for i in &small {
        for j in &medium {
            put(*i, *j, 20);
        }
    }
    for i in &small {
        for j in &big {
            put(*i, *j, 30);
        }
    }
    for i in 0..medium.len() {
        for j in (i + 1)..medium.len() {
            put(medium[i], medium[j], 40);
        }
    }
    for i in &medium {
        for j in &big {
            put(*i, *j, 60);
        }
    }
    for i in 0..big.len() {
        for j in (i + 1)..big.len() {
            put(big[i], big[j], 80);
        }
    }
    (graph, nodes, intensity)
}

fn scale(intensity: &mut Intensity, factor: f64) {
    for i in 0..intensity.size() {
        for j in 0..intensity.size() {
            let x = intensity.get(i, j).unwrap();
            assert!(intensity.set(i, j, (x as f64 * factor) as u64));
        }
    }
}

#[test]
fn lib_monte_carlo() {
    let (graph, nodes, intensity) = init_graph();

    let graph = graph.clone();
    let mut data = vec![];
    let mut failed = 0;
    let mut reliability = 0;
    let mut overloaded = 0;
    let iterations = 1000;
    for _ in 0..iterations {
        let mut graph = graph.clone();
        random_disconnect(&mut graph);
        reset_flow(&mut graph);
        let res = set_flow(&mut graph, &nodes, &intensity);
        let (congestion, over) = test_network(&graph, &intensity);
        let t = metric(&congestion);
        overloaded += over;
        if res {
            data.push(t);
            if t < 1. {
                reliability += 1;
            }
        } else {
            failed += 1;
        }
    }
    println!("Average T value: {}", data.iter().sum::<f64>() / data.len() as f64);
    println!("Failed attempts: {} / {}", failed, iterations);
    let over = overloaded as f64 / iterations as f64;
    println!("Overloaded connections: {}", over);
    let rel = reliability as f64 / iterations as f64;
    println!("Reliability: {}", rel);
    assert_eq!(failed + data.len(), iterations);
    assert!((0. ..=1.).contains(&rel));
}

#[test]
fn disconnect() {
    for _ in 0..100 {
        let (mut graph, nodes, intensity) = init_graph();
        random_disconnect(&mut graph);
        reset_flow(&mut graph);
        set_flow(&mut graph, &nodes, &intensity);
        test_network(&graph, &intensity);
    }
}

#[test]
fn main_monte_carlo() {
    let (graph, nodes, intensity) = small_network();

    let graph = graph.clone();
    let mut data = vec![];
    let mut failed = 0;
    let iterations = 1000;
    for _ in 0..iterations {
        let mut graph = graph.clone();
        random_disconnect(&mut graph);
        reset_flow(&mut graph);
        let res = set_flow(&mut graph, &nodes, &intensity);
        let t = plain_metric(&test_network(&graph, &intensity).0);
        if res {
            data.push(t);
        } else {
            failed += 1;
        }
    }
    println!("Average T value: {}", data.iter().sum::<f64>() / data.len() as f64);
    println!("Failed attempts: {} / {}", failed, iterations);
    assert_eq!(failed + data.len(), iterations);
}

#[test]
fn experiment1() {
    let (graph, nodes, intensity) = small_network();

    let mut intensity = intensity;
    let mut graph = graph.clone();
    for _ in 0..100 {
        scale(&mut intensity, 1.05);

        reset_flow(&mut graph);
        set_flow(&mut graph, &nodes, &intensity);
        plain_metric(&test_network(&graph, &intensity).0);
    }
    println!("NICCCC");
}

#[test]
fn experiment2() {
    let (graph, nodes, intensity) = small_network();

    let mut graph = graph.clone();
    for _ in 0..100 {
        graph
            .edge_weights_mut()
            .for_each(|x| x.bandwidth = (x.bandwidth as f64 * 1.05) as u64);

        reset_flow(&mut graph);
        set_flow(&mut graph, &nodes, &intensity);
        plain_metric(&test_network(&graph, &intensity).0);
    }
}

#[test]
fn experiment3() {
    let (graph, nodes, intensity) = small_network();

    let mut graph = graph.clone();
    let average = graph
        .edge_references()
        .fold(0., |acc, x| acc + x.weight().bandwidth as f64)
        / graph.edge_count() as f64;
    let mut rng = thread_rng();
    let range = Uniform::new(0, NODES);
    for _ in 0..20 {
        let stability = fixed_point(thread_rng().gen_range(0.9..1.));
        graph.add_edge(
            NodeIndex::new(nodes[range.sample(&mut rng)] as usize),
            NodeIndex::new(nodes[range.sample(&mut rng)] as usize),
            Connection::with_stability(average as u64, stability),
        );

        reset_flow(&mut graph);
        set_flow(&mut graph, &nodes, &intensity);
        plain_metric(&test_network(&graph, &intensity).0);
    }
    assert_eq!(graph.edge_count(), 44);
}
