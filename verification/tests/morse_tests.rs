use std::collections::HashMap;

use morse::morse::{Grade, MorseComplex, MorseGraph, MorseKind, MorseSmaleComplex, Persistence};
use petgraph::graph::{NodeIndex, UnGraph};

#[derive(Clone, Debug)]
struct LabeledPoint {
    id: i64,
    value: f64,
    point: Vec<f64>,
}

/// An integer level that orders the floats as they compare (no NaN).
fn order_key(x: f64) -> i64 {
    let x = if x == 0.0 { 0.0 } else { x };
    let bits = x.to_bits() as i64;
    if bits < 0 {
        bits ^ i64::MAX
    } else {
        bits
    }
}

fn grade(x: f64) -> Grade {
    if x.is_nan() {
        Grade::Incomparable
    } else {
        Grade::Level(order_key(x))
    }
}

/// The library's graph for a petgraph graph of labelled points.
fn morse_graph(graph: &UnGraph<LabeledPoint, f64>) -> MorseGraph {
    let n = graph.node_count();
    let mut ids = Vec::new();
    let mut values = Vec::new();
    let mut neighbors = Vec::new();
    let mut grades = Vec::new();
    for u in 0..n {
        let node = NodeIndex::new(u);
        ids.push(graph[node].id);
        values.push(order_key(graph[node].value));
        let mut nbrs = Vec::new();
        let mut grs = Vec::new();
        for v in graph.neighbors(node) {
            nbrs.push(v.index());
            let edge = graph.find_edge(node, v).unwrap();
            grs.push(grade((graph[v].value / graph[edge]).abs()));
        }
        neighbors.push(nbrs);
        grades.push(grs);
    }
    MorseGraph::new(ids, values, neighbors, grades).unwrap()
}

fn persistence_value(p: Persistence, values: &[f64]) -> f64 {
    match p {
        Persistence::Infinite => f64::INFINITY,
        Persistence::Zero => 0.,
        Persistence::Span(a, b) => (values[a] - values[b]).abs(),
    }
}

fn lifetimes_of(complex: &MorseComplex, values: &[f64]) -> HashMap<NodeIndex, f64> {
    complex
        .get_persistence()
        .into_iter()
        .map(|(node, p)| (NodeIndex::new(node), persistence_value(p, values)))
        .collect()
}

fn build(points: &[LabeledPoint], edges: &[(usize, usize, f64)]) -> (UnGraph<LabeledPoint, f64>, Vec<NodeIndex>, Vec<f64>) {
    let mut graph = UnGraph::new_undirected();
    let mut node_lookup = Vec::with_capacity(points.len());
    for point in points {
        let node = graph.add_node(point.to_owned());
        node_lookup.push(node);
    }
    for &(a, b, w) in edges {
        graph.add_edge(node_lookup[a], node_lookup[b], w);
    }
    let values = points.iter().map(|p| p.value).collect();
    (graph, node_lookup, values)
}

fn lp(id: i64, value: f64, point: Vec<f64>) -> LabeledPoint {
    LabeledPoint { id, value, point }
}

#[test]
fn test_single() {
    let points = [lp(0, -1., vec![0., 0.]), lp(1, 1., vec![1., 0.])];
    let (graph, node_lookup, values) = build(&points, &[(0, 1, 0.)]);
    let complex = MorseComplex::from_graph(MorseKind::Descending, &morse_graph(&graph)).unwrap();
    let lifetimes = lifetimes_of(&complex, &values);
    assert_eq!(lifetimes[&node_lookup[0]], 0.);
    assert_eq!(lifetimes[&node_lookup[1]], f64::INFINITY);
}

#[test]
fn test_triangle() {
    let points = [lp(0, -1., vec![0., 0.]), lp(1, 0., vec![1., 1.]), lp(2, 1., vec![1., 0.])];
    let (graph, node_lookup, values) = build(&points, &[(0, 1, 0.), (0, 2, 0.), (1, 2, 0.)]);
    let complex = MorseComplex::from_graph(MorseKind::Descending, &morse_graph(&graph)).unwrap();
    let lifetimes = lifetimes_of(&complex, &values);
    assert_eq!(lifetimes[&node_lookup[0]], 0.);
    assert_eq!(lifetimes[&node_lookup[1]], 0.);
    assert_eq!(lifetimes[&node_lookup[2]], f64::INFINITY);
}

#[test]
fn test_square() {
    let points = [
        lp(0, 1., vec![0., 0.]),
        lp(1, -1., vec![1., 0.]),
        lp(2, 0., vec![0., 1.]),
        lp(3, 2., vec![1., 1.]),
    ];
    let (graph, node_lookup, values) = build(&points, &[(0, 1, 0.), (0, 2, 0.), (1, 3, 0.), (2, 3, 0.)]);
    let complex = MorseComplex::from_graph(MorseKind::Descending, &morse_graph(&graph)).unwrap();
    let lifetimes = lifetimes_of(&complex, &values);
    assert_eq!(lifetimes[&node_lookup[0]], 1.);
    assert_eq!(lifetimes[&node_lookup[1]], 0.);
    assert_eq!(lifetimes[&node_lookup[2]], 0.);
    assert_eq!(lifetimes[&node_lookup[3]], f64::INFINITY);
}

#[test]
fn test_all_equal_values() {
    let points = [
        lp(0, 0., vec![0., 0.]),
        lp(1, 0., vec![1., 0.]),
        lp(2, 0., vec![0., 1.]),
        lp(3, 0., vec![1., 1.]),
        lp(4, 1., vec![1., 1.]),
    ];
    let (graph, node_lookup, values) = build(&points, &[(0, 1, 1.), (0, 2, 1.), (1, 3, 1.), (2, 3, 1.), (2, 4, 1.)]);
    let complex = MorseComplex::from_graph(MorseKind::Descending, &morse_graph(&graph)).unwrap();
    let lifetimes = lifetimes_of(&complex, &values);
    println!("{:?}", lifetimes);
    assert_eq!(lifetimes[&node_lookup[0]], 0.);
    assert_eq!(lifetimes[&node_lookup[1]], 0.);
    assert_eq!(lifetimes[&node_lookup[2]], 0.);
    assert_eq!(lifetimes[&node_lookup[3]], 0.);
    assert_eq!(lifetimes[&node_lookup[4]], f64::INFINITY);
}

fn big_square() -> (UnGraph<LabeledPoint, f64>, Vec<NodeIndex>, Vec<f64>) {
    let points = [
        lp(0, 6., vec![0., 0.]),
        lp(1, 2., vec![1., 0.]),
        lp(2, 3., vec![2., 0.]),
        lp(3, 5., vec![0., 1.]),
        lp(4, 4., vec![1., 1.]),
        lp(5, -5., vec![1., 2.]),
        lp(6, 0., vec![0., 2.]),
        lp(7, 1., vec![1., 2.]),
        lp(8, 10., vec![2., 2.]),
    ];
    build(
        &points,
        &[
            (0, 1, 1.),
            (1, 2, 1.),
            (0, 3, 1.),
            (1, 4, 1.),
            (2, 5, 1.),
            (3, 4, 1.),
            (4, 5, 1.),
            (3, 6, 1.),
            (4, 7, 1.),
            (5, 8, 1.),
            (6, 7, 1.),
            (7, 8, 1.),
        ],
    )
}

#[test]
fn test_big_square_morse_smale() {
    let (graph, node_lookup, values) = big_square();
    let complex = MorseSmaleComplex::from_graph(&morse_graph(&graph)).unwrap();
    let lifetimes = lifetimes_of(&complex.descending_complex, &values);
    assert_eq!(lifetimes[&node_lookup[0]], 5.);
    assert_eq!(lifetimes[&node_lookup[1]], 0.);
    assert_eq!(lifetimes[&node_lookup[2]], 1.);
    assert_eq!(lifetimes[&node_lookup[3]], 0.);
    assert_eq!(lifetimes[&node_lookup[4]], 0.);
    assert_eq!(lifetimes[&node_lookup[5]], 0.);
    assert_eq!(lifetimes[&node_lookup[6]], 0.);
    assert_eq!(lifetimes[&node_lookup[7]], 0.);
    assert_eq!(lifetimes[&node_lookup[8]], f64::INFINITY);

    let lifetimes = lifetimes_of(&complex.ascending_complex, &values);
    println!("{:?}", lifetimes);
    assert_eq!(lifetimes[&node_lookup[0]], 0.);
    assert_eq!(lifetimes[&node_lookup[1]], 1.);
    assert_eq!(lifetimes[&node_lookup[2]], 0.);
    assert_eq!(lifetimes[&node_lookup[3]], 0.);
    assert_eq!(lifetimes[&node_lookup[4]], 0.);
    assert_eq!(lifetimes[&node_lookup[5]], f64::INFINITY);
    assert_eq!(lifetimes[&node_lookup[6]], 4.);
    assert_eq!(lifetimes[&node_lookup[7]], 0.);
    assert_eq!(lifetimes[&node_lookup[8]], 0.);
}

/// Orders the filtration of `complex` by the magnitude of its steps' persistence.
fn sort_by_persistence(complex: &mut MorseComplex, values: &[f64]) {
    let keys: Vec<i64> = complex.filtration.iter().map(|s| order_key(persistence_value(s.time, values))).collect();
    complex.sort_filtration(&keys);
}

#[test]
fn test_filtration() {
    let points = [
        lp(0, 3., vec![0., 0.]),
        lp(1, -1., vec![1., 0.]),
        lp(2, 10., vec![0., 1.]),
        lp(3, 2., vec![1., 1.]),
        lp(4, 7., vec![1., 1.]),
    ];
    let (graph, node_lookup, values) = build(&points, &[(0, 1, 0.), (0, 3, 0.), (1, 2, 0.), (1, 4, 0.), (3, 4, 0.)]);
    let mut complex = MorseComplex::from_graph(MorseKind::Descending, &morse_graph(&graph)).unwrap();
    sort_by_persistence(&mut complex, &values);
    let lifetimes = lifetimes_of(&complex, &values);
    println!("{:?}", lifetimes);
    assert_eq!(lifetimes[&node_lookup[0]], 1.);
    assert_eq!(lifetimes[&node_lookup[1]], 0.);
    assert_eq!(lifetimes[&node_lookup[2]], f64::INFINITY);
    assert_eq!(lifetimes[&node_lookup[3]], 0.);
    assert_eq!(lifetimes[&node_lookup[4]], 8.);

    let filtration = complex.filtration;
    let expected = [(1., node_lookup[0], node_lookup[4]), (8., node_lookup[4], node_lookup[2])];
    assert_eq!(filtration.len(), expected.len());
    for (actual, expected) in filtration.iter().zip(expected.iter()) {
        assert_eq!(persistence_value(actual.time, &values), expected.0);
        assert_eq!(NodeIndex::new(actual.destroyed_cell), expected.1);
        assert_eq!(NodeIndex::new(actual.owning_cell), expected.2);
    }
}
