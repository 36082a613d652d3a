use morse::morse::{Grade, MorseComplex, MorseError, MorseGraph, MorseKind, MorseSmaleComplex, Persistence};
use morse::ordering::stable_sort_indices;
use morse::pointed_union_find::PointedUnionFind;

/// A graph with integer values, unit edge weights, ids `100 + node`, and the
/// neighbours of each node in the order in which its edges are listed.
fn int_graph(values: &[i64], edges: &[(usize, usize)]) -> MorseGraph {
    let n = values.len();
    let mut neighbors: Vec<Vec<usize>> = vec![Vec::new(); n];
    for &(a, b) in edges {
        neighbors[a].push(b);
        neighbors[b].push(a);
    }
    let grades = neighbors.iter().map(|ns| ns.iter().map(|&v| Grade::Level(values[v].abs())).collect()).collect();
    let ids = (0..n).map(|i| 100 + i as i64).collect();
    MorseGraph::new(ids, values.to_vec(), neighbors, grades).unwrap()
}

fn persistence_of(complex: &MorseComplex, node: usize) -> Persistence {
    complex.get_persistence().into_iter().find(|(v, _)| *v == node).unwrap().1
}

fn ancestor_of(complex: &MorseComplex, node: usize) -> usize {
    complex.get_complex().into_iter().find(|(v, _)| *v == node).unwrap().1
}

const SQUARE_VALUES: [i64; 9] = [6, 2, 3, 5, 4, -5, 0, 1, 10];
const SQUARE_EDGES: [(usize, usize); 12] =
    [(0, 1), (1, 2), (0, 3), (1, 4), (2, 5), (3, 4), (4, 5), (3, 6), (4, 7), (5, 8), (6, 7), (7, 8)];

#[test]
fn stable_sort_orders_by_key_then_index() {
    let keys = vec![3, 1, 3, 2];
    assert_eq!(stable_sort_indices(&keys, true), vec![0, 2, 3, 1]);
    assert_eq!(stable_sort_indices(&keys, false), vec![1, 3, 0, 2]);
    assert_eq!(stable_sort_indices(&vec![], true), Vec::<usize>::new());
}

#[test]
fn union_keeps_the_label_of_its_first_argument() {
    let mut cells = PointedUnionFind::new(5);
    for i in 0..5 {
        assert_eq!(cells.find(i), i);
    }
    cells.union(3, 1);
    assert_eq!(cells.find(1), 3);
    assert_eq!(cells.find(3), 3);
    cells.union(0, 3);
    assert_eq!(cells.find(1), 0);
    assert_eq!(cells.find(3), 0);
    assert_eq!(cells.find(0), 0);
    cells.union(4, 1);
    assert_eq!(cells.find(0), 4);
    assert_eq!(cells.find(2), 2);
    cells.union(2, 2);
    assert_eq!(cells.find(2), 2);
}

#[test]
fn graph_construction_errors() {
    let e = MorseGraph::new(vec![0], vec![0, 1], vec![vec![], vec![]], vec![vec![], vec![]]);
    assert_eq!(e.err(), Some(MorseError::MissingNode {}));
    let e = MorseGraph::new(vec![0, 1], vec![0, 1], vec![vec![1], vec![0]], vec![vec![], vec![Grade::Incomparable]]);
    assert_eq!(e.err(), Some(MorseError::MissingEdgeWeight {}));
    let e = MorseGraph::new(vec![0, 1], vec![0, 1], vec![vec![1], vec![2]], vec![vec![Grade::Level(1)], vec![Grade::Level(1)]]);
    assert_eq!(e.err(), Some(MorseError::BadNeighbor {}));
    let ok = MorseGraph::new(vec![0, 1], vec![0, 1], vec![vec![1], vec![0]], vec![vec![Grade::Level(1)], vec![Grade::Level(0)]]);
    assert!(ok.is_ok());
    assert_eq!(ok.ok().unwrap().num_nodes(), 2);
}

#[test]
fn find_edge_finds_the_first_entry() {
    let g = MorseGraph::new(
        vec![0, 1, 2],
        vec![0, 1, 2],
        vec![vec![2, 1, 2], vec![0], vec![0, 0]],
        vec![vec![Grade::Level(2); 3], vec![Grade::Level(0)], vec![Grade::Level(0); 2]],
    )
    .unwrap();
    assert_eq!(g.find_edge(0, 2), Some(0));
    assert_eq!(g.find_edge(0, 1), Some(1));
    assert_eq!(g.find_edge(1, 2), None);
}

#[test]
fn global_extremum_keeps_infinite_persistence() {
    let g = int_graph(&SQUARE_VALUES, &SQUARE_EDGES);
    let desc = MorseComplex::from_graph(MorseKind::Descending, &g).unwrap();
    assert_eq!(persistence_of(&desc, 8), Persistence::Infinite);
    assert_eq!(ancestor_of(&desc, 8), 8);
    let asc = MorseComplex::from_graph(MorseKind::Ascending, &g).unwrap();
    assert_eq!(persistence_of(&asc, 5), Persistence::Infinite);
    assert_eq!(ancestor_of(&asc, 5), 5);
}

#[test]
fn connected_graph_has_a_single_survivor() {
    let g = int_graph(&SQUARE_VALUES, &SQUARE_EDGES);
    for kind in [MorseKind::Descending, MorseKind::Ascending] {
        let complex = MorseComplex::from_graph(kind, &g).unwrap();
        let infinite = complex.get_persistence().iter().filter(|(_, p)| *p == Persistence::Infinite).count();
        assert_eq!(infinite, 1);
    }
    // two components: one survivor in each
    let g = int_graph(&[1, 2, 3, 4], &[(0, 1), (2, 3)]);
    let complex = MorseComplex::from_graph(MorseKind::Descending, &g).unwrap();
    assert_eq!(persistence_of(&complex, 1), Persistence::Infinite);
    assert_eq!(persistence_of(&complex, 3), Persistence::Infinite);
    assert_eq!(persistence_of(&complex, 0), Persistence::Zero);
    assert_eq!(persistence_of(&complex, 2), Persistence::Zero);
}

#[test]
fn persistence_zero_exactly_off_the_extrema() {
    let g = int_graph(&SQUARE_VALUES, &SQUARE_EDGES);
    let desc = MorseComplex::from_graph(MorseKind::Descending, &g).unwrap();
    assert_eq!(persistence_of(&desc, 0), Persistence::Span(0, 7));
    assert_eq!(persistence_of(&desc, 2), Persistence::Span(2, 1));
    for node in [1, 3, 4, 5, 6, 7] {
        assert_eq!(persistence_of(&desc, node), Persistence::Zero);
    }
}

#[test]
fn ancestors_follow_the_steepest_edges() {
    let g = int_graph(&SQUARE_VALUES, &SQUARE_EDGES);
    let desc = MorseComplex::from_graph(MorseKind::Descending, &g).unwrap();
    assert_eq!(ancestor_of(&desc, 0), 0);
    assert_eq!(ancestor_of(&desc, 3), 0);
    assert_eq!(ancestor_of(&desc, 4), 0);
    assert_eq!(ancestor_of(&desc, 2), 2);
    // node 1 joins the cells of 0 and 2; its steepest neighbour is 0
    assert_eq!(ancestor_of(&desc, 1), 0);
    // node 7 joins the cells of 0 and 8; its steepest neighbour is 8
    assert_eq!(ancestor_of(&desc, 7), 8);
    assert_eq!(desc.get_complex().len(), 9);
}

#[test]
fn ascending_is_descending_of_negation() {
    let g = int_graph(&SQUARE_VALUES, &SQUARE_EDGES);
    let negated: Vec<i64> = SQUARE_VALUES.iter().map(|v| -v).collect();
    let ng = int_graph(&negated, &SQUARE_EDGES);
    let asc = MorseComplex::from_graph(MorseKind::Ascending, &g).unwrap();
    let desc = MorseComplex::from_graph(MorseKind::Descending, &ng).unwrap();
    assert_eq!(asc.get_persistence(), desc.get_persistence());
    assert_eq!(asc.get_complex(), desc.get_complex());
    assert_eq!(asc.filtration, desc.filtration);
}

#[test]
fn filtration_sorts_by_persistence_keeping_ties_in_order() {
    let g = int_graph(&SQUARE_VALUES, &SQUARE_EDGES);
    let mut asc = MorseComplex::from_graph(MorseKind::Ascending, &g).unwrap();
    // ascending: node 1 merged at node 4 (span 2..4), node 6 merged at node 3 (0..5)
    let steps: Vec<(Persistence, usize, usize)> =
        asc.filtration.iter().map(|s| (s.time, s.destroyed_cell, s.owning_cell)).collect();
    assert_eq!(steps.len(), 2);
    let keys: Vec<i64> = asc
        .filtration
        .iter()
        .map(|s| match s.time {
            Persistence::Span(a, b) => (SQUARE_VALUES[a] - SQUARE_VALUES[b]).abs(),
            _ => i64::MAX,
        })
        .collect();
    asc.sort_filtration(&keys);
    let sorted_keys: Vec<i64> = asc
        .filtration
        .iter()
        .map(|s| match s.time {
            Persistence::Span(a, b) => (SQUARE_VALUES[a] - SQUARE_VALUES[b]).abs(),
            _ => i64::MAX,
        })
        .collect();
    assert_eq!(sorted_keys, vec![1, 4]);
    assert_eq!(asc.filtration[0].destroyed_cell, 1);
    assert_eq!(asc.filtration[1].destroyed_cell, 6);
    // equal keys keep their order
    asc.sort_filtration(&vec![0, 0]);
    assert_eq!(asc.filtration[0].destroyed_cell, 1);
    assert_eq!(asc.filtration[1].destroyed_cell, 6);
    asc.sort_filtration(&vec![5, 3]);
    assert_eq!(asc.filtration[0].destroyed_cell, 6);
}

#[test]
fn data_names_nodes_by_their_ids() {
    let g = int_graph(&[-1, 1], &[(0, 1)]);
    let complex = MorseSmaleComplex::from_graph(&g).unwrap();
    let (desc, asc) = complex.to_data(&g);
    assert_eq!(desc.lifetimes, vec![(101, Persistence::Infinite), (100, Persistence::Zero)]);
    assert_eq!(desc.complex, vec![(101, 101), (100, 101)]);
    assert!(desc.filtration.is_empty());
    assert_eq!(asc.lifetimes, vec![(100, Persistence::Infinite), (101, Persistence::Zero)]);
    assert_eq!(asc.complex, vec![(100, 100), (101, 100)]);
    let g = int_graph(&[3, -1, 10, 2, 7], &[(0, 1), (0, 3), (1, 2), (1, 4), (3, 4)]);
    let complex = MorseComplex::from_graph(MorseKind::Descending, &g).unwrap();
    let data = complex.to_data(&g);
    assert_eq!(data.filtration, vec![(Persistence::Span(4, 1), 104, 102), (Persistence::Span(0, 3), 100, 104)]);
}

#[test]
fn empty_graph_gives_an_empty_complex() {
    let g = MorseGraph::new(vec![], vec![], vec![], vec![]).unwrap();
    let complex = MorseComplex::from_graph(MorseKind::Descending, &g).unwrap();
    assert!(complex.get_persistence().is_empty());
    assert!(complex.get_complex().is_empty());
    assert!(complex.filtration.is_empty());
}

#[test]
fn incomparable_grade_keeps_the_first_neighbour() {
    // node 0 joins the cells of 1 and 2; with an incomparable first grade the
    // first neighbour stays the steepest
    let neighbors = vec![vec![1, 2], vec![0], vec![0]];
    let grades = vec![vec![Grade::Incomparable, Grade::Level(9)], vec![Grade::Level(0)], vec![Grade::Level(0)]];
    let g = MorseGraph::new(vec![0, 1, 2], vec![0, 5, 6], neighbors, grades).unwrap();
    let complex = MorseComplex::from_graph(MorseKind::Descending, &g).unwrap();
    assert_eq!(ancestor_of(&complex, 0), 1);
    let neighbors = vec![vec![1, 2], vec![0], vec![0]];
    let grades = vec![vec![Grade::Level(1), Grade::Level(9)], vec![Grade::Level(0)], vec![Grade::Level(0)]];
    let g = MorseGraph::new(vec![0, 1, 2], vec![0, 5, 6], neighbors, grades).unwrap();
    let complex = MorseComplex::from_graph(MorseKind::Descending, &g).unwrap();
    assert_eq!(ancestor_of(&complex, 0), 2);
    // node 1 (value 5) is merged into node 2 (value 6) at node 0
    assert_eq!(persistence_of(&complex, 1), Persistence::Span(1, 0));
}

#[test]
fn labels_are_their_own_labels() {
    let mut cells = PointedUnionFind::new(6);
    cells.union(1, 0);
    cells.union(4, 5);
    cells.union(5, 1);
    cells.union(2, 3);
    for a in 0..6 {
        let l = cells.find(a);
        assert!(l < 6);
        assert_eq!(cells.find(l), l);
    }
    assert_eq!(cells.find(0), cells.find(5));
    assert_ne!(cells.find(0), cells.find(2));
}

#[test]
fn ascending_order_reverses_descending_for_distinct_values() {
    let g = int_graph(&SQUARE_VALUES, &SQUARE_EDGES);
    let desc: Vec<usize> = MorseComplex::from_graph(MorseKind::Descending, &g).unwrap().get_persistence().iter().map(|e| e.0).collect();
    let mut asc: Vec<usize> = MorseComplex::from_graph(MorseKind::Ascending, &g).unwrap().get_persistence().iter().map(|e| e.0).collect();
    asc.reverse();
    assert_eq!(asc, desc);
}

#[test]
fn ascending_is_descending_of_any_reversal() {
    let g = int_graph(&SQUARE_VALUES, &SQUARE_EDGES);
    let reversed: Vec<i64> = SQUARE_VALUES.iter().map(|v| 100 - 3 * v).collect();
    // same edges and the grades of `g`, values in reverse order
    let n = SQUARE_VALUES.len();
    let mut neighbors: Vec<Vec<usize>> = vec![Vec::new(); n];
    for &(a, b) in SQUARE_EDGES.iter() {
        neighbors[a].push(b);
        neighbors[b].push(a);
    }
    let grades = neighbors.iter().map(|ns| ns.iter().map(|&v| Grade::Level(SQUARE_VALUES[v].abs())).collect()).collect();
    let ids = (0..n).map(|i| 100 + i as i64).collect();
    let h = MorseGraph::new(ids, reversed, neighbors, grades).unwrap();
    let asc = MorseComplex::from_graph(MorseKind::Ascending, &g).unwrap();
    let desc = MorseComplex::from_graph(MorseKind::Descending, &h).unwrap();
    assert_eq!(asc.get_persistence(), desc.get_persistence());
    assert_eq!(asc.get_complex(), desc.get_complex());
    assert_eq!(asc.filtration, desc.filtration);
}

#[test]
fn grades_decide_only_ancestors() {
    let g = int_graph(&SQUARE_VALUES, &SQUARE_EDGES);
    let n = SQUARE_VALUES.len();
    let mut neighbors: Vec<Vec<usize>> = vec![Vec::new(); n];
    for &(a, b) in SQUARE_EDGES.iter() {
        neighbors[a].push(b);
        neighbors[b].push(a);
    }
    // every grade reversed
    let grades = neighbors.iter().map(|ns| ns.iter().map(|&v| Grade::Level(-SQUARE_VALUES[v].abs())).collect()).collect();
    let ids = (0..n).map(|i| 100 + i as i64).collect();
    let h = MorseGraph::new(ids, SQUARE_VALUES.to_vec(), neighbors, grades).unwrap();
    let a = MorseComplex::from_graph(MorseKind::Descending, &g).unwrap();
    let b = MorseComplex::from_graph(MorseKind::Descending, &h).unwrap();
    assert_eq!(a.get_persistence(), b.get_persistence());
    assert_eq!(a.filtration, b.filtration);
    // node 7 now follows its less steep neighbour 4, whose ancestor is 0
    assert_eq!(ancestor_of(&a, 7), 8);
    assert_eq!(ancestor_of(&b, 7), 0);
}

#[test]
fn merges_go_into_more_persistent_extrema() {
    let g = int_graph(&SQUARE_VALUES, &SQUARE_EDGES);
    let desc = MorseComplex::from_graph(MorseKind::Descending, &g).unwrap();
    // node 2 (value 3) is merged at node 1 (value 2) into node 0 (value 6),
    // which is merged later, at node 7 (value 1), into node 8
    let steps: Vec<(Persistence, usize, usize)> = desc.filtration.iter().map(|s| (s.time, s.destroyed_cell, s.owning_cell)).collect();
    assert_eq!(steps, vec![(Persistence::Span(0, 7), 0, 8), (Persistence::Span(2, 1), 2, 0)]);
}
