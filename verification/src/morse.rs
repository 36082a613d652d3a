//! Morse complexes of a scalar function on a graph.

use crate::model::{
    at_least_as_extreme, complex_prefix, filtration_prefix, higher, higher_prefix, in_cells,
    is_descending, is_first_entry, lemma_cell_count, lemma_cells, lemma_extremum_arrival,
    lemma_higher, lemma_join_arrival, lemma_merge_arrival, lemma_order_facts, lemma_order_sorted,
    lemma_smallest_cell_owns, lemma_state_after, morse_state, owning_cell, persistence_prefix,
    point_order, position_of, same_cell, state_after, steepest, steepest_prefix, step, GraphModel,
    is_steepest_index, lemma_steepest_is_steepest, lemma_complete_prefixes,
    MorseState, distinct_labels, lemma_distinct_labels, merge_stop, merged_labels, merged_data,
    lemma_merge_is_arrival, lemma_merge_stop_range,
};
use crate::ordering::{is_stable_order, stable_order, stable_sort_indices};
use crate::pointed_union_find::{union_labels, PointedUnionFind};
use vstd::prelude::*;

verus! {

/// The errors of building a graph or a Morse complex.
#[derive(Debug, PartialEq, Eq, Structural)]
pub enum MorseError {
    NanInValues {},
    MissingNode {},
    BadNeighbor {},
    MissingEdgeWeight {},
    NoMaximum {},
    MissingData {},
}

/// Whether a MorseComplex is ascending (its cells belong to minima) or
/// descending (its cells belong to maxima).
#[derive(Debug, Clone, Copy, PartialEq, Eq, Structural)]
pub enum MorseKind {
    Ascending,
    Descending,
}

/// How steeply an edge leads to a neighbour: a level in the order of the
/// magnitude of the neighbour's value over the edge's weight, or
/// `Incomparable` where that quotient is compared with nothing (not a number).
#[derive(Debug, Clone, Copy, PartialEq, Eq, Structural)]
pub enum Grade {
    Incomparable,
    Level(i64),
}

/// The persistence of a point: infinite for an extremum that is never merged,
/// zero for a point that is not an extremum, and for an extremum merged into
/// another cell the magnitude of the difference between the values at
/// `Span(extremum, saddle)`, the saddle being the point whose arrival merged it.
#[derive(Debug, Clone, Copy, PartialEq, Eq, Structural)]
pub enum Persistence {
    Infinite,
    Zero,
    Span(usize, usize),
}

/// What the construction records of a point.
#[derive(Debug, Clone, Copy, PartialEq, Eq, Structural)]
pub struct MorseData {
    pub lifetime: Persistence,
    pub merge_parent: Option<usize>,
    pub ancestor: usize,
}

/// One step of the filtration: at `time`, the cell of the extremum
/// `destroyed_cell` is merged into the cell of `owning_cell`.
#[derive(Debug, Clone, Copy, PartialEq, Eq, Structural)]
pub struct MorseFiltrationStep {
    pub time: Persistence,
    pub destroyed_cell: usize,
    pub owning_cell: usize,
}

/// An undirected graph with a scalar function on its nodes `0..n`: for each
/// node an identifier and an integer level that orders the function's values
/// (equal values, equal levels), and for each node its neighbours, with
/// parallel edges listed once per edge, each with the grade of the edge.
pub struct MorseGraph {
    ids: Vec<i64>,
    values: Vec<i64>,
    neighbors: Vec<Vec<usize>>,
    grades: Vec<Vec<Grade>>,
}

impl View for MorseGraph {
    type V = GraphModel;

    closed spec fn view(&self) -> GraphModel {
        GraphModel {
            ids: self.ids@,
            values: self.values@,
            neighbors: self.neighbors@.map_values(|v: Vec<usize>| v@),
            grades: self.grades@.map_values(|v: Vec<Grade>| v@),
        }
    }
}

impl MorseGraph {
    #[verifier::type_invariant]
    spec fn inv(self) -> bool {
        self@.well_formed()
    }

    /// Builds a graph from its parts, checking that they fit together.
    pub fn new(ids: Vec<i64>, values: Vec<i64>, neighbors: Vec<Vec<usize>>, grades: Vec<Vec<Grade>>) -> (r: Result<MorseGraph, MorseError>)
        ensures
            ({
                let m = GraphModel {
                    ids: ids@,
                    values: values@,
                    neighbors: neighbors@.map_values(|v: Vec<usize>| v@),
                    grades: grades@.map_values(|v: Vec<Grade>| v@),
                };
                match r {
                    Ok(g) => m.well_formed() && g@ == m,
                    Err(e) => !m.well_formed() && e == (if !m.sizes_agree() {
                        MorseError::MissingNode {}
                    } else if !m.grades_agree() {
                        MorseError::MissingEdgeWeight {}
                    } else {
                        MorseError::BadNeighbor {}
                    }),
                }
            }),
    {
        let ghost m = GraphModel {
            ids: ids@,
            values: values@,
            neighbors: neighbors@.map_values(|v: Vec<usize>| v@),
            grades: grades@.map_values(|v: Vec<Grade>| v@),
        };
        let n = values.len();
        if ids.len() != n || neighbors.len() != n || grades.len() != n {
            return Err(MorseError::MissingNode {});
        }
        let mut u: usize = 0;
        while u < n
            invariant
                n == values.len() && n == neighbors.len() && n == grades.len() && n == ids.len(),
                m.sizes_agree(),
                m.neighbors == neighbors@.map_values(|v: Vec<usize>| v@),
                m.grades == grades@.map_values(|v: Vec<Grade>| v@),
                m.values == values@,
                0 <= u <= n,
                forall|w: int| 0 <= w < u ==> #[trigger] m.grades[w].len() == m.neighbors[w].len(),
            decreases n - u,
        {
            proof {
                assert(m.grades[u as int] == grades@[u as int]@ && m.neighbors[u as int] == neighbors@[u as int]@);
            }
            if grades[u].len() != neighbors[u].len() {
                assert(m.grades[u as int] == grades@[u as int]@ && m.neighbors[u as int] == neighbors@[u as int]@);
                assert(!m.grades_agree());
                return Err(MorseError::MissingEdgeWeight {});
            }
            u = u + 1;
        }
        let mut u: usize = 0;
        while u < n
            invariant
                n == values.len() && n == neighbors.len() && n == grades.len() && n == ids.len(),
                m.sizes_agree(),
                m.grades_agree(),
                m.neighbors == neighbors@.map_values(|v: Vec<usize>| v@),
                m.grades == grades@.map_values(|v: Vec<Grade>| v@),
                m.ids == ids@,
                m.values == values@,
                0 <= u <= n,
                forall|w: int, k: int| 0 <= w < u && 0 <= k < m.neighbors[w].len() ==> #[trigger] m.neighbors[w][k] < n,
            decreases n - u,
        {
            let mut k: usize = 0;
            assert(m.neighbors[u as int] == neighbors@[u as int]@);
            while k < neighbors[u].len()
                invariant
                    n == values.len() && n == neighbors.len() && n == grades.len() && n == ids.len(),
                    m.sizes_agree(),
                    m.grades_agree(),
                    m.values == values@,
                    m.neighbors == neighbors@.map_values(|v: Vec<usize>| v@),
                    m.grades == grades@.map_values(|v: Vec<Grade>| v@),
                    m.ids == ids@,
                    0 <= u < n,
                    0 <= k <= neighbors[u as int].len(),
                    m.neighbors[u as int] == neighbors@[u as int]@,
                    forall|w: int, j: int| 0 <= w < u && 0 <= j < m.neighbors[w].len() ==> #[trigger] m.neighbors[w][j] < n,
                    forall|j: int| 0 <= j < k ==> #[trigger] m.neighbors[u as int][j] < n,
                decreases neighbors[u as int].len() - k,
            {
                if neighbors[u][k] >= n {
                    assert(m.neighbors[u as int] == neighbors@[u as int]@);
                    assert(m.neighbors[u as int][k as int] == neighbors@[u as int]@[k as int]);
                    assert(!m.neighbors_in_range());
                    return Err(MorseError::BadNeighbor {});
                }
                assert(m.neighbors[u as int][k as int] == neighbors@[u as int]@[k as int]);
                k = k + 1;
            }
            u = u + 1;
        }
        let g = MorseGraph { ids, values, neighbors, grades };
        Ok(g)
    }
}


impl MorseGraph {
    /// The index of the first entry of `v` among the neighbours of `u`, if any.
    pub fn find_edge(&self, u: usize, v: usize) -> (r: Option<usize>)
        requires
            u < self@.num_nodes(),
        ensures
            match r {
                Some(k) => is_first_entry(self@.neighbors[u as int], v, k as int) && k as int == self@.edge_index(u as int, v),
                None => !self@.neighbors[u as int].contains(v),
            },
    {
        proof {
            use_type_invariant(self);
            assert(self@.neighbors[u as int] == self.neighbors@[u as int]@);
        }
        assert(u < self.neighbors.len());
        let mut k: usize = 0;
        while k < self.neighbors[u].len()
            invariant
                u < self@.num_nodes(),
                u < self.neighbors.len(),
                self@.neighbors[u as int] == self.neighbors@[u as int]@,
                0 <= k <= self.neighbors@[u as int].len(),
                forall|j: int| 0 <= j < k ==> self@.neighbors[u as int][j] != v,
            decreases self.neighbors@[u as int].len() - k,
        {
            if self.neighbors[u][k] == v {
                proof {
                    let s = self@.neighbors[u as int];
                    assert(is_first_entry(s, v, k as int));
                    let k2 = self@.edge_index(u as int, v);
                    assert(is_first_entry(s, v, k2));
                    if k2 < k {
                        assert(s[k2] != v);
                    }
                    if k2 > k {
                        assert(s[k as int] != v);
                    }
                }
                return Some(k);
            }
            k = k + 1;
        }
        None
    }

    /// The number of nodes; the graph is well formed.
    pub fn num_nodes(&self) -> (r: usize)
        ensures
            r == self@.num_nodes(),
            self@.well_formed(),
    {
        proof {
            use_type_invariant(self);
        }
        self.values.len()
    }
}

fn descending(kind: MorseKind) -> (r: bool)
    ensures
        r == is_descending(kind),
{
    match kind {
        MorseKind::Descending => true,
        MorseKind::Ascending => false,
    }
}

fn is_at_least_as_extreme(kind: MorseKind, a: i64, b: i64) -> (r: bool)
    ensures
        r == at_least_as_extreme(kind, a, b),
{
    match kind {
        MorseKind::Descending => a >= b,
        MorseKind::Ascending => a <= b,
    }
}

/// The nodes of a sequence of points.
pub open spec fn nodes_of(points: Seq<MorseNode>) -> Seq<usize> {
    points.map_values(|m: MorseNode| m.node)
}

/// A point of the graph and what the construction recorded of it.
pub struct MorseNode {
    pub node: usize,
    pub data: Option<MorseData>,
}

impl MorseNode {
    fn new(node: usize) -> (r: MorseNode)
        ensures
            r.node == node,
            r.data is None,
    {
        MorseNode { node, data: None }
    }
}

/// The Morse complex constructed from a graph.
///
/// A Morse complex is a partition of a graph into regions belonging to the
/// extrema of the graph: for a descending complex the regions belong to the
/// maxima, for an ascending complex to the minima. Computing it computes the
/// persistence of each extremum, a measure of its topological importance, and
/// the filtration: the sequence of simplifications that merges the cells from
/// the least persistent extremum to the most.
pub struct MorseComplex {
    ordered_points: Vec<MorseNode>,
    cells: PointedUnionFind,
    pub filtration: Vec<MorseFiltrationStep>,
    kind: MorseKind,
}

impl MorseComplex {
    /// The nodes in the order in which they were taken.
    pub closed spec fn order(&self) -> Seq<usize> {
        nodes_of(self.ordered_points@)
    }

    /// What was recorded of each point, by position in `order()`.
    pub closed spec fn data(&self) -> Seq<Option<MorseData>> {
        self.ordered_points@.map_values(|m: MorseNode| m.data)
    }

    /// The steps of the filtration.
    pub closed spec fn filtration_steps(&self) -> Seq<MorseFiltrationStep> {
        self.filtration@
    }

    pub closed spec fn morse_kind(&self) -> MorseKind {
        self.kind
    }

    /// This is the Morse complex of kind `kind` of the graph `g`.
    pub open spec fn is_built_from(&self, g: GraphModel, kind: MorseKind) -> bool {
        &&& self.morse_kind() == kind
        &&& self.order() == point_order(g, kind)
        &&& self.data() == morse_state(g, kind).data
        &&& self.order().len() == g.num_nodes()
        &&& self.wf()
    }

    /// Every node that the complex refers to is a node of its graph, and every
    /// point has its record.
    pub closed spec fn wf(&self) -> bool {
        let n = self.ordered_points.len();
        &&& forall|q: int| 0 <= q < n ==> #[trigger] self.order()[q] < n
        &&& forall|q: int| 0 <= q < n ==> #[trigger] self.data()[q] is Some && data_in_range(self.data()[q]->Some_0, n as int)
        &&& forall|j: int| 0 <= j < self.filtration.len() ==> step_in_range(#[trigger] self.filtration@[j], n as int)
    }

    proof fn lemma_built_is_wf(&self, g: GraphModel)
        requires
            self.built_up_to(g, g.num_nodes() as int),
            self.ordered_points.len() == g.num_nodes(),
            self.filtration@ == filtration_prefix(self.order(), self.data(), g.num_nodes() as int),
        ensures
            self.wf(),
    {
        let n = g.num_nodes() as int;
        let order = self.order();
        lemma_state_after(g, self.kind, order, n);
        lemma_order_facts(g.values, is_descending(self.kind), order);
        assert forall|q: int| 0 <= q < n implies #[trigger] self.data()[q] is Some && data_in_range(self.data()[q]->Some_0, n) by {
            assert(crate::model::point_facts(g, self.kind, order, self.data()[q]->Some_0, q));
            let d = self.data()[q]->Some_0;
            assert(order[position_of(order, d.ancestor as int)] < n);
            if d.merge_parent is Some {
                assert(order[position_of(order, d.merge_parent->Some_0 as int)] < n);
            }
            if d.lifetime is Span {
                assert(order[position_of(order, d.lifetime->Span_1 as int)] < n);
            }
        }
        lemma_filtration_in_range(order, self.data(), n, n);
    }

    /// The construction has taken the first `k` points of graph `g`.
    spec fn built_up_to(&self, g: GraphModel, k: int) -> bool {
        let order = point_order(g, self.kind);
        let st = state_after(g, self.kind, order, k);
        &&& g.well_formed()
        &&& 0 <= k <= g.num_nodes()
        &&& self.order() == order
        &&& is_stable_order(g.values, is_descending(self.kind), order)
        &&& self.cells.wf()
        &&& self.cells.labels().len() == g.num_nodes()
        &&& self.cells.labels() == st.labels
        &&& self.data() == st.data
    }

    fn get_ordered_points(kind: MorseKind, graph: &MorseGraph) -> (r: Vec<MorseNode>)
        ensures
            nodes_of(r@) == point_order(graph@, kind),
            is_stable_order(graph@.values, is_descending(kind), nodes_of(r@)),
            forall|q: int| 0 <= q < r.len() ==> (#[trigger] r@[q]).data is None,
    {
        let nodes = stable_sort_indices(&graph.values, descending(kind));
        let mut points: Vec<MorseNode> = Vec::new();
        let mut i: usize = 0;
        while i < nodes.len()
            invariant
                0 <= i <= nodes.len(),
                points.len() == i,
                nodes_of(points@) == nodes@.subrange(0, i as int),
                forall|q: int| 0 <= q < points.len() ==> (#[trigger] points@[q]).data is None,
            decreases nodes.len() - i,
        {
            let ghost old_points = points@;
            points.push(MorseNode::new(nodes[i]));
            i = i + 1;
            proof {
                assert forall|q: int| 0 <= q < i implies #[trigger] nodes_of(points@)[q] == nodes@.subrange(0, i as int)[q] by {
                    if q < i - 1 {
                        assert(points@[q] == old_points[q]);
                        assert(nodes_of(old_points)[q] == nodes@.subrange(0, i - 1)[q]);
                    }
                }
                assert(nodes_of(points@) =~= nodes@.subrange(0, i as int));
            }
        }
        proof {
            assert(nodes@.subrange(0, nodes.len() as int) =~= nodes@);
        }
        points
    }

    /// The positions of the already placed neighbours of the point at
    /// position `i` whose values are at least as extreme as its own.
    fn higher_indices(&self, i: usize, inverse_lookup: &Vec<usize>, graph: &MorseGraph) -> (r: Vec<usize>)
        requires
            self.order() == point_order(graph@, self.kind),
            is_stable_order(graph@.values, is_descending(self.kind), self.order()),
            graph@.well_formed(),
            i < self.ordered_points.len(),
            self.ordered_points.len() == graph@.num_nodes(),
            inverse_lookup.len() == graph@.num_nodes(),
            forall|v: int| 0 <= v < graph@.num_nodes() ==> #[trigger] inverse_lookup@[v] == position_of(self.order(), v),
        ensures
            r@ == higher(graph@, self.kind, self.order(), i as int),
    {
        let ghost g = graph@;
        let ghost order = self.order();
        proof {
            use_type_invariant(graph);
            lemma_order_facts(g.values, is_descending(self.kind), order);
        }
        let u = self.ordered_points[i].node;
        assert(order[i as int] == u);
        let this_value = graph.values[u];
        let mut higher_indices: Vec<usize> = Vec::new();
        let len = graph.neighbors[u].len();
        assert(g.neighbors[u as int] == graph.neighbors@[u as int]@);
        let mut k: usize = 0;
        while k < len
            invariant
                g == graph@,
                g.well_formed(),
                u < g.num_nodes(),
                order[i as int] == u,
                i < order.len(),
                order == point_order(g, self.kind),
                len == g.neighbors[u as int].len(),
                g.neighbors[u as int] == graph.neighbors@[u as int]@,
                g.values == graph.values@,
                this_value == g.values[u as int],
                inverse_lookup.len() == g.num_nodes(),
                forall|v: int| 0 <= v < g.num_nodes() ==> #[trigger] inverse_lookup@[v] == position_of(order, v),
                0 <= k <= len,
                higher_indices@ == higher_prefix(g, self.kind, order, i as int, k as int),
            decreases len - k,
        {
            let v = graph.neighbors[u][k];
            assert(v == g.neighbors[u as int][k as int]);
            if is_at_least_as_extreme(self.kind, graph.values[v], this_value) {
                let q = inverse_lookup[v];
                if q < i {
                    higher_indices.push(q);
                }
            }
            k = k + 1;
        }
        higher_indices
    }

    /// The distinct cell labels of the positions `neighbors`.
    fn connected_cells(&self, neighbors: &Vec<usize>) -> (r: Vec<usize>)
        requires
            self.cells.wf(),
            forall|j: int| 0 <= j < neighbors.len() ==> #[trigger] neighbors@[j] < self.cells.labels().len(),
        ensures
            r@ == distinct_labels(self.cells.labels(), neighbors@, neighbors.len() as int),
            forall|a: int| 0 <= a < r.len() ==> #[trigger] in_cells(self.cells.labels(), neighbors@, r@[a]),
            forall|l: usize| #[trigger] in_cells(self.cells.labels(), neighbors@, l) ==> r@.contains(l),
            forall|a: int, b: int| 0 <= a < b < r.len() ==> #[trigger] r@[a] != #[trigger] r@[b],
    {
        let ghost labels = self.cells.labels();
        let mut cells: Vec<usize> = Vec::new();
        let mut j: usize = 0;
        while j < neighbors.len()
            invariant
                self.cells.wf(),
                labels == self.cells.labels(),
                forall|j: int| 0 <= j < neighbors.len() ==> #[trigger] neighbors@[j] < labels.len(),
                0 <= j <= neighbors.len(),
                cells@ == distinct_labels(labels, neighbors@, j as int),
                forall|a: int| 0 <= a < cells.len() ==> #[trigger] in_cells(labels, neighbors@, cells@[a]),
                forall|t: int| 0 <= t < j ==> cells@.contains(labels[#[trigger] neighbors@[t] as int]),
                forall|a: int, b: int| 0 <= a < b < cells.len() ==> #[trigger] cells@[a] != #[trigger] cells@[b],
            decreases neighbors.len() - j,
        {
            let ghost old_cells = cells@;
            let cell = self.cells.find(neighbors[j]);
            let mut present = false;
            let mut k: usize = 0;
            while k < cells.len()
                invariant
                    0 <= k <= cells.len(),
                    present <==> exists|a: int| 0 <= a < k && cells@[a] == cell,
                decreases cells.len() - k,
            {
                if cells[k] == cell {
                    present = true;
                }
                k = k + 1;
            }
            if !present {
                cells.push(cell);
            }
            proof {
                assert(in_cells(labels, neighbors@, cell)) by {
                    assert(labels[neighbors@[j as int] as int] == cell);
                }
                assert(cell == labels[neighbors@[j as int] as int]);
                assert(present == old_cells.contains(cell));
                if present {
                    let a = choose|a: int| 0 <= a < cells.len() && cells@[a] == cell;
                    assert(cells@.contains(cell));
                } else {
                    assert(cells@[cells.len() - 1] == cell);
                }
                assert forall|t: int| 0 <= t < j + 1 implies cells@.contains(labels[#[trigger] neighbors@[t] as int]) by {
                    if t < j {
                        let x = labels[neighbors@[t] as int];
                        assert(old_cells.contains(x));
                        let a = choose|a: int| 0 <= a < old_cells.len() && old_cells[a] == x;
                        assert(cells@[a] == x);
                    }
                }
            }
            j = j + 1;
        }
        proof {
            assert forall|l: usize| #[trigger] in_cells(labels, neighbors@, l) implies cells@.contains(l) by {
                let t = choose|t: int| 0 <= t < neighbors.len() && labels[(#[trigger] neighbors@[t]) as int] == l;
            }
        }
        cells
    }

    /// The cell whose extremum is the most extreme: the first in the order,
    /// that is the smallest label.
    fn find_max_cell(&self, connected_cells: &Vec<usize>, graph: &MorseGraph) -> (r: Result<usize, MorseError>)
        requires
            self.order() == point_order(graph@, self.kind),
            is_stable_order(graph@.values, is_descending(self.kind), self.order()),
            graph@.well_formed(),
            self.ordered_points.len() == graph@.num_nodes(),
            forall|a: int| 0 <= a < connected_cells.len() ==> #[trigger] connected_cells@[a] < self.ordered_points.len(),
        ensures
            connected_cells.len() == 0 ==> r == Err::<usize, MorseError>(MorseError::NoMaximum {}),
            connected_cells.len() > 0 ==> r is Ok && connected_cells@.contains(r->Ok_0)
                && forall|a: int| 0 <= a < connected_cells.len() ==> r->Ok_0 <= #[trigger] connected_cells@[a],
    {
        let ghost g = graph@;
        let ghost order = self.order();
        proof {
            use_type_invariant(graph);
            lemma_order_sorted(g, self.kind, order);
            lemma_order_facts(g.values, is_descending(self.kind), order);
        }
        let mut current_max: Option<i64> = None;
        let mut max_index: Result<usize, MorseError> = Err(MorseError::NoMaximum {});
        let mut k: usize = 0;
        while k < connected_cells.len()
            invariant
                g == graph@,
                order == self.order(),
                order == point_order(g, self.kind),
                is_stable_order(g.values, is_descending(self.kind), order),
                g.well_formed(),
                self.ordered_points.len() == g.num_nodes(),
                forall|a: int| 0 <= a < connected_cells.len() ==> #[trigger] connected_cells@[a] < self.ordered_points.len(),
                forall|a: int, b: int|
                    0 <= a < b < order.len() ==> at_least_as_extreme(self.kind, g.values[#[trigger] order[a] as int], g.values[#[trigger] order[b] as int]),
                0 <= k <= connected_cells.len(),
                k == 0 ==> current_max is None && max_index == Err::<usize, MorseError>(MorseError::NoMaximum {}),
                k > 0 ==> max_index is Ok && current_max == Some(g.values[order[max_index->Ok_0 as int] as int])
                    && connected_cells@.subrange(0, k as int).contains(max_index->Ok_0)
                    && forall|a: int| 0 <= a < k ==> max_index->Ok_0 <= #[trigger] connected_cells@[a],
            decreases connected_cells.len() - k,
        {
            let cell_index = connected_cells[k];
            let node = self.ordered_points[cell_index].node;
            assert(node == order[cell_index as int]);
            assert(node < g.num_nodes());
            let value = graph.values[node];
            let should_update = match current_max {
                None => true,
                Some(max_val) => {
                    if value == max_val {
                        match max_index {
                            Ok(best) => cell_index < best,
                            Err(_) => true,
                        }
                    } else {
                        !is_at_least_as_extreme(self.kind, max_val, value)
                    }
                },
            };
            proof {
                if k > 0 {
                    let best = max_index->Ok_0;
                    if should_update {
                        if cell_index > best {
                            assert(at_least_as_extreme(self.kind, g.values[order[best as int] as int], g.values[order[cell_index as int] as int]));
                        }
                    } else if cell_index < best {
                        assert(at_least_as_extreme(self.kind, g.values[order[cell_index as int] as int], g.values[order[best as int] as int]));
                    }
                }
            }
            if should_update {
                current_max = Some(value);
                max_index = Ok(cell_index);
            }
            k = k + 1;
            proof {
                let best = max_index->Ok_0;
                let s0 = connected_cells@.subrange(0, k as int);
                if should_update {
                    assert(s0[k - 1] == best);
                } else {
                    let s1 = connected_cells@.subrange(0, k - 1);
                    let w = choose|w: int| 0 <= w < s1.len() && s1[w] == best;
                    assert(s0[w] == best);
                }
            }
        }
        proof {
            if connected_cells.len() > 0 {
                assert(connected_cells@.subrange(0, connected_cells.len() as int) =~= connected_cells@);
            }
        }
        max_index
    }

    /// The neighbour, among the positions `neighbors`, to which the edge from
    /// the point at `joining_index` is steepest.
    fn find_steepest_neighbor(&self, joining_index: usize, neighbors: &Vec<usize>, graph: &MorseGraph) -> (r: Result<usize, MorseError>)
        requires
            self.order() == point_order(graph@, self.kind),
            is_stable_order(graph@.values, is_descending(self.kind), self.order()),
            graph@.well_formed(),
            self.ordered_points.len() == graph@.num_nodes(),
            joining_index < self.ordered_points.len(),
            forall|j: int| 0 <= j < neighbors.len() ==> #[trigger] neighbors@[j] < self.ordered_points.len()
                && graph@.neighbors[self.order()[joining_index as int] as int].contains(self.order()[neighbors@[j] as int]),
        ensures
            neighbors.len() == 0 ==> r == Err::<usize, MorseError>(MorseError::BadNeighbor {}),
            neighbors.len() > 0 ==> r == Ok::<usize, MorseError>(
                neighbors@[steepest(graph@, self.order(), joining_index as int, neighbors@)],
            ),
            neighbors.len() > 0 ==> exists|j: int|
                is_steepest_index(graph@, self.order(), joining_index as int, neighbors@, j) && r == Ok::<usize, MorseError>(
                    #[trigger] neighbors@[j],
                ),
    {
        let ghost g = graph@;
        let ghost order = self.order();
        let ghost p = joining_index as int;
        let ghost hs = neighbors@;
        proof {
            use_type_invariant(graph);
            lemma_order_facts(g.values, is_descending(self.kind), order);
        }
        let mut current_max: Option<Grade> = None;
        let mut max_index: Result<usize, MorseError> = Err(MorseError::BadNeighbor {});
        let joining_node = self.ordered_points[joining_index].node;
        assert(joining_node == order[p]);
        assert(joining_node < g.num_nodes());
        let mut k: usize = 0;
        while k < neighbors.len()
            invariant
                g == graph@,
                g.well_formed(),
                order == self.order(),
                hs == neighbors@,
                self.ordered_points.len() == g.num_nodes(),
                joining_node == order[p],
                joining_node < g.num_nodes(),
                forall|j: int| 0 <= j < hs.len() ==> #[trigger] hs[j] < self.ordered_points.len()
                    && g.neighbors[order[p] as int].contains(order[hs[j] as int]),
                0 <= k <= hs.len(),
                k == 0 ==> current_max is None && max_index == Err::<usize, MorseError>(MorseError::BadNeighbor {}),
                k > 0 ==> max_index == Ok::<usize, MorseError>(hs[steepest_prefix(g, order, p, hs, k as int)])
                    && current_max == Some(g.grade(order[p] as int, order[hs[steepest_prefix(g, order, p, hs, k as int)] as int])),
            decreases hs.len() - k,
        {
            let neighbor_idx = neighbors[k];
            let node = self.ordered_points[neighbor_idx].node;
            assert(node == order[neighbor_idx as int]);
            let edge = graph.find_edge(joining_node, node).unwrap();
            assert(g.grades[joining_node as int] == graph.grades@[joining_node as int]@);
            let grade = graph.grades[joining_node][edge];
            let should_update = match current_max {
                None => true,
                Some(max_val) => match grade {
                    Grade::Level(x) => match max_val {
                        Grade::Level(y) => x > y,
                        Grade::Incomparable => false,
                    },
                    Grade::Incomparable => false,
                },
            };
            if should_update {
                current_max = Some(grade);
                max_index = Ok(neighbor_idx);
            }
            k = k + 1;
        }
        proof {
            if hs.len() > 0 {
                lemma_steepest_is_steepest(g, order, p, hs);
            }
        }
        max_index
    }

    /// Merges into the cell `owning_cell` the class of the point at
    /// `joining_index` and the other cells `merged_cells`, recording for each
    /// of their extrema its persistence and merge parent. It stops at the first
    /// cell without a record, with `MissingData`, leaving the merges so far.
    fn merge_cells(&mut self, joining_index: usize, owning_cell: usize, merged_cells: &Vec<usize>, graph: &MorseGraph) -> (r: Result<(), MorseError>)
        requires
            old(self).cells.wf(),
            old(self).cells.labels().len() == old(self).ordered_points.len(),
            joining_index < old(self).ordered_points.len(),
            merged_cells@.contains(owning_cell),
            forall|a: int| 0 <= a < merged_cells.len() ==> #[trigger] merged_cells@[a] < old(self).ordered_points.len()
                && old(self).cells.labels()[merged_cells@[a] as int] == merged_cells@[a],
            forall|a: int, b: int| 0 <= a < b < merged_cells.len() ==> #[trigger] merged_cells@[a] != #[trigger] merged_cells@[b],
        ensures
            final(self).kind == old(self).kind,
            final(self).order() == old(self).order(),
            final(self).ordered_points.len() == old(self).ordered_points.len(),
            final(self).filtration == old(self).filtration,
            final(self).cells.wf(),
            ({
                let stop = merge_stop(old(self).data(), merged_cells@, owning_cell, 0);
                let done = merged_cells@.subrange(0, stop);
                &&& r == (if stop == merged_cells.len() {
                    Ok::<(), MorseError>(())
                } else {
                    Err::<(), MorseError>(MorseError::MissingData {})
                })
                &&& final(self).cells.labels() == merged_labels(old(self).cells.labels(), joining_index as int, owning_cell as int, done)
                &&& final(self).data() == merged_data(old(self).data(), old(self).order(), joining_index as int, owning_cell as int, done)
            }),
    {
        let ghost order = self.order();
        let ghost p = joining_index as int;
        let ghost n = self.ordered_points.len() as int;
        let ghost l0 = self.cells.labels();
        let ghost d0 = self.data();
        let ghost c = owning_cell as int;
        let ghost stop = merge_stop(d0, merged_cells@, owning_cell, 0);
        proof {
            let w = choose|a: int| 0 <= a < merged_cells.len() && merged_cells@[a] == owning_cell;
            assert(l0[c] == c);
        }
        let merge_parent = self.ordered_points[owning_cell].node;
        let joining_node = self.ordered_points[joining_index].node;
        self.cells.union(owning_cell, joining_index);
        proof {
            assert(self.cells.labels() =~= merged_labels(l0, p, c, merged_cells@.subrange(0, 0)));
            assert(self.data() =~= merged_data(d0, order, p, c, merged_cells@.subrange(0, 0)));
        }
        let mut k: usize = 0;
        while k < merged_cells.len()
            invariant
                self.kind == old(self).kind,
                order == self.order(),
                order == old(self).order(),
                n == old(self).ordered_points.len(),
                l0 == old(self).cells.labels(),
                d0 == old(self).data(),
                p == joining_index,
                n == self.ordered_points.len(),
                0 <= p < n,
                self.filtration == old(self).filtration,
                l0.len() == n,
                d0.len() == n,
                c == owning_cell,
                0 <= c < n,
                l0[c] == c,
                merge_parent == order[c],
                joining_node == order[p],
                forall|a: int| 0 <= a < merged_cells.len() ==> #[trigger] merged_cells@[a] < n && l0[merged_cells@[a] as int] == merged_cells@[a],
                forall|a: int, b: int| 0 <= a < b < merged_cells.len() ==> #[trigger] merged_cells@[a] != #[trigger] merged_cells@[b],
                0 <= k <= merged_cells.len(),
                stop == merge_stop(d0, merged_cells@, owning_cell, 0),
                stop == merge_stop(d0, merged_cells@, owning_cell, k as int),
                self.cells.wf(),
                self.cells.labels().len() == n,
                self.cells.labels() == merged_labels(l0, p, c, merged_cells@.subrange(0, k as int)),
                self.data() == merged_data(d0, order, p, c, merged_cells@.subrange(0, k as int)),
            decreases merged_cells.len() - k,
        {
            let cell = merged_cells[k];
            let ghost done = merged_cells@.subrange(0, k as int);
            let ghost done2 = merged_cells@.subrange(0, k + 1);
            proof {
                assert(!done.contains(cell)) by {
                    if done.contains(cell) {
                        let a = choose|a: int| 0 <= a < done.len() && done[a] == cell;
                        assert(merged_cells@[a] == merged_cells@[k as int]);
                    }
                }
                assert forall|x: usize| #[trigger] done2.contains(x) <==> done.contains(x) || x == cell by {
                    if done2.contains(x) {
                        let a = choose|a: int| 0 <= a < done2.len() && done2[a] == x;
                        if a < k {
                            assert(done[a] == x);
                        }
                    }
                    if done.contains(x) {
                        let a = choose|a: int| 0 <= a < done.len() && done[a] == x;
                        assert(done2[a] == x);
                    }
                    if x == cell {
                        assert(done2[k as int] == x);
                    }
                }
                assert(l0[cell as int] == cell);
            }
            if cell != owning_cell {
                proof {
                    assert(self.data()[cell as int] == d0[cell as int]);
                    assert(self.ordered_points@[cell as int].data == self.data()[cell as int]);
                }
                let cell_node = self.ordered_points[cell].node;
                let ancestor = match &self.ordered_points[cell].data {
                    None => {
                        proof {
                            assert(merge_stop(d0, merged_cells@, owning_cell, k as int) == k);
                        }
                        return Err(MorseError::MissingData {});
                    },
                    Some(data) => data.ancestor,
                };
                proof {
                    assert(merge_stop(d0, merged_cells@, owning_cell, k as int) == merge_stop(d0, merged_cells@, owning_cell, k + 1));
                }
                let lifetime = Persistence::Span(cell_node, joining_node);
                let ghost before = self.ordered_points@;
                proof {
                    assert(before.map_values(|m: MorseNode| m.data) == merged_data(d0, order, p, c, done));
                }
                self.ordered_points.set(
                    cell,
                    MorseNode { node: cell_node, data: Some(MorseData { ancestor, lifetime, merge_parent: Some(merge_parent) }) },
                );
                let ghost lk = self.cells.labels();
                proof {
                    assert(self.order() =~= order) by {
                        assert forall|q: int| 0 <= q < n implies #[trigger] self.order()[q] == order[q] by {
                            if q != cell {
                                assert(self.ordered_points@[q] == before[q]);
                            }
                        }
                    }
                    assert(lk[c] == c);
                }
                self.cells.union(owning_cell, cell);
                proof {
                    let lp = l0[p];
                    let target = merged_labels(l0, p, c, done2);
                    assert forall|e: int| 0 <= e < n implies #[trigger] self.cells.labels()[e] == target[e] by {
                        let cond = l0[e] == c || l0[e] == lp || done.contains(l0[e]);
                        let cond_cell = cell == c || cell == lp || done.contains(cell);
                        assert(lk[cell as int] == (if cond_cell { c as usize } else { cell }));
                        if !cond && l0[e] == cell {
                            assert(cond == cond_cell);
                        }
                    }
                    assert(self.cells.labels() =~= target);
                    assert(self.data() =~= merged_data(d0, order, p, c, done2)) by {
                        assert forall|q: int| 0 <= q < n implies #[trigger] self.data()[q] == merged_data(d0, order, p, c, done2)[q] by {
                            let md = merged_data(d0, order, p, c, done);
                            assert(nodes_of(before)[q] == order[q]);
                            if q != cell {
                                assert(self.ordered_points@[q] == before[q]);
                                assert(before[q].data == md[q]);
                                assert(done2.contains(q as usize) == done.contains(q as usize));
                            } else {
                                assert(done2.contains(q as usize));
                                assert(before[q].data == d0[q]);
                                assert(ancestor == d0[q]->Some_0.ancestor);
                            }
                        }
                    }
                }
            } else {
                proof {
                    assert(merge_stop(d0, merged_cells@, owning_cell, k as int) == merge_stop(d0, merged_cells@, owning_cell, k + 1));
                    assert(self.cells.labels() =~= merged_labels(l0, p, c, done2));
                    assert(self.data() =~= merged_data(d0, order, p, c, done2));
                }
            }
            k = k + 1;
        }
        Ok(())
    }

    /// Adds the point at position `ordered_index`, whose already placed, at
    /// least as extreme neighbours are `ascending_neighbors`, to the complex,
    /// and returns its ancestor: its own node when it has no such neighbours;
    /// when they all lie in one cell, it joins that cell and inherits the
    /// ancestor of the first; otherwise their cells merge into the smallest
    /// label and it inherits the ancestor of the steepest one. A missing record
    /// gives `MissingData`, after the unions made so far.
    fn add_point_to_complex(&mut self, ordered_index: usize, ascending_neighbors: &Vec<usize>, graph: &MorseGraph) -> (r: Result<usize, MorseError>)
        requires
            graph@.well_formed(),
            old(self).order() == point_order(graph@, old(self).kind),
            is_stable_order(graph@.values, is_descending(old(self).kind), old(self).order()),
            old(self).cells.wf(),
            old(self).ordered_points.len() == graph@.num_nodes(),
            old(self).cells.labels().len() == graph@.num_nodes(),
            ordered_index < graph@.num_nodes(),
            forall|j: int| 0 <= j < ascending_neighbors.len() ==> #[trigger] ascending_neighbors@[j] < graph@.num_nodes(),
            !same_cell(old(self).cells.labels(), ascending_neighbors@) ==> forall|j: int|
                0 <= j < ascending_neighbors.len() ==> graph@.neighbors[old(self).order()[ordered_index as int] as int].contains(
                    old(self).order()[#[trigger] ascending_neighbors@[j] as int],
                ),
        ensures
            final(self).kind == old(self).kind,
            final(self).order() == old(self).order(),
            final(self).ordered_points.len() == old(self).ordered_points.len(),
            final(self).filtration == old(self).filtration,
            final(self).cells.wf(),
            final(self).cells.labels().len() == graph@.num_nodes(),
            ({
                let g = graph@;
                let order = old(self).order();
                let labels = old(self).cells.labels();
                let data = old(self).data();
                let hs = ascending_neighbors@;
                let p = ordered_index as int;
                if hs.len() == 0 {
                    &&& r == Ok::<usize, MorseError>(order[p])
                    &&& final(self).cells.labels() == labels
                    &&& final(self).data() == data
                } else if same_cell(labels, hs) {
                    &&& final(self).cells.labels() == union_labels(labels, hs[0] as int, p)
                    &&& final(self).data() == data
                    &&& r == (if data[hs[0] as int] is Some {
                        Ok::<usize, MorseError>(data[hs[0] as int]->Some_0.ancestor)
                    } else {
                        Err::<usize, MorseError>(MorseError::MissingData {})
                    })
                } else {
                    let cells = distinct_labels(labels, hs, hs.len() as int);
                    let c = owning_cell(labels, hs);
                    let stop = merge_stop(data, cells, c, 0);
                    let done = cells.subrange(0, stop);
                    let merged = merged_data(data, order, p, c as int, done);
                    let src = hs[steepest(g, order, p, hs)] as int;
                    &&& final(self).cells.labels() == merged_labels(labels, p, c as int, done)
                    &&& final(self).data() == merged
                    &&& r == (if stop < cells.len() || merged[src] is None {
                        Err::<usize, MorseError>(MorseError::MissingData {})
                    } else {
                        Ok::<usize, MorseError>(merged[src]->Some_0.ancestor)
                    })
                }
            }),
    {
        let ghost g = graph@;
        let ghost order = self.order();
        let ghost p = ordered_index as int;
        let ghost hs = ascending_neighbors@;
        let ghost labels = self.cells.labels();
        let ghost data = self.data();
        proof {
            self.cells.lemma_labels();
        }
        // Without neighbours there is nothing to merge.
        if ascending_neighbors.len() == 0 {
            proof {
                use_type_invariant(graph);
                lemma_order_facts(g.values, is_descending(self.kind), order);
            }
            return Ok(self.ordered_points[ordered_index].node);
        }
        let mut single_cell = ascending_neighbors.len() == 1;
        if !single_cell {
            let connected_cells = self.connected_cells(ascending_neighbors);
            proof {
                lemma_cell_count(labels, hs, connected_cells@);
            }
            if connected_cells.len() == 1 {
                single_cell = true;
            } else {
                // The cells merge into the one of the most extreme extremum.
                proof {
                    lemma_distinct_labels(labels, hs, hs.len() as int);
                    assert forall|a: int| 0 <= a < connected_cells.len() implies #[trigger] connected_cells@[a] < self.ordered_points.len()
                        && labels[connected_cells@[a] as int] == connected_cells@[a] by {
                        assert(connected_cells@.contains(connected_cells@[a]));
                        let j = choose|j: int| 0 <= j < hs.len() && labels[(#[trigger] hs[j]) as int] == connected_cells@[a];
                    }
                }
                let max_cell = self.find_max_cell(&connected_cells, graph)?;
                proof {
                    lemma_smallest_cell_owns(labels, hs, connected_cells@, max_cell);
                }
                let steepest_neighbor = self.find_steepest_neighbor(ordered_index, ascending_neighbors, graph)?;
                proof {
                    crate::model::lemma_steepest_prefix(g, order, p, hs, hs.len() as int);
                }
                match self.merge_cells(ordered_index, max_cell, &connected_cells, graph) {
                    Ok(()) => {},
                    Err(e) => {
                        proof {
                            lemma_merge_stop_range(data, connected_cells@, max_cell, 0);
                        }
                        return Err(e);
                    },
                }
                proof {
                    assert(self.ordered_points@[steepest_neighbor as int].data == self.data()[steepest_neighbor as int]);
                }
                return match &self.ordered_points[steepest_neighbor].data {
                    Some(data) => Ok(data.ancestor),
                    None => Err(MorseError::MissingData {}),
                };
            }
        }
        // All neighbours lie in one cell: join it.
        proof {
            assert(same_cell(labels, hs));
        }
        let neighbor_index = ascending_neighbors[0];
        self.cells.union(neighbor_index, ordered_index);
        proof {
            assert(self.ordered_points@[neighbor_index as int].data == self.data()[neighbor_index as int]);
        }
        match &self.ordered_points[neighbor_index].data {
            Some(data) => Ok(data.ancestor),
            None => Err(MorseError::MissingData {}),
        }
    }

    /// Adds every point, in order, to the complex, then records the filtration.
    fn construct_complex(&mut self, graph: &MorseGraph) -> (r: Result<(), MorseError>)
        requires
            old(self).built_up_to(graph@, 0),
            old(self).ordered_points.len() == graph@.num_nodes(),
        ensures
            r is Ok,
            final(self).kind == old(self).kind,
            final(self).ordered_points.len() == old(self).ordered_points.len(),
            final(self).built_up_to(graph@, graph@.num_nodes() as int),
            final(self).filtration@ == filtration_prefix(final(self).order(), final(self).data(), graph@.num_nodes() as int),
    {
        let ghost g = graph@;
        let ghost kind = self.kind;
        let ghost order = self.order();
        let n = self.ordered_points.len();
        proof {
            lemma_order_facts(g.values, is_descending(kind), order);
        }
        // The position of each node in the order.
        let mut inverse_lookup: Vec<usize> = Vec::new();
        let mut q: usize = 0;
        while q < n
            invariant
                inverse_lookup.len() == q,
                q <= n,
            decreases n - q,
        {
            inverse_lookup.push(0);
            q = q + 1;
        }
        let mut q: usize = 0;
        while q < n
            invariant
                n == self.ordered_points.len(),
                n == g.num_nodes(),
                order == self.order(),
                is_stable_order(g.values, is_descending(kind), order),
                forall|a: int, b: int| 0 <= a < order.len() && 0 <= b < order.len() && a != b ==> #[trigger] order[a] != #[trigger] order[b],
                inverse_lookup.len() == n,
                q <= n,
                forall|a: int| 0 <= a < q ==> #[trigger] inverse_lookup@[order[a] as int] == a,
            decreases n - q,
        {
            let v = self.ordered_points[q].node;
            assert(v == order[q as int]);
            inverse_lookup.set(v, q);
            q = q + 1;
        }
        proof {
            assert forall|v: int| 0 <= v < n implies #[trigger] inverse_lookup@[v] == position_of(order, v) by {
                let a = position_of(order, v as usize as int);
                assert(order[a] == v);
            }
        }
        let mut i: usize = 0;
        while i < n
            invariant
                g == graph@,
                kind == self.kind,
                n == self.ordered_points.len(),
                n == g.num_nodes(),
                0 <= i <= n,
                self.built_up_to(g, i as int),
                self.filtration == old(self).filtration,
                inverse_lookup.len() == n,
                forall|v: int| 0 <= v < n ==> #[trigger] inverse_lookup@[v] == position_of(self.order(), v),
            decreases n - i,
        {
            let higher = self.higher_indices(i, &inverse_lookup, graph);
            let lifetime = if higher.len() == 0 {
                Persistence::Infinite
            } else {
                Persistence::Zero
            };
            let ghost o = point_order(g, kind);
            let ghost s0 = state_after(g, kind, o, i as int);
            let ghost t0 = step(g, kind, o, s0, i as int);
            proof {
                lemma_higher(g, kind, o, i as int);
                lemma_state_after(g, kind, o, i as int);
                if higher@.len() == 0 {
                    lemma_extremum_arrival(g, kind, o, i as int);
                } else if same_cell(s0.labels, higher@) {
                    lemma_join_arrival(g, kind, o, i as int);
                } else {
                    lemma_merge_is_arrival(g, kind, o, i as int);
                }
            }
            let ancestor = match self.add_point_to_complex(i, &higher, graph) {
                Ok(a) => a,
                Err(e) => {
                    return Err(e);
                },
            };
            proof {
                assert(self.cells.labels() == t0.labels);
                assert(self.data() == t0.data.update(i as int, None));
                assert(ancestor == t0.data[i as int]->Some_0.ancestor);
            }
            let node = self.ordered_points[i].node;
            let ghost before = self.ordered_points@;
            self.ordered_points.set(i, MorseNode { node, data: Some(MorseData { lifetime, ancestor, merge_parent: None }) });
            proof {
                let o = point_order(g, kind);
                let s = state_after(g, kind, o, i as int);
                let t = step(g, kind, o, s, i as int);
                assert(t == state_after(g, kind, o, i + 1));
                assert(self.order() =~= o) by {
                    assert forall|a: int| 0 <= a < n implies #[trigger] self.order()[a] == o[a] by {
                        if a != i {
                            assert(self.ordered_points@[a] == before[a]);
                        }
                    }
                }
                assert(self.data() =~= t.data) by {
                    assert forall|a: int| 0 <= a < n implies #[trigger] self.data()[a] == t.data[a] by {
                        if a != i {
                            assert(self.ordered_points@[a] == before[a]);
                            assert(before.map_values(|m: MorseNode| m.data)[a] == t.data.update(i as int, None)[a]);
                        }
                    }
                }
                lemma_state_after(g, kind, o, i + 1);
            }
            i = i + 1;
        }
        self.filtration = self.compute_filtration();
        Ok(())
    }

    /// The filtration steps, in the order of the points: one for each
    /// extremum merged into another cell, at its persistence, owned by its
    /// merge parent.
    fn compute_filtration(&self) -> (r: Vec<MorseFiltrationStep>)
        ensures
            r@ == filtration_prefix(self.order(), self.data(), self.ordered_points.len() as int),
    {
        let mut filtration: Vec<MorseFiltrationStep> = Vec::new();
        let mut i: usize = 0;
        while i < self.ordered_points.len()
            invariant
                0 <= i <= self.ordered_points.len(),
                filtration@ == filtration_prefix(self.order(), self.data(), i as int),
            decreases self.ordered_points.len() - i,
        {
            let point = &self.ordered_points[i];
            assert(self.data()[i as int] == point.data && self.order()[i as int] == point.node);
            match point.data {
                Some(data) => {
                    match data.merge_parent {
                        Some(parent) => {
                            filtration.push(MorseFiltrationStep { time: data.lifetime, destroyed_cell: point.node, owning_cell: parent });
                        },
                        None => {},
                    }
                },
                None => {},
            }
            i = i + 1;
        }
        filtration
    }

    /// Each node with its cell's extremum.
    pub fn get_complex(&self) -> (r: Vec<(usize, usize)>)
        ensures
            r@ == complex_prefix(self.order(), self.data(), self.order().len() as int),
            self.wf() ==> r@.len() == self.order().len(),
            self.wf() ==> forall|q: int|
                0 <= q < self.order().len() ==> #[trigger] r@[q] == (self.order()[q], self.data()[q]->Some_0.ancestor),
    {
        let mut complex: Vec<(usize, usize)> = Vec::new();
        let mut i: usize = 0;
        while i < self.ordered_points.len()
            invariant
                0 <= i <= self.ordered_points.len(),
                self.order().len() == self.ordered_points.len(),
                complex@ == complex_prefix(self.order(), self.data(), i as int),
            decreases self.ordered_points.len() - i,
        {
            let point = &self.ordered_points[i];
            assert(self.data()[i as int] == point.data && self.order()[i as int] == point.node);
            match point.data {
                Some(data) => complex.push((point.node, data.ancestor)),
                None => {},
            }
            i = i + 1;
        }
        proof {
            if self.wf() {
                lemma_complete_prefixes(self.order(), self.data(), self.order().len() as int);
            }
        }
        complex
    }

    /// Each node with its persistence. By definition the extrema that are
    /// never merged have infinite persistence and the points that are not
    /// extrema have zero persistence.
    pub fn get_persistence(&self) -> (r: Vec<(usize, Persistence)>)
        ensures
            r@ == persistence_prefix(self.order(), self.data(), self.order().len() as int),
            self.wf() ==> r@.len() == self.order().len(),
            self.wf() ==> forall|q: int|
                0 <= q < self.order().len() ==> #[trigger] r@[q] == (self.order()[q], self.data()[q]->Some_0.lifetime),
    {
        let mut result: Vec<(usize, Persistence)> = Vec::new();
        let mut i: usize = 0;
        while i < self.ordered_points.len()
            invariant
                0 <= i <= self.ordered_points.len(),
                self.order().len() == self.ordered_points.len(),
                result@ == persistence_prefix(self.order(), self.data(), i as int),
            decreases self.ordered_points.len() - i,
        {
            let point = &self.ordered_points[i];
            assert(self.data()[i as int] == point.data && self.order()[i as int] == point.node);
            if let Some(data) = &point.data {
                result.push((point.node, data.lifetime));
            }
            i = i + 1;
        }
        proof {
            if self.wf() {
                lemma_complete_prefixes(self.order(), self.data(), self.order().len() as int);
            }
        }
        result
    }

    /// The Morse complex of kind `kind` of `graph`; its filtration lists the
    /// merged extrema in the order of the points, until `sort_filtration`
    /// orders it by persistence.
    pub fn from_graph(kind: MorseKind, graph: &MorseGraph) -> (r: Result<MorseComplex, MorseError>)
        ensures
            r is Ok,
            r->Ok_0.is_built_from(graph@, kind),
            r->Ok_0.filtration_steps() == filtration_prefix(point_order(graph@, kind), morse_state(graph@, kind).data, graph@.num_nodes() as int),
    {
        proof {
            use_type_invariant(graph);
        }
        let ordered_points = MorseComplex::get_ordered_points(kind, graph);
        let num_points = ordered_points.len();
        let cells = PointedUnionFind::new(num_points);
        let mut complex = MorseComplex { kind, ordered_points, cells, filtration: Vec::new() };
        proof {
            let g = graph@;
            assert(complex.order().len() == g.num_nodes());
            assert(complex.cells.labels() =~= state_after(g, kind, complex.order(), 0).labels);
            assert(complex.data() =~= state_after(g, kind, complex.order(), 0).data);
        }
        complex.construct_complex(graph)?;
        proof {
            complex.lemma_built_is_wf(graph@);
        }
        Ok(complex)
    }

    /// Orders the filtration by persistence, from the least to the most
    /// persistent: `time_keys[j]` is the level, in the order of the
    /// magnitudes, of the persistence of the `j`-th step; steps of equal level
    /// keep their order.
    pub fn sort_filtration(&mut self, time_keys: &Vec<i64>)
        requires
            old(self).filtration_steps().len() == time_keys.len(),
        ensures
            final(self).filtration_steps() == Seq::new(
                time_keys.len() as nat,
                |j: int| old(self).filtration_steps()[stable_order(time_keys@, false)[j] as int],
            ),
            forall|i: int, j: int|
                0 <= i < j < time_keys.len() ==> time_keys@[#[trigger] stable_order(time_keys@, false)[i] as int]
                    <= time_keys@[#[trigger] stable_order(time_keys@, false)[j] as int],
            final(self).morse_kind() == old(self).morse_kind(),
            final(self).order() == old(self).order(),
            final(self).data() == old(self).data(),
            old(self).wf() ==> final(self).wf(),
    {
        let ghost old_self = *self;
        let order = stable_sort_indices(time_keys, false);
        let ghost old_steps = self.filtration@;
        let mut sorted: Vec<MorseFiltrationStep> = Vec::new();
        let mut i: usize = 0;
        while i < order.len()
            invariant
                order@ == stable_order(time_keys@, false),
                is_stable_order(time_keys@, false, order@),
                old_steps == self.filtration@,
                *self == old_self,
                self.filtration.len() == time_keys.len(),
                0 <= i <= order.len(),
                sorted@ == Seq::new(i as nat, |j: int| old_steps[order@[j] as int]),
            decreases order.len() - i,
        {
            sorted.push(self.filtration[order[i]]);
            i = i + 1;
            proof {
                assert(sorted@ =~= Seq::new(i as nat, |j: int| old_steps[order@[j] as int]));
            }
        }
        self.filtration = sorted;
        proof {
            assert forall|i: int, j: int| 0 <= i < j < time_keys.len() implies time_keys@[#[trigger] order@[i] as int]
                <= time_keys@[#[trigger] order@[j] as int] by {
                assert(crate::ordering::precedes(time_keys@, false, order@[i] as int, order@[j] as int));
            }
            if old_self.wf() {
                let n = self.ordered_points.len() as int;
                assert(self.ordered_points == old_self.ordered_points);
                assert forall|q: int| 0 <= q < n implies #[trigger] self.order()[q] < n by {
                    assert(old_self.order()[q] < n);
                }
                assert forall|q: int| 0 <= q < n implies #[trigger] self.data()[q] is Some && data_in_range(self.data()[q]->Some_0, n) by {
                    assert(old_self.data()[q] is Some && data_in_range(old_self.data()[q]->Some_0, n));
                }
                assert forall|j: int| 0 <= j < self.filtration.len() implies step_in_range(#[trigger] self.filtration@[j], n) by {
                    assert(order@[j] < time_keys.len());
                    assert(self.filtration@[j] == old_steps[order@[j] as int]);
                    assert(step_in_range(old_self.filtration@[order@[j] as int], n));
                }
            }
        }
    }

    /// The persistence of each node, its filtration and its cell extremum,
    /// with the nodes named by their identifiers in `graph`.
    pub fn to_data(&self, graph: &MorseGraph) -> (r: MorseComplexData)
        requires
            self.wf(),
            self.order().len() <= graph@.num_nodes(),
        ensures
            r.lifetimes@ == identified_lifetimes(graph@.ids, persistence_prefix(self.order(), self.data(), self.order().len() as int)),
            r.filtration@ == identified_filtration(graph@.ids, self.filtration_steps()),
            r.complex@ == identified_complex(graph@.ids, complex_prefix(self.order(), self.data(), self.order().len() as int)),
            r.data_of(graph@, *self),
            r.lifetimes@.len() == self.order().len(),
            forall|q: int|
                0 <= q < self.order().len() ==> #[trigger] r.lifetimes@[q] == (
                    graph@.ids[self.order()[q] as int],
                    self.data()[q]->Some_0.lifetime,
                ),
            r.complex@.len() == self.order().len(),
            forall|q: int|
                0 <= q < self.order().len() ==> #[trigger] r.complex@[q] == (
                    graph@.ids[self.order()[q] as int],
                    graph@.ids[self.data()[q]->Some_0.ancestor as int],
                ),
    {
        proof {
            use_type_invariant(graph);
            self.lemma_entries_in_range(self.order().len() as int);
        }
        let ghost ids = graph@.ids;
        let n = self.ordered_points.len();
        let persistence = self.get_persistence();
        let mut lifetimes: Vec<(i64, Persistence)> = Vec::new();
        let mut i: usize = 0;
        while i < persistence.len()
            invariant
                ids == graph.ids@,
                n <= ids.len(),
                0 <= i <= persistence.len(),
                forall|j: int| 0 <= j < persistence.len() ==> (#[trigger] persistence@[j]).0 < n,
                lifetimes@ == identified_lifetimes(ids, persistence@.subrange(0, i as int)),
            decreases persistence.len() - i,
        {
            let (node, lifetime) = persistence[i];
            lifetimes.push((graph.ids[node], lifetime));
            i = i + 1;
            proof {
                assert(lifetimes@ =~= identified_lifetimes(ids, persistence@.subrange(0, i as int)));
            }
        }
        let mut filtration: Vec<(Persistence, i64, i64)> = Vec::new();
        let mut i: usize = 0;
        while i < self.filtration.len()
            invariant
                ids == graph.ids@,
                n <= ids.len(),
                n == self.ordered_points.len(),
                self.wf(),
                0 <= i <= self.filtration.len(),
                filtration@ == identified_filtration(ids, self.filtration@.subrange(0, i as int)),
            decreases self.filtration.len() - i,
        {
            let step = self.filtration[i];
            assert(step_in_range(self.filtration@[i as int], n as int));
            filtration.push((step.time, graph.ids[step.destroyed_cell], graph.ids[step.owning_cell]));
            i = i + 1;
            proof {
                assert(filtration@ =~= identified_filtration(ids, self.filtration@.subrange(0, i as int)));
            }
        }
        let cells = self.get_complex();
        let mut complex: Vec<(i64, i64)> = Vec::new();
        let mut i: usize = 0;
        while i < cells.len()
            invariant
                ids == graph.ids@,
                n <= ids.len(),
                0 <= i <= cells.len(),
                forall|j: int| 0 <= j < cells.len() ==> (#[trigger] cells@[j]).0 < n && cells@[j].1 < n,
                complex@ == identified_complex(ids, cells@.subrange(0, i as int)),
            decreases cells.len() - i,
        {
            let (node, ancestor) = cells[i];
            complex.push((graph.ids[node], graph.ids[ancestor]));
            i = i + 1;
            proof {
                assert(complex@ =~= identified_complex(ids, cells@.subrange(0, i as int)));
            }
        }
        proof {
            assert(persistence@.subrange(0, persistence.len() as int) =~= persistence@);
            assert(self.filtration@.subrange(0, self.filtration.len() as int) =~= self.filtration@);
            assert(cells@.subrange(0, cells.len() as int) =~= cells@);
            lemma_complete_prefixes(self.order(), self.data(), n as int);
        }
        MorseComplexData { lifetimes, filtration, complex }
    }

    /// A well-formed complex has a record for every point.
    pub proof fn lemma_records_complete(&self)
        requires
            self.wf(),
        ensures
            self.data().len() == self.order().len(),
            forall|q: int| 0 <= q < self.order().len() ==> (#[trigger] self.data()[q]) is Some,
    {
    }

    proof fn lemma_entries_in_range(&self, k: int)
        requires
            self.wf(),
            0 <= k <= self.order().len(),
        ensures
            forall|j: int| 0 <= j < persistence_prefix(self.order(), self.data(), k).len()
                ==> (#[trigger] persistence_prefix(self.order(), self.data(), k)[j]).0 < self.order().len(),
            forall|j: int| 0 <= j < complex_prefix(self.order(), self.data(), k).len()
                ==> (#[trigger] complex_prefix(self.order(), self.data(), k)[j]).0 < self.order().len()
                && complex_prefix(self.order(), self.data(), k)[j].1 < self.order().len(),
        decreases k,
    {
        if k > 0 {
            self.lemma_entries_in_range(k - 1);
            let n = self.order().len() as int;
            assert(self.order()[k - 1] < n);
            assert(self.data()[k - 1] is Some && data_in_range(self.data()[k - 1]->Some_0, n));
            let p0 = persistence_prefix(self.order(), self.data(), k - 1);
            let p1 = persistence_prefix(self.order(), self.data(), k);
            assert forall|j: int| 0 <= j < p1.len() implies (#[trigger] p1[j]).0 < n by {
                if j < p0.len() {
                    assert(p1[j] == p0[j]);
                }
            }
            let c0 = complex_prefix(self.order(), self.data(), k - 1);
            let c1 = complex_prefix(self.order(), self.data(), k);
            assert forall|j: int| 0 <= j < c1.len() implies (#[trigger] c1[j]).0 < n && c1[j].1 < n by {
                if j < c0.len() {
                    assert(c1[j] == c0[j]);
                }
            }
        }
    }
}

/// The Morse complex of a graph's function and the Morse complex of its
/// negation: the descending complex (of the maxima) and the ascending complex
/// (of the minima).
pub struct MorseSmaleComplex {
    pub ascending_complex: MorseComplex,
    pub descending_complex: MorseComplex,
}

impl MorseSmaleComplex {
    /// Builds both complexes of `graph`.
    pub fn from_graph(graph: &MorseGraph) -> (r: Result<MorseSmaleComplex, MorseError>)
        ensures
            r is Ok,
            r->Ok_0.ascending_complex.is_built_from(graph@, MorseKind::Ascending),
            r->Ok_0.descending_complex.is_built_from(graph@, MorseKind::Descending),
            r->Ok_0.ascending_complex.filtration_steps() == filtration_prefix(
                point_order(graph@, MorseKind::Ascending),
                morse_state(graph@, MorseKind::Ascending).data,
                graph@.num_nodes() as int,
            ),
            r->Ok_0.descending_complex.filtration_steps() == filtration_prefix(
                point_order(graph@, MorseKind::Descending),
                morse_state(graph@, MorseKind::Descending).data,
                graph@.num_nodes() as int,
            ),
    {
        let ascending_complex = MorseComplex::from_graph(MorseKind::Ascending, graph)?;
        let descending_complex = MorseComplex::from_graph(MorseKind::Descending, graph)?;
        Ok(MorseSmaleComplex { ascending_complex, descending_complex })
    }

    /// The data of the descending complex, then of the ascending complex.
    pub fn to_data(&self, graph: &MorseGraph) -> (r: (MorseComplexData, MorseComplexData))
        requires
            self.descending_complex.wf(),
            self.descending_complex.order().len() <= graph@.num_nodes(),
            self.ascending_complex.wf(),
            self.ascending_complex.order().len() <= graph@.num_nodes(),
        ensures
            r.0.data_of(graph@, self.descending_complex),
            r.1.data_of(graph@, self.ascending_complex),
    {
        (self.descending_complex.to_data(graph), self.ascending_complex.to_data(graph))
    }
}

/// What a Morse complex amounts to, with nodes named by their identifiers.
pub struct MorseComplexData {
    pub lifetimes: Vec<(i64, Persistence)>,
    pub filtration: Vec<(Persistence, i64, i64)>,
    pub complex: Vec<(i64, i64)>,
}

impl MorseComplexData {
    /// This is the data of `complex`, a complex of the graph `g`.
    /// Entry `q` of its lifetimes is the node at position `q` by its
    /// identifier, with its persistence; entry `q` of its cell map is that node
    /// and its ancestor, by their identifiers; entry `j` of its filtration is
    /// the step `j` of the complex's filtration, with its two nodes by their
    /// identifiers.
    pub open spec fn data_of(&self, g: GraphModel, complex: MorseComplex) -> bool {
        let order = complex.order();
        let data = complex.data();
        let steps = complex.filtration_steps();
        &&& self.lifetimes@ == identified_lifetimes(g.ids, persistence_prefix(order, data, order.len() as int))
        &&& self.filtration@ == identified_filtration(g.ids, steps)
        &&& self.complex@ == identified_complex(g.ids, complex_prefix(order, data, order.len() as int))
        &&& self.lifetimes@.len() == order.len()
        &&& forall|q: int|
            0 <= q < order.len() ==> #[trigger] self.lifetimes@[q] == (g.ids[order[q] as int], data[q]->Some_0.lifetime)
        &&& self.filtration@.len() == steps.len()
        &&& forall|j: int|
            0 <= j < steps.len() ==> #[trigger] self.filtration@[j] == (
                steps[j].time,
                g.ids[steps[j].destroyed_cell as int],
                g.ids[steps[j].owning_cell as int],
            )
        &&& self.complex@.len() == order.len()
        &&& forall|q: int|
            0 <= q < order.len() ==> #[trigger] self.complex@[q] == (g.ids[order[q] as int], g.ids[data[q]->Some_0.ancestor as int])
    }
}

/// Persistence entries with the nodes named by their identifiers.
pub open spec fn identified_lifetimes(ids: Seq<i64>, s: Seq<(usize, Persistence)>) -> Seq<(i64, Persistence)> {
    s.map_values(|e: (usize, Persistence)| (ids[e.0 as int], e.1))
}

/// Filtration steps with the nodes named by their identifiers.
pub open spec fn identified_filtration(ids: Seq<i64>, s: Seq<MorseFiltrationStep>) -> Seq<(Persistence, i64, i64)> {
    s.map_values(|st: MorseFiltrationStep| (st.time, ids[st.destroyed_cell as int], ids[st.owning_cell as int]))
}

/// Cell entries with the nodes named by their identifiers.
pub open spec fn identified_complex(ids: Seq<i64>, s: Seq<(usize, usize)>) -> Seq<(i64, i64)> {
    s.map_values(|e: (usize, usize)| (ids[e.0 as int], ids[e.1 as int]))
}

/// The nodes that a persistence refers to are below `n`.
pub open spec fn persistence_in_range(p: Persistence, n: int) -> bool {
    match p {
        Persistence::Span(a, b) => a < n && b < n,
        _ => true,
    }
}

/// The nodes that a record refers to are below `n`.
pub open spec fn data_in_range(d: MorseData, n: int) -> bool {
    &&& d.ancestor < n
    &&& (d.merge_parent is Some ==> d.merge_parent->Some_0 < n)
    &&& persistence_in_range(d.lifetime, n)
}

/// The nodes that a filtration step refers to are below `n`.
pub open spec fn step_in_range(st: MorseFiltrationStep, n: int) -> bool {
    &&& st.destroyed_cell < n
    &&& st.owning_cell < n
    &&& persistence_in_range(st.time, n)
}

proof fn lemma_filtration_in_range(order: Seq<usize>, data: Seq<Option<MorseData>>, k: int, n: int)
    requires
        0 <= k <= order.len(),
        order.len() == n,
        data.len() == n,
        forall|q: int| 0 <= q < n ==> #[trigger] order[q] < n,
        forall|q: int| 0 <= q < n ==> #[trigger] data[q] is Some && data_in_range(data[q]->Some_0, n),
    ensures
        forall|j: int| 0 <= j < filtration_prefix(order, data, k).len() ==> step_in_range(#[trigger] filtration_prefix(order, data, k)[j], n),
    decreases k,
{
    if k > 0 {
        lemma_filtration_in_range(order, data, k - 1, n);
        let prev = filtration_prefix(order, data, k - 1);
        let cur = filtration_prefix(order, data, k);
        assert(data[k - 1] is Some && data_in_range(data[k - 1]->Some_0, n));
        assert(order[k - 1] < n);
        assert forall|j: int| 0 <= j < cur.len() implies step_in_range(#[trigger] cur[j], n) by {
            if j < prev.len() {
                assert(cur[j] == prev[j]);
            }
        }
    }
}

} // verus!
