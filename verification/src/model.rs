//! The mathematical model of a Morse complex: the order in which the points are
//! taken, and the cells, ancestors and persistence that each point's arrival
//! yields.

use crate::morse::{Grade, MorseData, MorseFiltrationStep, MorseKind, Persistence};
use crate::ordering::{is_stable_order, precedes, stable_order};
use crate::pointed_union_find::union_labels;
use vstd::prelude::*;

verus! {

/// A graph with a scalar function on its nodes, as sequences.
pub struct GraphModel {
    pub ids: Seq<i64>,
    pub values: Seq<i64>,
    pub neighbors: Seq<Seq<usize>>,
    pub grades: Seq<Seq<Grade>>,
}

impl GraphModel {
    pub open spec fn num_nodes(self) -> nat {
        self.values.len()
    }

    /// Every node has an identifier, a value and a list of neighbours.
    pub open spec fn sizes_agree(self) -> bool {
        &&& self.ids.len() == self.values.len()
        &&& self.neighbors.len() == self.values.len()
        &&& self.grades.len() == self.values.len()
    }

    /// Every neighbour entry has a grade.
    pub open spec fn grades_agree(self) -> bool {
        forall|u: int| 0 <= u < self.values.len() ==> #[trigger] self.grades[u].len() == self.neighbors[u].len()
    }

    /// Every neighbour is a node.
    pub open spec fn neighbors_in_range(self) -> bool {
        forall|u: int, k: int|
            0 <= u < self.values.len() && 0 <= k < self.neighbors[u].len() ==> #[trigger] self.neighbors[u][k] < self.values.len()
    }

    pub open spec fn well_formed(self) -> bool {
        &&& self.values.len() <= usize::MAX
        &&& self.sizes_agree()
        &&& self.grades_agree()
        &&& self.neighbors_in_range()
    }

    /// The index of the first entry of `v` among the neighbours of `u`: the
    /// edge that a lookup of the edge between them finds.
    pub open spec fn edge_index(self, u: int, v: usize) -> int {
        choose|k: int| is_first_entry(self.neighbors[u], v, k)
    }

    /// The grade of the edge from `u` to its neighbour `v`.
    pub open spec fn grade(self, u: int, v: usize) -> Grade {
        self.grades[u][self.edge_index(u, v)]
    }
}

pub open spec fn is_first_entry(s: Seq<usize>, v: usize, k: int) -> bool {
    &&& 0 <= k < s.len()
    &&& s[k] == v
    &&& forall|j: int| 0 <= j < k ==> s[j] != v
}

pub open spec fn is_descending(kind: MorseKind) -> bool {
    kind is Descending
}

/// `a` is at least as extreme as `b`: as high for a descending complex, as low
/// for an ascending one.
pub open spec fn at_least_as_extreme(kind: MorseKind, a: i64, b: i64) -> bool {
    if kind is Descending {
        a >= b
    } else {
        a <= b
    }
}

/// The nodes in the order in which they are taken: from the most extreme value
/// to the least, nodes of equal value by index.
pub open spec fn point_order(g: GraphModel, kind: MorseKind) -> Seq<usize> {
    stable_order(g.values, is_descending(kind))
}

/// The position of node `v` in `order`.
pub open spec fn position_of(order: Seq<usize>, v: int) -> int {
    choose|q: int| 0 <= q < order.len() && order[q] == v
}

/// The positions of the neighbours of the point at position `p` that come
/// before it and are at least as extreme, among its first `k` neighbour
/// entries, in entry order.
pub open spec fn higher_prefix(g: GraphModel, kind: MorseKind, order: Seq<usize>, p: int, k: int) -> Seq<usize>
    decreases k,
{
    if k <= 0 {
        Seq::empty()
    } else {
        let prev = higher_prefix(g, kind, order, p, k - 1);
        let u = order[p] as int;
        let v = g.neighbors[u][k - 1];
        let q = position_of(order, v as int);
        if at_least_as_extreme(kind, g.values[v as int], g.values[u]) && q < p {
            prev.push(q as usize)
        } else {
            prev
        }
    }
}

/// The positions of the already placed neighbours of the point at position
/// `p` whose values are at least as extreme as its own.
pub open spec fn higher(g: GraphModel, kind: MorseKind, order: Seq<usize>, p: int) -> Seq<usize> {
    higher_prefix(g, kind, order, p, g.neighbors[order[p] as int].len() as int)
}

/// The point at position `p` is an extremum: no neighbour before it is at
/// least as extreme.
pub open spec fn is_extremum(g: GraphModel, kind: MorseKind, order: Seq<usize>, p: int) -> bool {
    higher(g, kind, order, p).len() == 0
}

/// `a` is steeper than `b`; nothing is steeper than, or less steep than, an
/// incomparable grade.
pub open spec fn steeper(a: Grade, b: Grade) -> bool {
    match a {
        Grade::Level(x) => match b {
            Grade::Level(y) => x > y,
            Grade::Incomparable => false,
        },
        Grade::Incomparable => false,
    }
}

/// The index in `hs` of the steepest of the first `k` neighbours of the point
/// at position `p`: the first one unless a later one is steeper than the best
/// so far.
pub open spec fn steepest_prefix(g: GraphModel, order: Seq<usize>, p: int, hs: Seq<usize>, k: int) -> int
    decreases k,
{
    if k <= 1 {
        0
    } else {
        let b = steepest_prefix(g, order, p, hs, k - 1);
        let u = order[p] as int;
        if steeper(g.grade(u, order[hs[k - 1] as int]), g.grade(u, order[hs[b] as int])) {
            k - 1
        } else {
            b
        }
    }
}

pub open spec fn steepest(g: GraphModel, order: Seq<usize>, p: int, hs: Seq<usize>) -> int {
    steepest_prefix(g, order, p, hs, hs.len() as int)
}

/// `l` is the label of the cell of one of the positions `hs`.
pub open spec fn in_cells(labels: Seq<usize>, hs: Seq<usize>, l: usize) -> bool {
    exists|j: int| 0 <= j < hs.len() && labels[(#[trigger] hs[j]) as int] == l
}

/// `c` is the smallest cell label among the positions `hs`: the cell of the
/// most extreme of their extrema.
pub open spec fn is_owning_cell(labels: Seq<usize>, hs: Seq<usize>, c: usize) -> bool {
    &&& in_cells(labels, hs, c)
    &&& forall|j: int| 0 <= j < hs.len() ==> c <= labels[(#[trigger] hs[j]) as int]
}

pub open spec fn owning_cell(labels: Seq<usize>, hs: Seq<usize>) -> usize {
    choose|c: usize| is_owning_cell(labels, hs, c)
}

/// All the positions `hs` lie in one cell.
pub open spec fn same_cell(labels: Seq<usize>, hs: Seq<usize>) -> bool {
    forall|j: int| 0 <= j < hs.len() ==> labels[(#[trigger] hs[j]) as int] == labels[hs[0] as int]
}

/// The cell label of each position, and what has been recorded of each point.
pub struct MorseState {
    pub labels: Seq<usize>,
    pub data: Seq<Option<MorseData>>,
}

/// The position whose ancestor the point at position `p` inherits: the first
/// neighbour before it when they all lie in one cell, else the steepest one.
pub open spec fn ancestor_source(g: GraphModel, kind: MorseKind, order: Seq<usize>, s: MorseState, p: int) -> int {
    let hs = higher(g, kind, order, p);
    if same_cell(s.labels, hs) {
        hs[0] as int
    } else {
        hs[steepest(g, order, p, hs)] as int
    }
}

/// The arrival of the point at position `p`. Without a neighbour before it,
/// it is an extremum: its own ancestor, of infinite persistence, alone in its
/// cell. Otherwise it has zero persistence and inherits an ancestor; the cells
/// of its neighbours and itself merge into the smallest of their labels, and
/// every other of those cells' extrema records its persistence as the span from
/// itself to this point, and the owning extremum as its merge parent.
pub open spec fn step(g: GraphModel, kind: MorseKind, order: Seq<usize>, s: MorseState, p: int) -> MorseState {
    let hs = higher(g, kind, order, p);
    if hs.len() == 0 {
        MorseState {
            labels: s.labels,
            data: s.data.update(
                p,
                Some(MorseData { lifetime: Persistence::Infinite, merge_parent: None, ancestor: order[p] }),
            ),
        }
    } else {
        let c = owning_cell(s.labels, hs);
        let src = ancestor_source(g, kind, order, s, p);
        MorseState {
            labels: Seq::new(
                s.labels.len(),
                |e: int| if e == p || in_cells(s.labels, hs, s.labels[e]) { c } else { s.labels[e] },
            ),
            data: Seq::new(
                s.data.len(),
                |q: int|
                    if q == p {
                        Some(MorseData { lifetime: Persistence::Zero, merge_parent: None, ancestor: s.data[src]->Some_0.ancestor })
                    } else if q != c && in_cells(s.labels, hs, q as usize) {
                        Some(
                            MorseData {
                                lifetime: Persistence::Span(order[q], order[p]),
                                merge_parent: Some(order[c as int]),
                                ancestor: s.data[q]->Some_0.ancestor,
                            },
                        )
                    } else {
                        s.data[q]
                    },
            ),
        }
    }
}

/// Every point alone in its cell, nothing recorded.
pub open spec fn initial_state(n: nat) -> MorseState {
    MorseState { labels: Seq::new(n, |e: int| e as usize), data: Seq::new(n, |q: int| None) }
}

/// The state once the first `k` points in `order` have arrived.
pub open spec fn state_after(g: GraphModel, kind: MorseKind, order: Seq<usize>, k: int) -> MorseState
    decreases k,
{
    if k <= 0 {
        initial_state(g.num_nodes())
    } else {
        step(g, kind, order, state_after(g, kind, order, k - 1), k - 1)
    }
}

/// The Morse complex of kind `kind` of the graph `g`, by position in the order
/// of the points.
pub open spec fn morse_state(g: GraphModel, kind: MorseKind) -> MorseState {
    state_after(g, kind, point_order(g, kind), g.num_nodes() as int)
}


/// The filtration steps recorded among the first `k` positions, in order of
/// position: one for each extremum that was merged into another cell.
pub open spec fn filtration_prefix(order: Seq<usize>, data: Seq<Option<MorseData>>, k: int) -> Seq<MorseFiltrationStep>
    decreases k,
{
    if k <= 0 {
        Seq::empty()
    } else {
        let prev = filtration_prefix(order, data, k - 1);
        match data[k - 1] {
            Some(d) => match d.merge_parent {
                Some(parent) => prev.push(
                    MorseFiltrationStep { time: d.lifetime, destroyed_cell: order[k - 1], owning_cell: parent },
                ),
                None => prev,
            },
            None => prev,
        }
    }
}

/// The persistence of each recorded point among the first `k` positions.
pub open spec fn persistence_prefix(order: Seq<usize>, data: Seq<Option<MorseData>>, k: int) -> Seq<(usize, Persistence)>
    decreases k,
{
    if k <= 0 {
        Seq::empty()
    } else {
        let prev = persistence_prefix(order, data, k - 1);
        match data[k - 1] {
            Some(d) => prev.push((order[k - 1], d.lifetime)),
            None => prev,
        }
    }
}

/// The ancestor of each recorded point among the first `k` positions.
pub open spec fn complex_prefix(order: Seq<usize>, data: Seq<Option<MorseData>>, k: int) -> Seq<(usize, usize)>
    decreases k,
{
    if k <= 0 {
        Seq::empty()
    } else {
        let prev = complex_prefix(order, data, k - 1);
        match data[k - 1] {
            Some(d) => prev.push((order[k - 1], d.ancestor)),
            None => prev,
        }
    }
}

/// What holds of the record `d` of the point at position `q`: its ancestor is
/// an extremum at or before it; its persistence is zero exactly when it is not
/// an extremum; it has a merge parent exactly when its persistence is a span,
/// which runs from the point itself to a later point; and its merge parent is
/// an extremum before it.
pub open spec fn point_facts(g: GraphModel, kind: MorseKind, order: Seq<usize>, d: MorseData, q: int) -> bool {
    let a = position_of(order, d.ancestor as int);
    &&& 0 <= a <= q
    &&& order[a] == d.ancestor
    &&& is_extremum(g, kind, order, a)
    &&& (is_extremum(g, kind, order, q) ==> d.ancestor == order[q])
    &&& (d.lifetime is Zero <==> !is_extremum(g, kind, order, q))
    &&& (d.merge_parent is Some <==> d.lifetime is Span)
    &&& (d.lifetime is Span ==> {
        let b = position_of(order, d.lifetime->Span_1 as int);
        &&& d.lifetime->Span_0 == order[q]
        &&& q < b < order.len()
        &&& order[b] == d.lifetime->Span_1
    })
    &&& (d.merge_parent is Some ==> {
        let c = position_of(order, d.merge_parent->Some_0 as int);
        &&& 0 <= c < q
        &&& order[c] == d.merge_parent->Some_0
        &&& is_extremum(g, kind, order, c)
    })
}

/// What holds of the cell labels once the first `k` points have arrived:
/// each placed point's label is an extremum at or before it, every other point
/// is still alone, and every label is its own label.
pub open spec fn labels_invariant(g: GraphModel, kind: MorseKind, order: Seq<usize>, labels: Seq<usize>, k: int) -> bool {
    let n = g.num_nodes() as int;
    &&& labels.len() == n
    &&& forall|e: int| 0 <= e < k ==> #[trigger] labels[e] <= e && is_extremum(g, kind, order, labels[e] as int)
    &&& forall|e: int| k <= e < n ==> #[trigger] labels[e] == e
    &&& forall|e: int| 0 <= e < n ==> #[trigger] labels[labels[e] as int] == labels[e]
}

/// What holds of the records once the first `k` points have arrived: exactly
/// those points have one, and it satisfies `point_facts`.
pub open spec fn data_invariant(g: GraphModel, kind: MorseKind, order: Seq<usize>, data: Seq<Option<MorseData>>, k: int) -> bool {
    let n = g.num_nodes() as int;
    &&& data.len() == n
    &&& forall|q: int| 0 <= q < n ==> (#[trigger] data[q] is Some <==> q < k)
    &&& forall|q: int| 0 <= q < k ==> point_facts(g, kind, order, #[trigger] data[q]->Some_0, q)
}

/// What holds of the state once the first `k` points have arrived.
pub open spec fn state_invariant(g: GraphModel, kind: MorseKind, order: Seq<usize>, s: MorseState, k: int) -> bool {
    &&& labels_invariant(g, kind, order, s.labels, k)
    &&& data_invariant(g, kind, order, s.data, k)
}

/// The order of the points lists each node once.
pub proof fn lemma_order_facts(keys: Seq<i64>, descending: bool, order: Seq<usize>)
    requires
        is_stable_order(keys, descending, order),
    ensures
        forall|a: int, b: int| 0 <= a < order.len() && 0 <= b < order.len() && a != b ==> #[trigger] order[a] != #[trigger] order[b],
        forall|v: usize| v < order.len() ==> 0 <= #[trigger] position_of(order, v as int) < order.len() && order[position_of(order, v as int)] == v,
        forall|q: int| 0 <= q < order.len() ==> #[trigger] position_of(order, order[q] as int) == q,
{
    assert forall|a: int, b: int| 0 <= a < order.len() && 0 <= b < order.len() && a != b implies #[trigger] order[a] != #[trigger] order[b] by {
        if a < b {
            assert(precedes(keys, descending, order[a] as int, order[b] as int));
        } else {
            assert(precedes(keys, descending, order[b] as int, order[a] as int));
        }
    }
    assert forall|v: usize| v < order.len() implies 0 <= #[trigger] position_of(order, v as int) < order.len() && order[position_of(order, v as int)] == v by {
        assert(order.contains(v));
    }
    assert forall|q: int| 0 <= q < order.len() implies #[trigger] position_of(order, order[q] as int) == q by {
        let v = order[q];
        assert(v < order.len());
        assert(order.contains(v));
        let w = position_of(order, v as int);
        assert(order[w] == order[q]);
    }
}

/// Along the order of the points, the values go from the most extreme to the
/// least.
pub proof fn lemma_order_sorted(g: GraphModel, kind: MorseKind, order: Seq<usize>)
    requires
        is_stable_order(g.values, is_descending(kind), order),
    ensures
        forall|a: int, b: int|
            0 <= a < b < order.len() ==> at_least_as_extreme(kind, g.values[#[trigger] order[a] as int], g.values[#[trigger] order[b] as int]),
{
    assert forall|a: int, b: int| 0 <= a < b < order.len() implies at_least_as_extreme(kind, g.values[#[trigger] order[a] as int], g.values[#[trigger] order[b] as int]) by {
        assert(precedes(g.values, is_descending(kind), order[a] as int, order[b] as int));
    }
}

/// The positions in `higher_prefix` come before `p` and hold neighbours of the
/// point at `p`.
pub proof fn lemma_higher_prefix(g: GraphModel, kind: MorseKind, order: Seq<usize>, p: int, k: int)
    requires
        g.well_formed(),
        is_stable_order(g.values, is_descending(kind), order),
        0 <= p < order.len(),
        0 <= k <= g.neighbors[order[p] as int].len(),
    ensures
        higher_prefix(g, kind, order, p, k).len() <= k,
        forall|j: int|
            0 <= j < higher_prefix(g, kind, order, p, k).len() ==> {
                let h = #[trigger] higher_prefix(g, kind, order, p, k)[j];
                &&& h < p
                &&& g.neighbors[order[p] as int].contains(order[h as int])
            },
    decreases k,
{
    lemma_order_facts(g.values, is_descending(kind), order);
    if k > 0 {
        lemma_higher_prefix(g, kind, order, p, k - 1);
        let u = order[p] as int;
        let v = g.neighbors[u][k - 1];
        assert(order[p] < g.values.len());
        assert(v < g.values.len());
        let q = position_of(order, v as int);
        let hs = higher_prefix(g, kind, order, p, k);
        let prev = higher_prefix(g, kind, order, p, k - 1);
        assert forall|j: int| 0 <= j < hs.len() implies {
            let h = #[trigger] hs[j];
            &&& h < p
            &&& g.neighbors[u].contains(order[h as int])
        } by {
            if j < prev.len() {
                assert(hs[j] == prev[j]);
            } else {
                assert(hs[j] == q as usize);
                assert(order[q] == v);
                assert(g.neighbors[u][k - 1] == v);
            }
        }
    }
}

/// The steepest neighbour is one of them.
pub proof fn lemma_steepest_prefix(g: GraphModel, order: Seq<usize>, p: int, hs: Seq<usize>, k: int)
    requires
        1 <= k,
    ensures
        0 <= steepest_prefix(g, order, p, hs, k) < k,
    decreases k,
{
    if k > 1 {
        lemma_steepest_prefix(g, order, p, hs, k - 1);
    }
}

/// The grade of the edge from the point at position `p` to the point at
/// position `hs[i]`.
pub open spec fn neighbor_grade(g: GraphModel, order: Seq<usize>, p: int, hs: Seq<usize>, i: int) -> Grade {
    g.grade(order[p] as int, order[hs[i] as int])
}

/// Among the first `k` entries of `hs`, entry `j` is the steepest: where the
/// first grade is incomparable, the first entry; otherwise an entry of
/// comparable grade whose level no comparable entry exceeds, and the first
/// entry with that level.
pub open spec fn is_steepest_among(g: GraphModel, order: Seq<usize>, p: int, hs: Seq<usize>, k: int, j: int) -> bool {
    &&& 0 <= j < k
    &&& if neighbor_grade(g, order, p, hs, 0) is Incomparable {
        j == 0
    } else {
        &&& neighbor_grade(g, order, p, hs, j) is Level
        &&& forall|i: int|
            0 <= i < k && (#[trigger] neighbor_grade(g, order, p, hs, i)) is Level ==> neighbor_grade(g, order, p, hs, i)->Level_0
                <= neighbor_grade(g, order, p, hs, j)->Level_0
        &&& forall|i: int|
            0 <= i < j && (#[trigger] neighbor_grade(g, order, p, hs, i)) is Level ==> neighbor_grade(g, order, p, hs, i)->Level_0
                < neighbor_grade(g, order, p, hs, j)->Level_0
    }
}

/// Entry `j` of `hs` is the steepest of all its entries.
pub open spec fn is_steepest_index(g: GraphModel, order: Seq<usize>, p: int, hs: Seq<usize>, j: int) -> bool {
    is_steepest_among(g, order, p, hs, hs.len() as int, j)
}

proof fn lemma_steepest_prefix_among(g: GraphModel, order: Seq<usize>, p: int, hs: Seq<usize>, k: int)
    requires
        1 <= k <= hs.len(),
    ensures
        is_steepest_among(g, order, p, hs, k, steepest_prefix(g, order, p, hs, k)),
    decreases k,
{
    if k > 1 {
        lemma_steepest_prefix_among(g, order, p, hs, k - 1);
        let b = steepest_prefix(g, order, p, hs, k - 1);
        let gb = neighbor_grade(g, order, p, hs, b);
        let gk = neighbor_grade(g, order, p, hs, k - 1);
        if steeper(gk, gb) {
            assert(steepest_prefix(g, order, p, hs, k) == k - 1);
            if neighbor_grade(g, order, p, hs, 0) is Incomparable {
                assert(b == 0);
                assert(false);
            }
        } else {
            assert(steepest_prefix(g, order, p, hs, k) == b);
        }
    }
}

/// The steepest neighbour is the one entry of `hs` that is steepest of them
/// all: no comparable grade among them is steeper than its grade, and none
/// before it is as steep.
pub proof fn lemma_steepest_is_steepest(g: GraphModel, order: Seq<usize>, p: int, hs: Seq<usize>)
    requires
        hs.len() > 0,
    ensures
        is_steepest_index(g, order, p, hs, steepest(g, order, p, hs)),
        forall|j: int| #[trigger] is_steepest_index(g, order, p, hs, j) ==> j == steepest(g, order, p, hs),
{
    lemma_steepest_prefix_among(g, order, p, hs, hs.len() as int);
    let b = steepest(g, order, p, hs);
    assert forall|j: int| #[trigger] is_steepest_index(g, order, p, hs, j) implies j == b by {
        if neighbor_grade(g, order, p, hs, 0) is Level {
            let gb = neighbor_grade(g, order, p, hs, b);
            let gj = neighbor_grade(g, order, p, hs, j);
            if j < b {
                assert(gj->Level_0 < gb->Level_0);
                assert(gb->Level_0 <= gj->Level_0);
            } else if b < j {
                assert(gb->Level_0 < gj->Level_0);
                assert(gj->Level_0 <= gb->Level_0);
            }
        }
    }
}

/// There is an owning cell, and only one.
pub proof fn lemma_owning_cell(labels: Seq<usize>, hs: Seq<usize>)
    requires
        hs.len() > 0,
    ensures
        is_owning_cell(labels, hs, owning_cell(labels, hs)),
        forall|c: usize| #[trigger] is_owning_cell(labels, hs, c) ==> c == owning_cell(labels, hs),
    decreases hs.len(),
{
    let w = lemma_owning_cell_witness(labels, hs);
    assert(is_owning_cell(labels, hs, w));
    let c = owning_cell(labels, hs);
    assert forall|c2: usize| #[trigger] is_owning_cell(labels, hs, c2) implies c2 == c by {
        let j1 = choose|j: int| 0 <= j < hs.len() && labels[(#[trigger] hs[j]) as int] == c;
        let j2 = choose|j: int| 0 <= j < hs.len() && labels[(#[trigger] hs[j]) as int] == c2;
        assert(c <= labels[hs[j2] as int]);
        assert(c2 <= labels[hs[j1] as int]);
    }
}

proof fn lemma_owning_cell_witness(labels: Seq<usize>, hs: Seq<usize>) -> (w: usize)
    requires
        hs.len() > 0,
    ensures
        is_owning_cell(labels, hs, w),
    decreases hs.len(),
{
    let last = hs.len() - 1;
    let l = labels[hs[last] as int];
    if hs.len() == 1 {
        assert(labels[hs[0] as int] == l);
        l
    } else {
        let prev = hs.drop_last();
        let c0 = lemma_owning_cell_witness(labels, prev);
        let w = if l < c0 { l } else { c0 };
        assert forall|j: int| 0 <= j < hs.len() implies w <= labels[(#[trigger] hs[j]) as int] by {
            if j < last {
                assert(prev[j] == hs[j]);
            }
        }
        if w == c0 {
            let j = choose|j: int| 0 <= j < prev.len() && labels[(#[trigger] prev[j]) as int] == c0;
            assert(hs[j] == prev[j]);
        } else {
            assert(labels[hs[last] as int] == w);
        }
        w
    }
}


proof fn lemma_step_extremum(g: GraphModel, kind: MorseKind, order: Seq<usize>, s: MorseState, p: int)
    requires
        g.well_formed(),
        is_stable_order(g.values, is_descending(kind), order),
        0 <= p < g.num_nodes(),
        state_invariant(g, kind, order, s, p),
        higher(g, kind, order, p).len() == 0,
    ensures
        state_invariant(g, kind, order, step(g, kind, order, s, p), p + 1),
{
    let n = g.num_nodes() as int;
    lemma_order_facts(g.values, is_descending(kind), order);
    let t = step(g, kind, order, s, p);
    assert(order[p] < n);
    assert(position_of(order, order[p] as int) == p);
    assert(s.labels[p] == p);
    assert forall|e: int| 0 <= e < p + 1 implies #[trigger] t.labels[e] <= e && is_extremum(g, kind, order, t.labels[e] as int) by {
        if e == p {
            assert(t.labels[e] == p);
        }
    }
    assert forall|q: int| 0 <= q < p + 1 implies point_facts(g, kind, order, #[trigger] t.data[q]->Some_0, q) by {
        if q < p {
            assert(t.data[q] == s.data[q]);
        }
    }
    assert forall|q: int| 0 <= q < n implies (#[trigger] t.data[q] is Some <==> q < p + 1) by {
        if q != p {
            assert(t.data[q] == s.data[q]);
        }
    }
}

/// The facts about the cells that a merge at position `p` involves.
pub proof fn lemma_cells(g: GraphModel, kind: MorseKind, order: Seq<usize>, s: MorseState, p: int)
    requires
        g.well_formed(),
        is_stable_order(g.values, is_descending(kind), order),
        0 <= p < g.num_nodes(),
        state_invariant(g, kind, order, s, p),
        higher(g, kind, order, p).len() > 0,
    ensures
        ({
            let hs = higher(g, kind, order, p);
            let c = owning_cell(s.labels, hs);
            &&& in_cells(s.labels, hs, c)
            &&& forall|l: usize| #[trigger] in_cells(s.labels, hs, l) ==> c <= l && l < p && s.labels[l as int] == l
                && is_extremum(g, kind, order, l as int)
            &&& 0 <= ancestor_source(g, kind, order, s, p) < p
            &&& forall|j: int| 0 <= j < hs.len() ==> #[trigger] hs[j] < p
        }),
{
    let u = order[p] as int;
    lemma_order_facts(g.values, is_descending(kind), order);
    assert(order[p] < g.num_nodes());
    lemma_higher_prefix(g, kind, order, p, g.neighbors[u].len() as int);
    let hs = higher(g, kind, order, p);
    lemma_owning_cell(s.labels, hs);
    let c = owning_cell(s.labels, hs);
    lemma_steepest_prefix(g, order, p, hs, hs.len() as int);
    let src = ancestor_source(g, kind, order, s, p);
    assert(0 <= src < p) by {
        if !same_cell(s.labels, hs) {
            let b = steepest(g, order, p, hs);
            assert(hs[b] < p);
        } else {
            assert(hs[0] < p);
        }
    }
    assert forall|l: usize| #[trigger] in_cells(s.labels, hs, l) implies c <= l && l < p && s.labels[l as int] == l
        && is_extremum(g, kind, order, l as int) by {
        let j = choose|j: int| 0 <= j < hs.len() && s.labels[(#[trigger] hs[j]) as int] == l;
        let h = hs[j] as int;
        assert(h < p);
        assert(s.labels[h] <= h);
        assert(s.labels[s.labels[h] as int] == s.labels[h]);
    }
}

proof fn lemma_step_merge_labels(g: GraphModel, kind: MorseKind, order: Seq<usize>, s: MorseState, p: int)
    requires
        g.well_formed(),
        is_stable_order(g.values, is_descending(kind), order),
        0 <= p < g.num_nodes(),
        state_invariant(g, kind, order, s, p),
        higher(g, kind, order, p).len() > 0,
    ensures
        labels_invariant(g, kind, order, step(g, kind, order, s, p).labels, p + 1),
{
    let n = g.num_nodes() as int;
    lemma_cells(g, kind, order, s, p);
    let hs = higher(g, kind, order, p);
    let c = owning_cell(s.labels, hs);
    let t = step(g, kind, order, s, p);
    assert forall|e: int| 0 <= e < p + 1 implies #[trigger] t.labels[e] <= e && is_extremum(g, kind, order, t.labels[e] as int) by {
        if e < p && in_cells(s.labels, hs, s.labels[e]) {
            assert(c <= s.labels[e]);
        }
    }
    assert forall|e: int| p + 1 <= e < n implies #[trigger] t.labels[e] == e by {
        assert(s.labels[e] == e);
        if in_cells(s.labels, hs, s.labels[e]) {
            assert(s.labels[e] < p);
        }
    }
    assert forall|e: int| 0 <= e < n implies #[trigger] t.labels[t.labels[e] as int] == t.labels[e] by {
        let l = s.labels[e];
        if e == p || in_cells(s.labels, hs, l) {
            assert(t.labels[e] == c);
            assert(t.labels[c as int] == c);
        } else {
            if e < p {
                assert(l <= e);
            } else {
                assert(l == e);
            }
            assert(l != p);
            assert(s.labels[l as int] == l);
            assert(!in_cells(s.labels, hs, s.labels[l as int]));
            assert(t.labels[l as int] == l);
        }
    }
}

#[verifier::spinoff_prover]
#[verifier::rlimit(40)]
proof fn lemma_step_merge_point(g: GraphModel, kind: MorseKind, order: Seq<usize>, s: MorseState, p: int, q: int)
    requires
        g.well_formed(),
        is_stable_order(g.values, is_descending(kind), order),
        0 <= p < g.num_nodes(),
        state_invariant(g, kind, order, s, p),
        higher(g, kind, order, p).len() > 0,
        0 <= q < p + 1,
    ensures
        point_facts(g, kind, order, step(g, kind, order, s, p).data[q]->Some_0, q),
{
    let n = g.num_nodes() as int;
    lemma_order_facts(g.values, is_descending(kind), order);
    lemma_cells(g, kind, order, s, p);
    let hs = higher(g, kind, order, p);
    let c = owning_cell(s.labels, hs);
    let src = ancestor_source(g, kind, order, s, p);
    let t = step(g, kind, order, s, p);
    assert(order[p] < n);
    assert(position_of(order, order[p] as int) == p);
    if q == p {
        assert(point_facts(g, kind, order, s.data[src]->Some_0, src));
    } else if q != c && in_cells(s.labels, hs, q as usize) {
        assert(point_facts(g, kind, order, s.data[q]->Some_0, q));
        assert(c <= q);
        assert(order[c as int] < n);
        assert(position_of(order, order[c as int] as int) == c);
    } else {
        assert(t.data[q] == s.data[q]);
    }
}

proof fn lemma_step_merge_data(g: GraphModel, kind: MorseKind, order: Seq<usize>, s: MorseState, p: int)
    requires
        g.well_formed(),
        is_stable_order(g.values, is_descending(kind), order),
        0 <= p < g.num_nodes(),
        state_invariant(g, kind, order, s, p),
        higher(g, kind, order, p).len() > 0,
    ensures
        data_invariant(g, kind, order, step(g, kind, order, s, p).data, p + 1),
{
    let n = g.num_nodes() as int;
    lemma_cells(g, kind, order, s, p);
    let hs = higher(g, kind, order, p);
    let t = step(g, kind, order, s, p);
    assert forall|q: int| 0 <= q < n implies (#[trigger] t.data[q] is Some <==> q < p + 1) by {
        if q > p {
            if in_cells(s.labels, hs, q as usize) {
                assert(q < p);
            }
            assert(t.data[q] == s.data[q]);
        }
    }
    assert forall|q: int| 0 <= q < p + 1 implies point_facts(g, kind, order, #[trigger] t.data[q]->Some_0, q) by {
        lemma_step_merge_point(g, kind, order, s, p, q);
    }
}

/// The arrival of a point keeps the state invariant.
pub proof fn lemma_step(g: GraphModel, kind: MorseKind, order: Seq<usize>, s: MorseState, p: int)
    requires
        g.well_formed(),
        is_stable_order(g.values, is_descending(kind), order),
        0 <= p < g.num_nodes(),
        state_invariant(g, kind, order, s, p),
    ensures
        state_invariant(g, kind, order, step(g, kind, order, s, p), p + 1),
{
    if higher(g, kind, order, p).len() == 0 {
        lemma_step_extremum(g, kind, order, s, p);
    } else {
        lemma_step_merge_labels(g, kind, order, s, p);
        lemma_step_merge_data(g, kind, order, s, p);
    }
}

/// The positions of the neighbours before the point at `p` lie before it and
/// hold neighbours of it.
pub proof fn lemma_higher(g: GraphModel, kind: MorseKind, order: Seq<usize>, p: int)
    requires
        g.well_formed(),
        is_stable_order(g.values, is_descending(kind), order),
        0 <= p < g.num_nodes(),
    ensures
        forall|j: int| 0 <= j < higher(g, kind, order, p).len() ==> #[trigger] higher(g, kind, order, p)[j] < p
            && g.neighbors[order[p] as int].contains(order[higher(g, kind, order, p)[j] as int]),
{
    assert(order[p] < g.num_nodes());
    lemma_higher_prefix(g, kind, order, p, g.neighbors[order[p] as int].len() as int);
}

/// The arrival of an extremum changes no label, and records it as its own
/// ancestor.
pub proof fn lemma_extremum_arrival(g: GraphModel, kind: MorseKind, order: Seq<usize>, p: int)
    requires
        g.well_formed(),
        is_stable_order(g.values, is_descending(kind), order),
        0 <= p < g.num_nodes(),
        higher(g, kind, order, p).len() == 0,
    ensures
        ({
            let s = state_after(g, kind, order, p);
            let t = step(g, kind, order, s, p);
            &&& t.labels == s.labels
            &&& t.data.update(p, None) == s.data
            &&& t.data[p]->Some_0.ancestor == order[p]
        }),
{
    lemma_state_after(g, kind, order, p);
    let s = state_after(g, kind, order, p);
    let t = step(g, kind, order, s, p);
    assert(s.data[p] is None);
    assert(t.data.update(p, None) =~= s.data);
}

/// The arrival of a point whose neighbours before it all lie in one cell is a
/// union of that cell with the point's, under the cell's label, and the point
/// inherits the ancestor of the first of those neighbours.
pub proof fn lemma_join_arrival(g: GraphModel, kind: MorseKind, order: Seq<usize>, p: int)
    requires
        g.well_formed(),
        is_stable_order(g.values, is_descending(kind), order),
        0 <= p < g.num_nodes(),
        higher(g, kind, order, p).len() > 0,
        same_cell(state_after(g, kind, order, p).labels, higher(g, kind, order, p)),
    ensures
        ({
            let hs = higher(g, kind, order, p);
            let s = state_after(g, kind, order, p);
            let t = step(g, kind, order, s, p);
            &&& hs[0] < p
            &&& t.labels == union_labels(s.labels, hs[0] as int, p)
            &&& t.data.update(p, None) == s.data
            &&& s.data[hs[0] as int] is Some
            &&& t.data[p]->Some_0.ancestor == s.data[hs[0] as int]->Some_0.ancestor
        }),
{
    lemma_state_after(g, kind, order, p);
    let hs = higher(g, kind, order, p);
    let s = state_after(g, kind, order, p);
    let t = step(g, kind, order, s, p);
    let n = g.num_nodes() as int;
    lemma_cells(g, kind, order, s, p);
    lemma_owning_cell(s.labels, hs);
    let l0 = s.labels[hs[0] as int];
    assert(is_owning_cell(s.labels, hs, l0));
    assert forall|l: usize| #[trigger] in_cells(s.labels, hs, l) implies l == l0 by {
        let j = choose|j: int| 0 <= j < hs.len() && s.labels[(#[trigger] hs[j]) as int] == l;
    }
    assert(s.labels[p] == p);
    assert forall|e: int| 0 <= e < n implies #[trigger] t.labels[e] == union_labels(s.labels, hs[0] as int, p)[e] by {
        if e < p {
            assert(s.labels[e] <= e);
        } else if e > p {
            assert(s.labels[e] == e);
        }
        if s.labels[e] == l0 {
            assert(in_cells(s.labels, hs, s.labels[e]));
        }
    }
    assert(t.labels =~= union_labels(s.labels, hs[0] as int, p));
    assert(t.data.update(p, None) =~= s.data);
}

/// The arrival of a point whose neighbours before it lie in several cells:
/// what the merge of those cells needs of them.
pub proof fn lemma_merge_arrival(g: GraphModel, kind: MorseKind, order: Seq<usize>, p: int)
    requires
        g.well_formed(),
        is_stable_order(g.values, is_descending(kind), order),
        0 <= p < g.num_nodes(),
        higher(g, kind, order, p).len() > 0,
        !same_cell(state_after(g, kind, order, p).labels, higher(g, kind, order, p)),
    ensures
        ({
            let hs = higher(g, kind, order, p);
            let s = state_after(g, kind, order, p);
            let t = step(g, kind, order, s, p);
            let src = hs[steepest(g, order, p, hs)] as int;
            &&& 0 <= steepest(g, order, p, hs) < hs.len()
            &&& 0 <= src < p
            &&& t.data[src] is Some
            &&& t.data[p]->Some_0.ancestor == t.data[src]->Some_0.ancestor
            &&& forall|j: int| 0 <= j < hs.len() ==> #[trigger] hs[j] < p
                && g.neighbors[order[p] as int].contains(order[hs[j] as int])
        }),
{
    lemma_higher(g, kind, order, p);
    let hs = higher(g, kind, order, p);
    let s = state_after(g, kind, order, p);
    let t = step(g, kind, order, s, p);
    lemma_steepest_prefix(g, order, p, hs, hs.len() as int);
    let src = hs[steepest(g, order, p, hs)] as int;
    assert(src < p);
    lemma_state_after(g, kind, order, p);
    assert(s.data[src] is Some);
    assert(t.data[src] is Some);
}

/// The distinct cells of the positions `hs` number one exactly when they all
/// lie in one cell.
pub proof fn lemma_cell_count(labels: Seq<usize>, hs: Seq<usize>, cells: Seq<usize>)
    requires
        hs.len() > 0,
        forall|a: int| 0 <= a < cells.len() ==> #[trigger] in_cells(labels, hs, cells[a]),
        forall|l: usize| #[trigger] in_cells(labels, hs, l) ==> cells.contains(l),
        forall|a: int, b: int| 0 <= a < b < cells.len() ==> #[trigger] cells[a] != #[trigger] cells[b],
    ensures
        cells.len() > 0,
        cells.len() == 1 <==> same_cell(labels, hs),
{
    assert(in_cells(labels, hs, labels[hs[0] as int]));
    assert(cells.contains(labels[hs[0] as int]));
    if cells.len() == 1 {
        assert forall|j: int| 0 <= j < hs.len() implies labels[(#[trigger] hs[j]) as int] == labels[hs[0] as int] by {
            assert(in_cells(labels, hs, labels[hs[j] as int]));
            assert(cells.contains(labels[hs[j] as int]));
        }
    } else {
        let a = cells[0];
        let b = cells[1];
        assert(in_cells(labels, hs, a));
        assert(in_cells(labels, hs, b));
        let ja = choose|j: int| 0 <= j < hs.len() && labels[(#[trigger] hs[j]) as int] == a;
        let jb = choose|j: int| 0 <= j < hs.len() && labels[(#[trigger] hs[j]) as int] == b;
        if same_cell(labels, hs) {
            assert(labels[hs[ja] as int] == labels[hs[0] as int]);
            assert(labels[hs[jb] as int] == labels[hs[0] as int]);
        }
    }
}

/// The smallest of the distinct cells of the positions `hs` is their owning
/// cell.
pub proof fn lemma_smallest_cell_owns(labels: Seq<usize>, hs: Seq<usize>, cells: Seq<usize>, c: usize)
    requires
        hs.len() > 0,
        forall|a: int| 0 <= a < cells.len() ==> #[trigger] in_cells(labels, hs, cells[a]),
        forall|l: usize| #[trigger] in_cells(labels, hs, l) ==> cells.contains(l),
        cells.contains(c),
        forall|a: int| 0 <= a < cells.len() ==> c <= #[trigger] cells[a],
    ensures
        c == owning_cell(labels, hs),
{
    let w = choose|a: int| 0 <= a < cells.len() && cells[a] == c;
    assert(in_cells(labels, hs, cells[w]));
    assert forall|j: int| 0 <= j < hs.len() implies c <= labels[(#[trigger] hs[j]) as int] by {
        assert(in_cells(labels, hs, labels[hs[j] as int]));
        assert(cells.contains(labels[hs[j] as int]));
    }
    assert(is_owning_cell(labels, hs, c));
    lemma_owning_cell(labels, hs);
}

/// The distinct cell labels of the first `k` positions `hs`, in order of
/// first appearance.
pub open spec fn distinct_labels(labels: Seq<usize>, hs: Seq<usize>, k: int) -> Seq<usize>
    decreases k,
{
    if k <= 0 {
        Seq::empty()
    } else {
        let prev = distinct_labels(labels, hs, k - 1);
        let l = labels[hs[k - 1] as int];
        if prev.contains(l) {
            prev
        } else {
            prev.push(l)
        }
    }
}

/// The distinct labels list each label of the positions once.
pub proof fn lemma_distinct_labels(labels: Seq<usize>, hs: Seq<usize>, k: int)
    requires
        0 <= k <= hs.len(),
    ensures
        forall|a: int, b: int|
            0 <= a < b < distinct_labels(labels, hs, k).len() ==> #[trigger] distinct_labels(labels, hs, k)[a]
                != #[trigger] distinct_labels(labels, hs, k)[b],
        forall|l: usize| #[trigger] distinct_labels(labels, hs, k).contains(l) <==> exists|j: int|
            0 <= j < k && labels[(#[trigger] hs[j]) as int] == l,
    decreases k,
{
    if k > 0 {
        lemma_distinct_labels(labels, hs, k - 1);
        let prev = distinct_labels(labels, hs, k - 1);
        let cur = distinct_labels(labels, hs, k);
        let l = labels[hs[k - 1] as int];
        assert forall|x: usize| #[trigger] cur.contains(x) <==> exists|j: int| 0 <= j < k && labels[(#[trigger] hs[j]) as int] == x by {
            if cur.contains(x) {
                let a = choose|a: int| 0 <= a < cur.len() && cur[a] == x;
                if a < prev.len() {
                    assert(cur[a] == prev[a]);
                    assert(prev.contains(x));
                } else {
                    assert(labels[hs[k - 1] as int] == x);
                }
            }
            if exists|j: int| 0 <= j < k && labels[(#[trigger] hs[j]) as int] == x {
                let j = choose|j: int| 0 <= j < k && labels[(#[trigger] hs[j]) as int] == x;
                if j < k - 1 {
                    assert(prev.contains(x));
                    let a = choose|a: int| 0 <= a < prev.len() && prev[a] == x;
                    assert(cur[a] == x);
                } else if prev.contains(x) {
                    let a = choose|a: int| 0 <= a < prev.len() && prev[a] == x;
                    assert(cur[a] == x);
                } else {
                    assert(cur[cur.len() - 1] == x);
                }
            }
        }
        assert forall|a: int, b: int| 0 <= a < b < cur.len() implies #[trigger] cur[a] != #[trigger] cur[b] by {
            if b == prev.len() && !prev.contains(l) {
                assert(cur[a] == prev[a]);
            } else {
                assert(cur[a] == prev[a] && cur[b] == prev[b]);
            }
        }
    }
}

/// Where a merge into cell `c` of the cells `cells` stops: the position from
/// `k` on of the first cell other than `c` without a record, or the end.
pub open spec fn merge_stop(data: Seq<Option<MorseData>>, cells: Seq<usize>, c: usize, k: int) -> int
    decreases cells.len() - k,
{
    if k >= cells.len() || (cells[k] != c && data[cells[k] as int] is None) {
        k
    } else {
        merge_stop(data, cells, c, k + 1)
    }
}

/// A merge stops within the cells.
pub proof fn lemma_merge_stop_range(data: Seq<Option<MorseData>>, cells: Seq<usize>, c: usize, k: int)
    requires
        0 <= k <= cells.len(),
    ensures
        k <= merge_stop(data, cells, c, k) <= cells.len(),
    decreases cells.len() - k,
{
    if k < cells.len() {
        lemma_merge_stop_range(data, cells, c, k + 1);
    }
}

/// The labels once the class of the point at `p` and the cells `done` have
/// been merged into the cell `c`.
pub open spec fn merged_labels(labels: Seq<usize>, p: int, c: int, done: Seq<usize>) -> Seq<usize> {
    Seq::new(
        labels.len(),
        |e: int|
            if labels[e] == c || labels[e] == labels[p] || done.contains(labels[e]) {
                c as usize
            } else {
                labels[e]
            },
    )
}

/// The records once the extrema of the cells `done`, other than `c`, have
/// been merged into the cell `c` by the arrival of the point at `p`: each
/// records its span to that point and `c`'s node as its merge parent.
pub open spec fn merged_data(data: Seq<Option<MorseData>>, order: Seq<usize>, p: int, c: int, done: Seq<usize>) -> Seq<Option<MorseData>> {
    Seq::new(
        data.len(),
        |q: int|
            if q != c && done.contains(q as usize) {
                Some(
                    MorseData {
                        lifetime: Persistence::Span(order[q], order[p]),
                        merge_parent: Some(order[c]),
                        ancestor: data[q]->Some_0.ancestor,
                    },
                )
            } else {
                data[q]
            },
    )
}

/// Along the order, a merge of cells at a point whose neighbours lie in
/// several cells goes through every cell and is the arrival of that point.
pub proof fn lemma_merge_is_arrival(g: GraphModel, kind: MorseKind, order: Seq<usize>, p: int)
    requires
        g.well_formed(),
        is_stable_order(g.values, is_descending(kind), order),
        0 <= p < g.num_nodes(),
        higher(g, kind, order, p).len() > 0,
        !same_cell(state_after(g, kind, order, p).labels, higher(g, kind, order, p)),
    ensures
        ({
            let hs = higher(g, kind, order, p);
            let s = state_after(g, kind, order, p);
            let t = step(g, kind, order, s, p);
            let cells = distinct_labels(s.labels, hs, hs.len() as int);
            let c = owning_cell(s.labels, hs);
            let d = merged_data(s.data, order, p, c as int, cells);
            let src = hs[steepest(g, order, p, hs)] as int;
            &&& merge_stop(s.data, cells, c, 0) == cells.len()
            &&& cells.subrange(0, cells.len() as int) == cells
            &&& merged_labels(s.labels, p, c as int, cells) == t.labels
            &&& d == t.data.update(p, None)
            &&& d[src] is Some
            &&& d[src]->Some_0.ancestor == t.data[p]->Some_0.ancestor
        }),
{
    let n = g.num_nodes() as int;
    let hs = higher(g, kind, order, p);
    let s = state_after(g, kind, order, p);
    let t = step(g, kind, order, s, p);
    let cells = distinct_labels(s.labels, hs, hs.len() as int);
    let c = owning_cell(s.labels, hs);
    lemma_state_after(g, kind, order, p);
    lemma_cells(g, kind, order, s, p);
    lemma_merge_arrival(g, kind, order, p);
    lemma_distinct_labels(s.labels, hs, hs.len() as int);
    assert forall|l: usize| #[trigger] cells.contains(l) <==> in_cells(s.labels, hs, l) by {
        if cells.contains(l) {
            let j = choose|j: int| 0 <= j < hs.len() && s.labels[(#[trigger] hs[j]) as int] == l;
        }
    }
    assert(cells.subrange(0, cells.len() as int) =~= cells);
    assert forall|a: int| 0 <= a < cells.len() implies #[trigger] cells[a] < p by {
        assert(cells.contains(cells[a]));
    }
    assert forall|k: int| 0 <= k <= cells.len() implies #[trigger] merge_stop(s.data, cells, c, k) == cells.len() by {
        lemma_merge_stop_end(s.data, cells, c, k, p);
    }
    assert(s.labels[p] == p);
    assert forall|e: int| 0 <= e < n implies #[trigger] merged_labels(s.labels, p, c as int, cells)[e] == t.labels[e] by {
        if s.labels[e] == p {
            if e < p {
                assert(s.labels[e] <= e);
            }
            if e > p {
                assert(s.labels[e] == e);
            }
        }
        if s.labels[e] == c {
            assert(in_cells(s.labels, hs, c));
        }
    }
    assert(merged_labels(s.labels, p, c as int, cells) =~= t.labels);
    assert(merged_data(s.data, order, p, c as int, cells) =~= t.data.update(p, None)) by {
        assert forall|q: int| 0 <= q < n implies #[trigger] merged_data(s.data, order, p, c as int, cells)[q] == t.data.update(p, None)[q] by {
            if q == p {
                assert(!in_cells(s.labels, hs, p as usize));
                assert(s.data[p] is None);
            }
        }
    }
}

proof fn lemma_merge_stop_end(data: Seq<Option<MorseData>>, cells: Seq<usize>, c: usize, k: int, p: int)
    requires
        0 <= k <= cells.len(),
        forall|a: int| 0 <= a < cells.len() ==> #[trigger] cells[a] < p,
        forall|q: int| 0 <= q < p ==> (#[trigger] data[q]) is Some,
    ensures
        merge_stop(data, cells, c, k) == cells.len(),
    decreases cells.len() - k,
{
    if k < cells.len() {
        assert(data[cells[k] as int] is Some);
        lemma_merge_stop_end(data, cells, c, k + 1, p);
    }
}

/// The state invariant holds after every prefix of the order.
pub proof fn lemma_state_after(g: GraphModel, kind: MorseKind, order: Seq<usize>, k: int)
    requires
        g.well_formed(),
        is_stable_order(g.values, is_descending(kind), order),
        0 <= k <= g.num_nodes(),
    ensures
        state_invariant(g, kind, order, state_after(g, kind, order, k), k),
    decreases k,
{
    if k == 0 {
        let s = initial_state(g.num_nodes());
        assert(state_invariant(g, kind, order, s, 0));
    } else {
        lemma_state_after(g, kind, order, k - 1);
        lemma_step(g, kind, order, state_after(g, kind, order, k - 1), k - 1);
    }
}

/// Once the point at position `x` has arrived, later arrivals leave its
/// ancestor as it is.
pub proof fn lemma_ancestor_kept(g: GraphModel, kind: MorseKind, order: Seq<usize>, x: int, k: int, m: int)
    requires
        g.well_formed(),
        is_stable_order(g.values, is_descending(kind), order),
        0 <= x < k <= m <= g.num_nodes(),
    ensures
        state_after(g, kind, order, m).data[x]->Some_0.ancestor == state_after(g, kind, order, k).data[x]->Some_0.ancestor,
    decreases m,
{
    if m > k {
        lemma_ancestor_kept(g, kind, order, x, k, m - 1);
        let s = state_after(g, kind, order, m - 1);
        lemma_state_after(g, kind, order, m - 1);
        let t = state_after(g, kind, order, m);
        assert(t == step(g, kind, order, s, m - 1));
        if higher(g, kind, order, m - 1).len() == 0 {
            assert(t.data[x] == s.data[x]);
        }
    }
}

/// Where each of the first `k` points has its record, the persistence and the
/// ancestor entries list them one by one, in order of position.
pub proof fn lemma_complete_prefixes(order: Seq<usize>, data: Seq<Option<MorseData>>, k: int)
    requires
        0 <= k,
        forall|q: int| 0 <= q < k ==> (#[trigger] data[q]) is Some,
    ensures
        persistence_prefix(order, data, k).len() == k,
        complex_prefix(order, data, k).len() == k,
        forall|q: int| 0 <= q < k ==> #[trigger] persistence_prefix(order, data, k)[q] == (order[q], data[q]->Some_0.lifetime),
        forall|q: int| 0 <= q < k ==> #[trigger] complex_prefix(order, data, k)[q] == (order[q], data[q]->Some_0.ancestor),
    decreases k,
{
    if k > 0 {
        lemma_complete_prefixes(order, data, k - 1);
        assert(data[k - 1] is Some);
        let p0 = persistence_prefix(order, data, k - 1);
        let p1 = persistence_prefix(order, data, k);
        assert forall|q: int| 0 <= q < k implies #[trigger] p1[q] == (order[q], data[q]->Some_0.lifetime) by {
            if q < k - 1 {
                assert(p1[q] == p0[q]);
            }
        }
        let c0 = complex_prefix(order, data, k - 1);
        let c1 = complex_prefix(order, data, k);
        assert forall|q: int| 0 <= q < k implies #[trigger] c1[q] == (order[q], data[q]->Some_0.ancestor) by {
            if q < k - 1 {
                assert(c1[q] == c0[q]);
            }
        }
    }
}

/// Among the first `k` neighbour entries of the point at position `p`, the
/// positions in `higher_prefix` are those of the entries taken before it.
pub proof fn lemma_higher_prefix_members(g: GraphModel, kind: MorseKind, order: Seq<usize>, p: int, k: int)
    requires
        g.well_formed(),
        is_stable_order(g.values, is_descending(kind), order),
        0 <= p < order.len(),
        0 <= k <= g.neighbors[order[p] as int].len(),
    ensures
        forall|x: int|
            #![trigger higher_prefix(g, kind, order, p, k).contains(x as usize)]
            0 <= x < order.len() ==> (higher_prefix(g, kind, order, p, k).contains(x as usize) <==> x < p && exists|i: int|
                0 <= i < k && #[trigger] g.neighbors[order[p] as int][i] == order[x]),
    decreases k,
{
    lemma_order_facts(g.values, is_descending(kind), order);
    if k > 0 {
        lemma_higher_prefix_members(g, kind, order, p, k - 1);
        lemma_order_sorted(g, kind, order);
        let u = order[p] as int;
        assert(u < g.num_nodes());
        let v = g.neighbors[u][k - 1];
        assert(v < g.num_nodes());
        let q = position_of(order, v as int);
        let prev = higher_prefix(g, kind, order, p, k - 1);
        let cur = higher_prefix(g, kind, order, p, k);
        assert forall|x: int| #![trigger cur.contains(x as usize)] 0 <= x < order.len() implies (cur.contains(x as usize) <==> x < p && exists|i: int|
            0 <= i < k && #[trigger] g.neighbors[order[p] as int][i] == order[x]) by {
            if x < p && exists|i: int| 0 <= i < k && #[trigger] g.neighbors[order[p] as int][i] == order[x] {
                let i = choose|i: int| 0 <= i < k && #[trigger] g.neighbors[order[p] as int][i] == order[x];
                if i < k - 1 {
                    assert(prev.contains(x as usize));
                    let w = choose|w: int| 0 <= w < prev.len() && prev[w] == x as usize;
                    if cur != prev {
                        assert(cur[w] == prev[w]);
                    }
                    assert(cur.contains(x as usize));
                } else {
                    assert(q == x);
                    assert(at_least_as_extreme(kind, g.values[order[x] as int], g.values[order[p] as int]));
                    assert(cur[cur.len() - 1] == x as usize);
                }
            }
            if cur.contains(x as usize) {
                let w = choose|w: int| 0 <= w < cur.len() && cur[w] == x as usize;
                if w < prev.len() {
                    assert(cur[w] == prev[w]);
                    assert(prev.contains(x as usize));
                } else {
                    assert(x == q);
                    assert(g.neighbors[order[p] as int][k - 1] == order[x]);
                }
            }
        }
    }
}

/// The filtration steps among the first `k` positions are those of the points
/// with a merge parent, in order of position: each step is the persistence of
/// such a point, the point itself and its merge parent.
pub proof fn lemma_filtration_entries(order: Seq<usize>, data: Seq<Option<MorseData>>, k: int)
    requires
        0 <= k,
    ensures
        forall|j: int|
            #![trigger filtration_prefix(order, data, k)[j]]
            0 <= j < filtration_prefix(order, data, k).len() ==> exists|q: int|
                #![trigger data[q]]
                0 <= q < k && data[q] is Some && data[q]->Some_0.merge_parent is Some
                    && filtration_prefix(order, data, k)[j] == (MorseFiltrationStep {
                    time: data[q]->Some_0.lifetime,
                    destroyed_cell: order[q],
                    owning_cell: data[q]->Some_0.merge_parent->Some_0,
                }),
        forall|q: int|
            0 <= q < k && (#[trigger] data[q]) is Some && data[q]->Some_0.merge_parent is Some ==> filtration_prefix(order, data, k).contains(
                MorseFiltrationStep {
                    time: data[q]->Some_0.lifetime,
                    destroyed_cell: order[q],
                    owning_cell: data[q]->Some_0.merge_parent->Some_0,
                },
            ),
    decreases k,
{
    if k > 0 {
        lemma_filtration_entries(order, data, k - 1);
        let prev = filtration_prefix(order, data, k - 1);
        let cur = filtration_prefix(order, data, k);
        assert forall|j: int| #![trigger cur[j]] 0 <= j < cur.len() implies exists|q: int|
            #![trigger data[q]]
            0 <= q < k && data[q] is Some && data[q]->Some_0.merge_parent is Some && cur[j] == (MorseFiltrationStep {
                time: data[q]->Some_0.lifetime,
                destroyed_cell: order[q],
                owning_cell: data[q]->Some_0.merge_parent->Some_0,
            }) by {
            if j < prev.len() {
                assert(cur[j] == prev[j]);
            } else {
                assert(data[k - 1] is Some);
            }
        }
        assert forall|q: int|
            0 <= q < k && (#[trigger] data[q]) is Some && data[q]->Some_0.merge_parent is Some implies cur.contains(
            MorseFiltrationStep {
                time: data[q]->Some_0.lifetime,
                destroyed_cell: order[q],
                owning_cell: data[q]->Some_0.merge_parent->Some_0,
            },
        ) by {
            let st = MorseFiltrationStep {
                time: data[q]->Some_0.lifetime,
                destroyed_cell: order[q],
                owning_cell: data[q]->Some_0.merge_parent->Some_0,
            };
            if q < k - 1 {
                let w = choose|w: int| 0 <= w < prev.len() && prev[w] == st;
                assert(cur[w] == prev[w]);
            } else {
                assert(cur[cur.len() - 1] == st);
            }
        }
    }
}

} // verus!
