//! What holds of every Morse complex.

use crate::model::{
    at_least_as_extreme, higher, higher_prefix, is_descending, is_extremum, lemma_higher, lemma_order_facts,
    lemma_order_sorted, lemma_state_after, morse_state, point_facts, point_order, position_of, state_after, step,
    steepest, steepest_prefix, GraphModel, MorseState, is_steepest_index, lemma_ancestor_kept, lemma_steepest_is_steepest,
    same_cell, complex_prefix, persistence_prefix, lemma_complete_prefixes, filtration_prefix,
};
use crate::morse::{MorseComplex, MorseComplexData, MorseData, MorseFiltrationStep, MorseKind, Persistence};
use crate::ordering::{is_stable_order, lemma_stable_order_exists, lemma_stable_order_unique, precedes, stable_order};
use vstd::prelude::*;

verus! {

/// The points are taken in a stable order of their values: every node once,
/// from the most extreme value to the least, nodes of equal value by index.
pub proof fn lemma_points_in_value_order(g: GraphModel, kind: MorseKind)
    requires
        g.well_formed(),
    ensures
        is_stable_order(g.values, is_descending(kind), point_order(g, kind)),
        forall|a: int, b: int|
            0 <= a < b < g.num_nodes() ==> at_least_as_extreme(
                kind,
                g.values[#[trigger] point_order(g, kind)[a] as int],
                g.values[#[trigger] point_order(g, kind)[b] as int],
            ),
{
    lemma_stable_order_exists(g.values, is_descending(kind));
    lemma_order_sorted(g, kind, point_order(g, kind));
}

proof fn lemma_complete(g: GraphModel, kind: MorseKind)
    requires
        g.well_formed(),
    ensures
        is_stable_order(g.values, is_descending(kind), point_order(g, kind)),
        crate::model::state_invariant(g, kind, point_order(g, kind), morse_state(g, kind), g.num_nodes() as int),
{
    lemma_points_in_value_order(g, kind);
    lemma_state_after(g, kind, point_order(g, kind), g.num_nodes() as int);
}

/// Every point gets a record, and its persistence is zero exactly when it is
/// not an extremum: when a neighbour taken before it is at least as extreme.
pub proof fn lemma_zero_persistence_iff_not_extremum(g: GraphModel, kind: MorseKind)
    requires
        g.well_formed(),
    ensures
        forall|q: int|
            0 <= q < g.num_nodes() ==> (#[trigger] morse_state(g, kind).data[q]) is Some
                && (morse_state(g, kind).data[q]->Some_0.lifetime is Zero <==> !is_extremum(g, kind, point_order(g, kind), q)),
{
    lemma_complete(g, kind);
    let s = morse_state(g, kind);
    assert forall|q: int| 0 <= q < g.num_nodes() implies (#[trigger] s.data[q]) is Some
        && (s.data[q]->Some_0.lifetime is Zero <==> !is_extremum(g, kind, point_order(g, kind), q)) by {
        assert(point_facts(g, kind, point_order(g, kind), s.data[q]->Some_0, q));
    }
}

/// The global extremum, the first point taken, keeps infinite persistence and
/// is its own ancestor.
pub proof fn lemma_global_extremum_persists(g: GraphModel, kind: MorseKind)
    requires
        g.well_formed(),
        g.num_nodes() > 0,
    ensures
        morse_state(g, kind).data[0] is Some,
        morse_state(g, kind).data[0]->Some_0.lifetime == Persistence::Infinite,
        morse_state(g, kind).data[0]->Some_0.ancestor == point_order(g, kind)[0],
        forall|v: int| 0 <= v < g.num_nodes() ==> at_least_as_extreme(kind, g.values[point_order(g, kind)[0] as int], #[trigger] g.values[v]),
{
    lemma_complete(g, kind);
    let order = point_order(g, kind);
    let s = morse_state(g, kind);
    let d = s.data[0]->Some_0;
    assert(point_facts(g, kind, order, d, 0));
    lemma_higher(g, kind, order, 0);
    if higher(g, kind, order, 0).len() > 0 {
        assert(higher(g, kind, order, 0)[0] < 0);
    }
    assert(is_extremum(g, kind, order, 0));
    lemma_order_facts(g.values, is_descending(kind), order);
    lemma_order_sorted(g, kind, order);
    assert forall|v: int| 0 <= v < g.num_nodes() implies at_least_as_extreme(kind, g.values[order[0] as int], #[trigger] g.values[v]) by {
        let q = position_of(order, v as usize as int);
        if q > 0 {
            assert(at_least_as_extreme(kind, g.values[order[0] as int], g.values[order[q] as int]));
        }
    }
}

/// Every point's ancestor, the extremum of its cell, is an extremum taken no
/// later than the point, its value is at least as extreme as the point's, and
/// it is its own ancestor.
pub proof fn lemma_ancestor_is_extremum(g: GraphModel, kind: MorseKind)
    requires
        g.well_formed(),
    ensures
        forall|q: int|
            0 <= q < g.num_nodes() ==> {
                let a = position_of(point_order(g, kind), (#[trigger] morse_state(g, kind).data[q])->Some_0.ancestor as int);
                &&& 0 <= a <= q
                &&& point_order(g, kind)[a] == morse_state(g, kind).data[q]->Some_0.ancestor
                &&& is_extremum(g, kind, point_order(g, kind), a)
                &&& at_least_as_extreme(kind, g.values[point_order(g, kind)[a] as int], g.values[point_order(g, kind)[q] as int])
                &&& morse_state(g, kind).data[a]->Some_0.ancestor == point_order(g, kind)[a]
            },
{
    lemma_complete(g, kind);
    lemma_order_sorted(g, kind, point_order(g, kind));
    let order = point_order(g, kind);
    let s = morse_state(g, kind);
    assert forall|q: int| 0 <= q < g.num_nodes() implies {
        let a = position_of(order, (#[trigger] s.data[q])->Some_0.ancestor as int);
        &&& 0 <= a <= q
        &&& order[a] == s.data[q]->Some_0.ancestor
        &&& is_extremum(g, kind, order, a)
        &&& at_least_as_extreme(kind, g.values[order[a] as int], g.values[order[q] as int])
        &&& s.data[a]->Some_0.ancestor == order[a]
    } by {
        assert(point_facts(g, kind, order, s.data[q]->Some_0, q));
        let a = position_of(order, s.data[q]->Some_0.ancestor as int);
        assert(point_facts(g, kind, order, s.data[a]->Some_0, a));
    }
}

/// An extremum merged into another cell has a merge parent, and only then its
/// persistence is a span: from itself to the later point whose arrival merged
/// it, whose value is no more extreme; its merge parent is an extremum taken
/// before it, whose value is at least as extreme.
pub proof fn lemma_merged_extrema(g: GraphModel, kind: MorseKind)
    requires
        g.well_formed(),
    ensures
        forall|q: int|
            0 <= q < g.num_nodes() ==> {
                let order = point_order(g, kind);
                let d = (#[trigger] morse_state(g, kind).data[q])->Some_0;
                &&& (d.merge_parent is Some <==> d.lifetime is Span)
                &&& (d.lifetime is Span ==> {
                    let b = position_of(order, d.lifetime->Span_1 as int);
                    &&& d.lifetime->Span_0 == order[q]
                    &&& q < b < g.num_nodes()
                    &&& order[b] == d.lifetime->Span_1
                    &&& at_least_as_extreme(kind, g.values[order[q] as int], g.values[order[b] as int])
                })
                &&& (d.merge_parent is Some ==> {
                    let c = position_of(order, d.merge_parent->Some_0 as int);
                    &&& 0 <= c < q
                    &&& order[c] == d.merge_parent->Some_0
                    &&& is_extremum(g, kind, order, c)
                    &&& at_least_as_extreme(kind, g.values[order[c] as int], g.values[order[q] as int])
                })
            },
{
    lemma_complete(g, kind);
    lemma_order_sorted(g, kind, point_order(g, kind));
    let order = point_order(g, kind);
    let s = morse_state(g, kind);
    assert forall|q: int| 0 <= q < g.num_nodes() implies {
        let d = (#[trigger] s.data[q])->Some_0;
        &&& (d.merge_parent is Some <==> d.lifetime is Span)
        &&& (d.lifetime is Span ==> {
            let b = position_of(order, d.lifetime->Span_1 as int);
            &&& d.lifetime->Span_0 == order[q]
            &&& q < b < g.num_nodes()
            &&& order[b] == d.lifetime->Span_1
            &&& at_least_as_extreme(kind, g.values[order[q] as int], g.values[order[b] as int])
        })
        &&& (d.merge_parent is Some ==> {
            let c = position_of(order, d.merge_parent->Some_0 as int);
            &&& 0 <= c < q
            &&& order[c] == d.merge_parent->Some_0
            &&& is_extremum(g, kind, order, c)
            &&& at_least_as_extreme(kind, g.values[order[c] as int], g.values[order[q] as int])
        })
    } by {
        assert(point_facts(g, kind, order, s.data[q]->Some_0, q));
    }
}


/// `h` has the nodes, identifiers, edges and grades of `g`, and values in the
/// reverse order: one value of `h` is below another exactly when the value of
/// `g` at the same node is above, and equal exactly when it is equal (as when
/// every value is negated).
pub open spec fn reverses_values(g: GraphModel, h: GraphModel) -> bool {
    &&& h.ids == g.ids
    &&& h.neighbors == g.neighbors
    &&& h.grades == g.grades
    &&& h.values.len() == g.values.len()
    &&& forall|u: int, v: int|
        #![trigger h.values[u], h.values[v]]
        0 <= u < g.values.len() && 0 <= v < g.values.len() ==> (h.values[u] < h.values[v] <==> g.values[u] > g.values[v])
            && (h.values[u] == h.values[v] <==> g.values[u] == g.values[v])
}

proof fn lemma_reversed_order(g: GraphModel, h: GraphModel)
    requires
        g.well_formed(),
        reverses_values(g, h),
    ensures
        point_order(h, MorseKind::Descending) == point_order(g, MorseKind::Ascending),
{
    let o = point_order(g, MorseKind::Ascending);
    lemma_stable_order_exists(g.values, false);
    lemma_stable_order_exists(h.values, true);
    assert forall|u: int, v: int| 0 <= u < g.num_nodes() && 0 <= v < g.num_nodes()
        implies precedes(h.values, true, u, v) == precedes(g.values, false, u, v) by {
        assert(h.values[u] < h.values[v] <==> g.values[u] > g.values[v]);
        assert(h.values[v] < h.values[u] <==> g.values[v] > g.values[u]);
    }
    assert(is_stable_order(h.values, true, o)) by {
        assert forall|i: int, j: int| 0 <= i < j < o.len() implies precedes(h.values, true, #[trigger] o[i] as int, #[trigger] o[j] as int) by {
            assert(precedes(g.values, false, o[i] as int, o[j] as int));
        }
    }
    lemma_stable_order_unique(h.values, true, o, stable_order(h.values, true));
}

proof fn lemma_reversed_higher(g: GraphModel, h: GraphModel, order: Seq<usize>, p: int, k: int)
    requires
        g.well_formed(),
        reverses_values(g, h),
        0 <= p < order.len(),
        forall|i: int| 0 <= i < order.len() ==> #[trigger] order[i] < g.num_nodes(),
        0 <= k <= g.neighbors[order[p] as int].len(),
    ensures
        higher_prefix(h, MorseKind::Descending, order, p, k) == higher_prefix(g, MorseKind::Ascending, order, p, k),
    decreases k,
{
    if k > 0 {
        lemma_reversed_higher(g, h, order, p, k - 1);
        let u = order[p] as int;
        let v = g.neighbors[u][k - 1] as int;
        assert(v < g.num_nodes());
        assert(h.values[v] < h.values[u] <==> g.values[v] > g.values[u]);
        assert(h.values[v] == h.values[u] <==> g.values[v] == g.values[u]);
    }
}

proof fn lemma_same_grades_steepest(g: GraphModel, h: GraphModel, order: Seq<usize>, p: int, hs: Seq<usize>, k: int)
    requires
        h.neighbors == g.neighbors,
        h.grades == g.grades,
    ensures
        steepest_prefix(h, order, p, hs, k) == steepest_prefix(g, order, p, hs, k),
    decreases k,
{
    if k > 1 {
        lemma_same_grades_steepest(g, h, order, p, hs, k - 1);
    }
}

proof fn lemma_reversed_states(g: GraphModel, h: GraphModel, order: Seq<usize>, k: int)
    requires
        g.well_formed(),
        reverses_values(g, h),
        order.len() == g.num_nodes(),
        forall|i: int| 0 <= i < order.len() ==> #[trigger] order[i] < g.num_nodes(),
        0 <= k <= g.num_nodes(),
    ensures
        state_after(h, MorseKind::Descending, order, k) == state_after(g, MorseKind::Ascending, order, k),
    decreases k,
{
    if k > 0 {
        let p = k - 1;
        lemma_reversed_states(g, h, order, p);
        let s = state_after(g, MorseKind::Ascending, order, p);
        assert(order[p] < g.num_nodes());
        lemma_reversed_higher(g, h, order, p, g.neighbors[order[p] as int].len() as int);
        let hs = higher(g, MorseKind::Ascending, order, p);
        assert(higher(h, MorseKind::Descending, order, p) == hs);
        lemma_same_grades_steepest(g, h, order, p, hs, hs.len() as int);
        assert(steepest(h, order, p, hs) == steepest(g, order, p, hs));
        assert(h.num_nodes() == g.num_nodes());
        assert(step(h, MorseKind::Descending, order, s, p) == step(g, MorseKind::Ascending, order, s, p));
    }
}

/// The ascending complex of a function is the descending complex of any
/// function whose values come in the reverse order, such as its negation:
/// the points come in the same order and get the same records.
pub proof fn lemma_ascending_is_descending_of_reversal(g: GraphModel, h: GraphModel)
    requires
        g.well_formed(),
        reverses_values(g, h),
    ensures
        point_order(h, MorseKind::Descending) == point_order(g, MorseKind::Ascending),
        morse_state(h, MorseKind::Descending) == morse_state(g, MorseKind::Ascending),
{
    lemma_reversed_order(g, h);
    let o = point_order(g, MorseKind::Ascending);
    lemma_points_in_value_order(g, MorseKind::Ascending);
    lemma_reversed_states(g, h, o, g.num_nodes() as int);
}

/// With distinct values, the ascending order of the points is the descending
/// order reversed.
pub proof fn lemma_ascending_order_reverses_descending(g: GraphModel)
    requires
        g.well_formed(),
        forall|u: int, v: int|
            #![trigger g.values[u], g.values[v]]
            0 <= u < g.num_nodes() && 0 <= v < g.num_nodes() && u != v ==> g.values[u] != g.values[v],
    ensures
        point_order(g, MorseKind::Ascending) == point_order(g, MorseKind::Descending).reverse(),
{
    let d = point_order(g, MorseKind::Descending);
    lemma_stable_order_exists(g.values, true);
    lemma_stable_order_exists(g.values, false);
    let r = d.reverse();
    let n = d.len() as int;
    lemma_order_facts(g.values, true, d);
    assert(is_stable_order(g.values, false, r)) by {
        assert forall|i: int| 0 <= i < r.len() implies #[trigger] r[i] < g.values.len() by {
            assert(r[i] == d[n - 1 - i]);
        }
        assert forall|v: usize| v < g.values.len() implies #[trigger] r.contains(v) by {
            assert(d.contains(v));
            let i = choose|i: int| 0 <= i < d.len() && d[i] == v;
            assert(r[n - 1 - i] == v);
        }
        assert forall|i: int, j: int| 0 <= i < j < r.len() implies precedes(g.values, false, #[trigger] r[i] as int, #[trigger] r[j] as int) by {
            assert(r[i] == d[n - 1 - i] && r[j] == d[n - 1 - j]);
            assert(precedes(g.values, true, d[n - 1 - j] as int, d[n - 1 - i] as int));
            assert(d[n - 1 - j] != d[n - 1 - i]);
            assert(g.values[d[n - 1 - j] as int] != g.values[d[n - 1 - i] as int]);
        }
    }
    lemma_stable_order_unique(g.values, false, r, point_order(g, MorseKind::Ascending));
}

/// `h` differs from `g` at most in the grades of its edges.
pub open spec fn differs_in_grades(g: GraphModel, h: GraphModel) -> bool {
    &&& h.ids == g.ids
    &&& h.values == g.values
    &&& h.neighbors == g.neighbors
    &&& h.grades.len() == g.grades.len()
    &&& forall|u: int| 0 <= u < g.grades.len() ==> (#[trigger] h.grades[u]).len() == g.grades[u].len()
}

/// The records agree on everything but the ancestors.
pub open spec fn agree_but_ancestors(a: Seq<Option<crate::morse::MorseData>>, b: Seq<Option<crate::morse::MorseData>>) -> bool {
    &&& a.len() == b.len()
    &&& forall|q: int|
        0 <= q < a.len() ==> (#[trigger] a[q] is Some <==> b[q] is Some) && (a[q] is Some ==> a[q]->Some_0.lifetime
            == b[q]->Some_0.lifetime && a[q]->Some_0.merge_parent == b[q]->Some_0.merge_parent)
}

proof fn lemma_grades_states(g: GraphModel, h: GraphModel, kind: MorseKind, order: Seq<usize>, k: int)
    requires
        g.well_formed(),
        differs_in_grades(g, h),
        0 <= k <= g.num_nodes(),
    ensures
        state_after(g, kind, order, k).data.len() == g.num_nodes(),
        state_after(g, kind, order, k).labels.len() == g.num_nodes(),
        state_after(h, kind, order, k).data.len() == g.num_nodes(),
        state_after(h, kind, order, k).labels == state_after(g, kind, order, k).labels,
        agree_but_ancestors(state_after(h, kind, order, k).data, state_after(g, kind, order, k).data),
    decreases k,
{
    if k > 0 {
        let p = k - 1;
        lemma_grades_states(g, h, kind, order, p);
        let sg = state_after(g, kind, order, p);
        let sh = state_after(h, kind, order, p);
        assert(higher(h, kind, order, p) == higher(g, kind, order, p)) by {
            lemma_same_higher(g, h, kind, order, p, g.neighbors[order[p] as int].len() as int);
        }
        let tg = step(g, kind, order, sg, p);
        let th = step(h, kind, order, sh, p);
        let hs = higher(g, kind, order, p);
        assert(th.data.len() == sh.data.len());
        assert(tg.data.len() == sg.data.len());
        assert(th.labels =~= tg.labels);
        assert(agree_but_ancestors(th.data, tg.data)) by {
            assert forall|q: int| 0 <= q < th.data.len() implies (#[trigger] th.data[q] is Some <==> tg.data[q] is Some) && (th.data[q] is Some
                ==> th.data[q]->Some_0.lifetime == tg.data[q]->Some_0.lifetime && th.data[q]->Some_0.merge_parent
                == tg.data[q]->Some_0.merge_parent) by {
                assert(q < sh.data.len());
                assert(q <= usize::MAX);
                assert(sh.data[q] is Some <==> sg.data[q] is Some);
                if hs.len() > 0 {
                    let c = crate::model::owning_cell(sg.labels, hs);
                    if q != p && !(q != c && crate::model::in_cells(sg.labels, hs, q as usize)) {
                        assert(th.data[q] == sh.data[q]);
                        assert(tg.data[q] == sg.data[q]);
                    }
                } else if q != p {
                    assert(th.data[q] == sh.data[q]);
                    assert(tg.data[q] == sg.data[q]);
                }
            }
        }
    }
}

proof fn lemma_same_higher(g: GraphModel, h: GraphModel, kind: MorseKind, order: Seq<usize>, p: int, k: int)
    requires
        differs_in_grades(g, h),
    ensures
        higher_prefix(h, kind, order, p, k) == higher_prefix(g, kind, order, p, k),
    decreases k,
{
    if k > 0 {
        lemma_same_higher(g, h, kind, order, p, k - 1);
    }
}

proof fn lemma_grades_filtration(a: Seq<Option<crate::morse::MorseData>>, b: Seq<Option<crate::morse::MorseData>>, order: Seq<usize>, k: int)
    requires
        agree_but_ancestors(a, b),
        0 <= k <= a.len(),
    ensures
        crate::model::filtration_prefix(order, a, k) == crate::model::filtration_prefix(order, b, k),
    decreases k,
{
    if k > 0 {
        lemma_grades_filtration(a, b, order, k - 1);
    }
}

/// The grades of the edges decide only the ancestors: two graphs that differ
/// only in them have the same cells, the same persistence and merge parent
/// at every point, and the same filtration.
pub proof fn lemma_grades_decide_only_ancestors(g: GraphModel, h: GraphModel, kind: MorseKind)
    requires
        g.well_formed(),
        differs_in_grades(g, h),
    ensures
        point_order(h, kind) == point_order(g, kind),
        morse_state(h, kind).labels == morse_state(g, kind).labels,
        agree_but_ancestors(morse_state(h, kind).data, morse_state(g, kind).data),
        crate::model::filtration_prefix(point_order(g, kind), morse_state(h, kind).data, g.num_nodes() as int)
            == crate::model::filtration_prefix(point_order(g, kind), morse_state(g, kind).data, g.num_nodes() as int),
{
    let o = point_order(g, kind);
    lemma_grades_states(g, h, kind, o, g.num_nodes() as int);
    lemma_complete(g, kind);
    lemma_grades_filtration(morse_state(h, kind).data, morse_state(g, kind).data, o, g.num_nodes() as int);
}

/// Each of the first `k` points that is not an extremum has the ancestor of
/// one of the neighbours taken before it that are at least as extreme.
pub open spec fn inherits_ancestors(g: GraphModel, kind: MorseKind, order: Seq<usize>, s: MorseState, k: int) -> bool {
    forall|q: int|
        0 <= q < k && !is_extremum(g, kind, order, q) ==> exists|j: int|
            0 <= j < higher(g, kind, order, q).len() && s.data[q]->Some_0.ancestor == s.data[(#[trigger] higher(
                g,
                kind,
                order,
                q,
            )[j]) as int]->Some_0.ancestor
}

proof fn lemma_inherits_after(g: GraphModel, kind: MorseKind, order: Seq<usize>, k: int)
    requires
        g.well_formed(),
        is_stable_order(g.values, is_descending(kind), order),
        0 <= k <= g.num_nodes(),
    ensures
        inherits_ancestors(g, kind, order, state_after(g, kind, order, k), k),
    decreases k,
{
    if k > 0 {
        let p = k - 1;
        lemma_inherits_after(g, kind, order, p);
        let s = state_after(g, kind, order, p);
        let t = state_after(g, kind, order, k);
        assert(t == step(g, kind, order, s, p));
        let hs = higher(g, kind, order, p);
        lemma_state_after(g, kind, order, p);
        assert(s.data.len() == g.num_nodes());
        assert forall|q: int| 0 <= q < p implies #[trigger] t.data[q]->Some_0.ancestor == s.data[q]->Some_0.ancestor by {
            if hs.len() == 0 {
                assert(t.data[q] == s.data[q]);
            }
        }
        lemma_higher(g, kind, order, p);
        assert forall|q: int| 0 <= q < k && !is_extremum(g, kind, order, q) implies exists|j: int|
            0 <= j < higher(g, kind, order, q).len() && t.data[q]->Some_0.ancestor == t.data[(#[trigger] higher(
                g,
                kind,
                order,
                q,
            )[j]) as int]->Some_0.ancestor by {
            if q < p {
                let hq = higher(g, kind, order, q);
                lemma_higher(g, kind, order, q);
                let j = choose|j: int| 0 <= j < hq.len() && s.data[q]->Some_0.ancestor == s.data[(#[trigger] hq[j]) as int]->Some_0.ancestor;
                assert(hq[j] < q);
                assert(t.data[hq[j] as int]->Some_0.ancestor == s.data[hq[j] as int]->Some_0.ancestor);
            } else {
                let src = crate::model::ancestor_source(g, kind, order, s, p);
                crate::model::lemma_steepest_prefix(g, order, p, hs, hs.len() as int);
                let j = if crate::model::same_cell(s.labels, hs) { 0 } else { steepest(g, order, p, hs) };
                assert(q == p);
                assert(hs.len() > 0);
                assert(hs[j] as int == src);
                assert(src < p);
                assert(t.data[p]->Some_0.ancestor == s.data[src]->Some_0.ancestor);
                assert(t.data[src]->Some_0.ancestor == s.data[src]->Some_0.ancestor);
            }
        }
    }
}

/// A point that is not an extremum has the ancestor of one of the
/// neighbours taken before it that are at least as extreme: cells follow the
/// edges up to their extremum.
pub proof fn lemma_ancestor_inherited(g: GraphModel, kind: MorseKind)
    requires
        g.well_formed(),
    ensures
        inherits_ancestors(g, kind, point_order(g, kind), morse_state(g, kind), g.num_nodes() as int),
{
    lemma_points_in_value_order(g, kind);
    lemma_inherits_after(g, kind, point_order(g, kind), g.num_nodes() as int);
}


proof fn lemma_source_ancestor(g: GraphModel, kind: MorseKind, q: int)
    requires
        g.well_formed(),
        0 <= q < g.num_nodes(),
        higher(g, kind, point_order(g, kind), q).len() > 0,
    ensures
        ({
            let order = point_order(g, kind);
            let hs = higher(g, kind, order, q);
            let src = if same_cell(state_after(g, kind, order, q).labels, hs) {
                0
            } else {
                steepest(g, order, q, hs)
            };
            &&& (!same_cell(state_after(g, kind, order, q).labels, hs) ==> is_steepest_index(g, order, q, hs, src))
            &&& morse_state(g, kind).data[q]->Some_0.ancestor == morse_state(g, kind).data[hs[src] as int]->Some_0.ancestor
        }),
{
    let order = point_order(g, kind);
    let n = g.num_nodes() as int;
    lemma_points_in_value_order(g, kind);
    let hs = higher(g, kind, order, q);
    let s = state_after(g, kind, order, q);
    let t = state_after(g, kind, order, q + 1);
    assert(t == step(g, kind, order, s, q));
    lemma_state_after(g, kind, order, q);
    lemma_higher(g, kind, order, q);
    lemma_steepest_is_steepest(g, order, q, hs);
    crate::model::lemma_steepest_prefix(g, order, q, hs, hs.len() as int);
    let j = if same_cell(s.labels, hs) { 0 } else { steepest(g, order, q, hs) };
    let src = hs[j] as int;
    assert(src < q);
    assert(crate::model::ancestor_source(g, kind, order, s, q) == src);
    assert(t.data[q]->Some_0.ancestor == s.data[src]->Some_0.ancestor);
    lemma_ancestor_kept(g, kind, order, q, q + 1, n);
    lemma_ancestor_kept(g, kind, order, src, q, n);
}

proof fn lemma_higher_members(g: GraphModel, kind: MorseKind, q: int)
    requires
        g.well_formed(),
        0 <= q < g.num_nodes(),
    ensures
        forall|x: int|
            0 <= x < g.num_nodes() ==> (#[trigger] higher(g, kind, point_order(g, kind), q).contains(x as usize) <==> x < q
                && g.neighbors[point_order(g, kind)[q] as int].contains(point_order(g, kind)[x])),
        is_extremum(g, kind, point_order(g, kind), q) <==> forall|x: int|
            0 <= x < q ==> !#[trigger] g.neighbors[point_order(g, kind)[q] as int].contains(point_order(g, kind)[x]),
{
    let order = point_order(g, kind);
    lemma_points_in_value_order(g, kind);
    lemma_order_facts(g.values, is_descending(kind), order);
    let u = order[q] as int;
    assert(u < g.num_nodes());
    let hs = higher(g, kind, order, q);
    crate::model::lemma_higher_prefix_members(g, kind, order, q, g.neighbors[u].len() as int);
    assert forall|x: int| 0 <= x < g.num_nodes() implies (#[trigger] hs.contains(x as usize) <==> x < q
        && g.neighbors[u].contains(order[x])) by {
        if g.neighbors[u].contains(order[x]) {
            let i = choose|i: int| 0 <= i < g.neighbors[u].len() && g.neighbors[u][i] == order[x];
            assert(g.neighbors[order[q] as int][i] == order[x]);
        }
    }
    lemma_higher(g, kind, order, q);
    if hs.len() > 0 {
        let x = hs[0] as int;
        assert(hs.contains(x as usize));
        assert(x < q && g.neighbors[u].contains(order[x]));
    } else {
        assert forall|x: int| 0 <= x < q implies !#[trigger] g.neighbors[order[q] as int].contains(order[x]) by {
            if g.neighbors[u].contains(order[x]) {
                assert(hs.contains(x as usize));
            }
        }
    }
}

/// The neighbours that a point joins when it arrives are exactly its
/// neighbours taken before it; so a point is an extremum exactly when no
/// neighbour of it is taken before it.
pub proof fn lemma_joins_earlier_neighbors(g: GraphModel, kind: MorseKind)
    requires
        g.well_formed(),
    ensures
        forall|q: int, x: int|
            0 <= q < g.num_nodes() && 0 <= x < g.num_nodes() ==> (#[trigger] higher(g, kind, point_order(g, kind), q).contains(
                x as usize,
            ) <==> x < q && g.neighbors[point_order(g, kind)[q] as int].contains(point_order(g, kind)[x])),
        forall|q: int|
            0 <= q < g.num_nodes() ==> (#[trigger] is_extremum(g, kind, point_order(g, kind), q) <==> forall|x: int|
                0 <= x < q ==> !#[trigger] g.neighbors[point_order(g, kind)[q] as int].contains(point_order(g, kind)[x])),
{
    assert forall|q: int, x: int|
        0 <= q < g.num_nodes() && 0 <= x < g.num_nodes() implies (#[trigger] higher(g, kind, point_order(g, kind), q).contains(
        x as usize,
    ) <==> x < q && g.neighbors[point_order(g, kind)[q] as int].contains(point_order(g, kind)[x])) by {
        lemma_higher_members(g, kind, q);
    }
    assert forall|q: int| 0 <= q < g.num_nodes() implies (#[trigger] is_extremum(g, kind, point_order(g, kind), q) <==> forall|x: int|
        0 <= x < q ==> !#[trigger] g.neighbors[point_order(g, kind)[q] as int].contains(point_order(g, kind)[x])) by {
        lemma_higher_members(g, kind, q);
    }
}

/// A point that is not an extremum inherits the ancestor of one of the
/// neighbours taken before it, at least as extreme as it: of the first of them
/// where they all lie in one cell when the point arrives; otherwise of the
/// steepest of them, one whose grade no other of them is steeper than, the
/// first of those (the first of them where its grade is incomparable).
pub proof fn lemma_ancestor_of_steepest_neighbor(g: GraphModel, kind: MorseKind)
    requires
        g.well_formed(),
    ensures
        forall|q: int|
            0 <= q < g.num_nodes() && (#[trigger] higher(g, kind, point_order(g, kind), q)).len() > 0 && same_cell(
                state_after(g, kind, point_order(g, kind), q).labels,
                higher(g, kind, point_order(g, kind), q),
            ) ==> morse_state(g, kind).data[q]->Some_0.ancestor == morse_state(g, kind).data[higher(
                g,
                kind,
                point_order(g, kind),
                q,
            )[0] as int]->Some_0.ancestor,
        forall|q: int|
            0 <= q < g.num_nodes() && !same_cell(
                state_after(g, kind, point_order(g, kind), q).labels,
                #[trigger] higher(g, kind, point_order(g, kind), q),
            ) ==> exists|j: int|
                is_steepest_index(g, point_order(g, kind), q, higher(g, kind, point_order(g, kind), q), j)
                    && morse_state(g, kind).data[q]->Some_0.ancestor == morse_state(g, kind).data[higher(
                    g,
                    kind,
                    point_order(g, kind),
                    q,
                )[j] as int]->Some_0.ancestor,
{
    assert forall|q: int|
        0 <= q < g.num_nodes() && (#[trigger] higher(g, kind, point_order(g, kind), q)).len() > 0 && same_cell(
            state_after(g, kind, point_order(g, kind), q).labels,
            higher(g, kind, point_order(g, kind), q),
        ) implies morse_state(g, kind).data[q]->Some_0.ancestor == morse_state(g, kind).data[higher(
        g,
        kind,
        point_order(g, kind),
        q,
    )[0] as int]->Some_0.ancestor by {
        lemma_source_ancestor(g, kind, q);
    }
    assert forall|q: int|
        0 <= q < g.num_nodes() && !same_cell(
            state_after(g, kind, point_order(g, kind), q).labels,
            #[trigger] higher(g, kind, point_order(g, kind), q),
        ) implies exists|j: int|
        is_steepest_index(g, point_order(g, kind), q, higher(g, kind, point_order(g, kind), q), j)
            && morse_state(g, kind).data[q]->Some_0.ancestor == morse_state(g, kind).data[higher(
            g,
            kind,
            point_order(g, kind),
            q,
        )[j] as int]->Some_0.ancestor by {
        let hs = higher(g, kind, point_order(g, kind), q);
        assert(hs.len() > 0);
        lemma_source_ancestor(g, kind, q);
    }
}

/// Every edge is listed at both of its ends, as in an undirected graph.
pub open spec fn is_symmetric(g: GraphModel) -> bool {
    forall|u: int, k: int|
        0 <= u < g.num_nodes() && 0 <= k < g.neighbors[u].len() ==> g.neighbors[#[trigger] g.neighbors[u][k] as int].contains(
            u as usize,
        )
}

/// `path` is a walk along edges of `g`.
pub open spec fn is_path(g: GraphModel, path: Seq<usize>) -> bool {
    &&& path.len() > 0
    &&& forall|i: int| 0 <= i < path.len() ==> #[trigger] path[i] < g.num_nodes()
    &&& forall|i: int| 0 <= i < path.len() - 1 ==> g.neighbors[path[i] as int].contains(#[trigger] path[i + 1])
}

/// Node `w` can be reached from node `v` along edges.
pub open spec fn reachable(g: GraphModel, v: int, w: int) -> bool {
    exists|path: Seq<usize>| #[trigger] is_path(g, path) && path[0] == v && path[path.len() - 1] == w
}

/// Every node can be reached from every other along edges.
pub open spec fn is_connected(g: GraphModel) -> bool {
    forall|v: int, w: int| 0 <= v < g.num_nodes() && 0 <= w < g.num_nodes() ==> #[trigger] reachable(g, v, w)
}

/// Among the first `k` points, the two ends of an edge lie in one cell.
pub open spec fn labels_follow_edges(g: GraphModel, order: Seq<usize>, labels: Seq<usize>, k: int) -> bool {
    forall|a: int, b: int|
        #![trigger labels[a], labels[b]]
        0 <= a < k && 0 <= b < k && g.neighbors[order[a] as int].contains(order[b]) ==> labels[a] == labels[b]
}

/// Among the first `k` points, an extremum keeps infinite persistence exactly
/// while it labels its own cell.
pub open spec fn survivors_label_cells(g: GraphModel, kind: MorseKind, order: Seq<usize>, s: MorseState, k: int) -> bool {
    forall|q: int|
        0 <= q < k && is_extremum(g, kind, order, q) ==> ((#[trigger] s.data[q])->Some_0.lifetime is Infinite <==> s.labels[q]
            == q)
}

proof fn lemma_earlier_neighbor_is_higher(g: GraphModel, kind: MorseKind, order: Seq<usize>, p: int, k: int, kk: int)
    requires
        g.well_formed(),
        is_stable_order(g.values, is_descending(kind), order),
        0 <= p < g.num_nodes(),
        0 <= kk < k <= g.neighbors[order[p] as int].len(),
        position_of(order, g.neighbors[order[p] as int][kk] as int) < p,
    ensures
        higher_prefix(g, kind, order, p, k).contains(position_of(order, g.neighbors[order[p] as int][kk] as int) as usize),
    decreases k,
{
    let u = order[p] as int;
    let v = g.neighbors[u][kk];
    let q = position_of(order, v as int);
    lemma_order_facts(g.values, is_descending(kind), order);
    assert(order[p] < g.num_nodes());
    assert(v < g.num_nodes());
    if k == kk + 1 {
        lemma_order_sorted(g, kind, order);
        assert(order[q] == v);
        assert(at_least_as_extreme(kind, g.values[order[q] as int], g.values[order[p] as int]));
        let h = higher_prefix(g, kind, order, p, k);
        assert(h[h.len() - 1] == q as usize);
    } else {
        lemma_earlier_neighbor_is_higher(g, kind, order, p, k - 1, kk);
        let h0 = higher_prefix(g, kind, order, p, k - 1);
        let h = higher_prefix(g, kind, order, p, k);
        let j = choose|j: int| 0 <= j < h0.len() && h0[j] == q as usize;
        assert(h[j] == h0[j]);
    }
}

proof fn lemma_step_follows_edges(g: GraphModel, kind: MorseKind, order: Seq<usize>, p: int)
    requires
        g.well_formed(),
        is_symmetric(g),
        is_stable_order(g.values, is_descending(kind), order),
        0 <= p < g.num_nodes(),
        labels_follow_edges(g, order, state_after(g, kind, order, p).labels, p),
    ensures
        labels_follow_edges(g, order, state_after(g, kind, order, p + 1).labels, p + 1),
{
    let s = state_after(g, kind, order, p);
    let t = state_after(g, kind, order, p + 1);
    assert(t == step(g, kind, order, s, p));
    lemma_state_after(g, kind, order, p);
    lemma_order_facts(g.values, is_descending(kind), order);
    let hs = higher(g, kind, order, p);
    let u = order[p] as int;
    assert(u < g.num_nodes());
    // a neighbour of the new point taken before it lies in one of the merged cells
    assert forall|b: int| 0 <= b < p && g.neighbors[u].contains(order[b]) implies t.labels[b] == t.labels[p] by {
        let kk = choose|kk: int| 0 <= kk < g.neighbors[u].len() && g.neighbors[u][kk] == order[b];
        assert(position_of(order, order[b] as int) == b);
        lemma_earlier_neighbor_is_higher(g, kind, order, p, g.neighbors[u].len() as int, kk);
        let j = choose|j: int| 0 <= j < hs.len() && hs[j] == b as usize;
        assert(crate::model::in_cells(s.labels, hs, s.labels[hs[j] as int]));
    }
    assert forall|a: int, b: int|
        #![trigger t.labels[a], t.labels[b]]
        0 <= a < p + 1 && 0 <= b < p + 1 && g.neighbors[order[a] as int].contains(order[b]) implies t.labels[a] == t.labels[b] by {
        if a == p && b == p {
        } else if a == p {
            assert(t.labels[b] == t.labels[p]);
        } else if b == p {
            assert(order[a] < g.num_nodes());
            let kk = choose|kk: int| 0 <= kk < g.neighbors[order[a] as int].len() && g.neighbors[order[a] as int][kk] == order[b];
            assert(g.neighbors[g.neighbors[order[a] as int][kk] as int].contains(order[a]));
            assert(t.labels[a] == t.labels[p]);
        } else {
            assert(s.labels[a] == s.labels[b]);
            if hs.len() > 0 {
                assert(t.labels[a] == t.labels[b]);
            }
        }
    }
}

proof fn lemma_step_survivors(g: GraphModel, kind: MorseKind, order: Seq<usize>, p: int)
    requires
        g.well_formed(),
        is_stable_order(g.values, is_descending(kind), order),
        0 <= p < g.num_nodes(),
        survivors_label_cells(g, kind, order, state_after(g, kind, order, p), p),
    ensures
        survivors_label_cells(g, kind, order, state_after(g, kind, order, p + 1), p + 1),
{
    let s = state_after(g, kind, order, p);
    let t = state_after(g, kind, order, p + 1);
    assert(t == step(g, kind, order, s, p));
    lemma_state_after(g, kind, order, p);
    let hs = higher(g, kind, order, p);
    assert forall|q: int| 0 <= q < p + 1 && is_extremum(g, kind, order, q) implies ((#[trigger] t.data[q])->Some_0.lifetime is Infinite
        <==> t.labels[q] == q) by {
        if q == p {
            assert(s.labels[p] == p);
        } else if hs.len() == 0 {
            assert(t.data[q] == s.data[q]);
        } else {
            crate::model::lemma_cells(g, kind, order, s, p);
            let c = crate::model::owning_cell(s.labels, hs);
            assert(s.data[q] is Some);
            if crate::model::in_cells(s.labels, hs, q as usize) {
                assert(s.labels[q] == q);
                if q == c as int {
                    assert(t.data[q] == s.data[q]);
                }
            } else {
                assert(t.data[q] == s.data[q]);
                if crate::model::in_cells(s.labels, hs, s.labels[q]) {
                    assert(s.labels[q] != q);
                }
            }
        }
    }
}

proof fn lemma_invariants_after(g: GraphModel, kind: MorseKind, order: Seq<usize>, k: int)
    requires
        g.well_formed(),
        is_symmetric(g),
        is_stable_order(g.values, is_descending(kind), order),
        0 <= k <= g.num_nodes(),
    ensures
        labels_follow_edges(g, order, state_after(g, kind, order, k).labels, k),
        survivors_label_cells(g, kind, order, state_after(g, kind, order, k), k),
    decreases k,
{
    if k > 0 {
        lemma_invariants_after(g, kind, order, k - 1);
        lemma_step_follows_edges(g, kind, order, k - 1);
        lemma_step_survivors(g, kind, order, k - 1);
    }
}

proof fn lemma_path_in_one_cell(g: GraphModel, order: Seq<usize>, labels: Seq<usize>, path: Seq<usize>, i: int)
    requires
        is_path(g, path),
        0 <= i < path.len(),
        order.len() == g.num_nodes(),
        labels.len() == g.num_nodes(),
        labels_follow_edges(g, order, labels, g.num_nodes() as int),
        forall|v: usize| v < g.num_nodes() ==> 0 <= #[trigger] position_of(order, v as int) < order.len() && order[position_of(order, v as int)] == v,
    ensures
        labels[position_of(order, path[0] as int)] == labels[position_of(order, path[i] as int)],
    decreases i,
{
    if i > 0 {
        lemma_path_in_one_cell(g, order, labels, path, i - 1);
        let a = position_of(order, path[i - 1] as int);
        let b = position_of(order, path[i] as int);
        assert(path[i - 1] < g.num_nodes() && path[i] < g.num_nodes());
        assert(g.neighbors[path[i - 1] as int].contains(path[(i - 1) + 1]));
        assert(order[a] == path[i - 1]);
        assert(order[b] == path[i]);
        assert(g.neighbors[order[a] as int].contains(order[b]));
        assert(labels[a] == labels[b]);
    }
}

/// On a connected undirected graph, the filtration taken to its conclusion
/// merges every extremum into the global one: the first point is the only
/// one of infinite persistence, and every other extremum has a merge parent.
pub proof fn lemma_single_survivor(g: GraphModel, kind: MorseKind)
    requires
        g.well_formed(),
        is_symmetric(g),
        is_connected(g),
        g.num_nodes() > 0,
    ensures
        forall|q: int| 0 <= q < g.num_nodes() ==> ((#[trigger] morse_state(g, kind).data[q])->Some_0.lifetime is Infinite <==> q == 0),
        forall|q: int|
            0 <= q < g.num_nodes() && q != 0 && is_extremum(g, kind, point_order(g, kind), q) ==> (
            #[trigger] morse_state(g, kind).data[q])->Some_0.merge_parent is Some,
{
    let n = g.num_nodes() as int;
    let order = point_order(g, kind);
    let s = morse_state(g, kind);
    lemma_complete(g, kind);
    lemma_order_facts(g.values, is_descending(kind), order);
    lemma_invariants_after(g, kind, order, n);
    lemma_global_extremum_persists(g, kind);
    lemma_zero_persistence_iff_not_extremum(g, kind);
    assert(s.labels[0] == 0);
    assert forall|q: int| 0 <= q < n implies #[trigger] s.labels[q] == 0 by {
        let v = order[0] as int;
        let w = order[q] as int;
        assert(order[0] < n && order[q] < n);
        assert(reachable(g, v, w));
        let path = choose|path: Seq<usize>| #[trigger] is_path(g, path) && path[0] == v && path[path.len() - 1] == w;
        lemma_path_in_one_cell(g, order, s.labels, path, path.len() - 1);
        assert(position_of(order, v) == 0);
        assert(position_of(order, w) == q);
    }
    assert forall|q: int| 0 <= q < n implies ((#[trigger] s.data[q])->Some_0.lifetime is Infinite <==> q == 0) by {
        assert(point_facts(g, kind, order, s.data[q]->Some_0, q));
        if q != 0 && is_extremum(g, kind, order, q) {
            assert(s.labels[q] == 0);
        }
    }
    assert forall|q: int| 0 <= q < n && q != 0 && is_extremum(g, kind, order, q) implies (#[trigger] s.data[q])->Some_0.merge_parent is Some by {
        assert(point_facts(g, kind, order, s.data[q]->Some_0, q));
        assert(s.labels[q] == 0);
    }
}


proof fn lemma_reach_refl(g: GraphModel, v: int)
    requires
        0 <= v < g.num_nodes(),
        g.num_nodes() <= usize::MAX,
    ensures
        reachable(g, v, v),
{
    let path = seq![v as usize];
    assert(is_path(g, path));
}

proof fn lemma_reach_edge(g: GraphModel, u: int, v: int)
    requires
        g.well_formed(),
        0 <= u < g.num_nodes(),
        0 <= v < g.num_nodes(),
        g.neighbors[u].contains(v as usize),
    ensures
        reachable(g, u, v),
{
    let path = seq![u as usize, v as usize];
    assert(is_path(g, path)) by {
        assert(path[1] == v as usize);
        assert(g.neighbors[path[0] as int].contains(path[0int + 1]));
    }
}

proof fn lemma_reach_trans(g: GraphModel, u: int, v: int, w: int)
    requires
        reachable(g, u, v),
        reachable(g, v, w),
    ensures
        reachable(g, u, w),
{
    let p1 = choose|path: Seq<usize>| #[trigger] is_path(g, path) && path[0] == u && path[path.len() - 1] == v;
    let p2 = choose|path: Seq<usize>| #[trigger] is_path(g, path) && path[0] == v && path[path.len() - 1] == w;
    let p = p1 + p2.drop_first();
    assert(is_path(g, p)) by {
        assert forall|i: int| 0 <= i < p.len() implies #[trigger] p[i] < g.num_nodes() by {
            if i >= p1.len() {
                assert(p[i] == p2[i - p1.len() + 1]);
            }
        }
        assert forall|i: int| 0 <= i < p.len() - 1 implies g.neighbors[p[i] as int].contains(#[trigger] p[i + 1]) by {
            if i < p1.len() - 1 {
                assert(p[i] == p1[i] && p[i + 1] == p1[i + 1]);
            } else if i == p1.len() - 1 {
                assert(p[i] == p1[i] && p1[i] == p2[0] && p[i + 1] == p2[1]);
                assert(g.neighbors[p2[0] as int].contains(p2[0int + 1]));
            } else {
                let j = i - p1.len() + 1;
                assert(p[i] == p2[j] && p[i + 1] == p2[j + 1]);
            }
        }
    }
    if p2.len() == 1 {
        assert(p[p.len() - 1] == p1[p1.len() - 1]);
    } else {
        assert(p[p.len() - 1] == p2[p2.len() - 1]);
    }
}

proof fn lemma_reach_sym(g: GraphModel, u: int, v: int)
    requires
        g.well_formed(),
        is_symmetric(g),
        reachable(g, u, v),
    ensures
        reachable(g, v, u),
{
    let p1 = choose|path: Seq<usize>| #[trigger] is_path(g, path) && path[0] == u && path[path.len() - 1] == v;
    let p = p1.reverse();
    let m = p1.len() as int;
    assert(is_path(g, p)) by {
        assert forall|i: int| 0 <= i < p.len() implies #[trigger] p[i] < g.num_nodes() by {
            assert(p[i] == p1[m - 1 - i]);
        }
        assert forall|i: int| 0 <= i < p.len() - 1 implies g.neighbors[p[i] as int].contains(#[trigger] p[i + 1]) by {
            let a = m - 2 - i;
            assert(p[i] == p1[a + 1] && p[i + 1] == p1[a]);
            assert(g.neighbors[p1[a] as int].contains(p1[a + 1]));
            let k = choose|k: int| 0 <= k < g.neighbors[p1[a] as int].len() && g.neighbors[p1[a] as int][k] == p1[a + 1];
            assert(p1[a] < g.num_nodes());
            assert(g.neighbors[g.neighbors[p1[a] as int][k] as int].contains(p1[a]));
        }
    }
}

/// Among the first `k` points, every point can reach the point that labels
/// its cell.
pub open spec fn cells_reach_labels(g: GraphModel, order: Seq<usize>, labels: Seq<usize>, k: int) -> bool {
    forall|e: int| 0 <= e < k ==> #[trigger] reachable(g, order[e] as int, order[labels[e] as int] as int)
}

proof fn lemma_step_reaches(g: GraphModel, kind: MorseKind, order: Seq<usize>, p: int)
    requires
        g.well_formed(),
        is_symmetric(g),
        is_stable_order(g.values, is_descending(kind), order),
        0 <= p < g.num_nodes(),
        cells_reach_labels(g, order, state_after(g, kind, order, p).labels, p),
    ensures
        cells_reach_labels(g, order, state_after(g, kind, order, p + 1).labels, p + 1),
{
    let n = g.num_nodes() as int;
    let s = state_after(g, kind, order, p);
    let t = state_after(g, kind, order, p + 1);
    assert(t == step(g, kind, order, s, p));
    lemma_state_after(g, kind, order, p);
    lemma_order_facts(g.values, is_descending(kind), order);
    lemma_higher(g, kind, order, p);
    let hs = higher(g, kind, order, p);
    let u = order[p] as int;
    assert(u < n);
    if hs.len() == 0 {
        assert(s.labels[p] == p);
        lemma_reach_refl(g, u);
        assert forall|e: int| 0 <= e < p + 1 implies #[trigger] reachable(g, order[e] as int, order[t.labels[e] as int] as int) by {
            if e < p {
                assert(reachable(g, order[e] as int, order[s.labels[e] as int] as int));
            }
        }
    } else {
        crate::model::lemma_cells(g, kind, order, s, p);
        let c = crate::model::owning_cell(s.labels, hs);
        // every neighbour before `p`, and so every cell among them, reaches `p` and back
        assert forall|j: int| 0 <= j < hs.len() implies reachable(g, u, order[(#[trigger] hs[j]) as int] as int)
            && reachable(g, order[hs[j] as int] as int, u) by {
            let h = hs[j] as int;
            assert(order[h] < n);
            lemma_reach_edge(g, u, order[h] as int);
            lemma_reach_sym(g, u, order[h] as int);
        }
        assert forall|l: usize| #[trigger] crate::model::in_cells(s.labels, hs, l) implies reachable(g, order[l as int] as int, u)
            && reachable(g, u, order[l as int] as int) by {
            let j = choose|j: int| 0 <= j < hs.len() && s.labels[(#[trigger] hs[j]) as int] == l;
            let h = hs[j] as int;
            assert(reachable(g, order[h] as int, order[s.labels[h] as int] as int));
            lemma_reach_sym(g, order[h] as int, order[l as int] as int);
            lemma_reach_trans(g, order[l as int] as int, order[h] as int, u);
            lemma_reach_trans(g, u, order[h] as int, order[l as int] as int);
        }
        assert(crate::model::in_cells(s.labels, hs, c));
        assert forall|e: int| 0 <= e < p + 1 implies #[trigger] reachable(g, order[e] as int, order[t.labels[e] as int] as int) by {
            if e == p {
                assert(t.labels[e] == c);
            } else if crate::model::in_cells(s.labels, hs, s.labels[e]) {
                let l = s.labels[e];
                assert(t.labels[e] == c);
                assert(reachable(g, order[e] as int, order[l as int] as int));
                lemma_reach_trans(g, order[e] as int, order[l as int] as int, u);
                lemma_reach_trans(g, order[e] as int, u, order[c as int] as int);
            } else {
                assert(reachable(g, order[e] as int, order[s.labels[e] as int] as int));
            }
        }
    }
}

proof fn lemma_reaches_after(g: GraphModel, kind: MorseKind, order: Seq<usize>, k: int)
    requires
        g.well_formed(),
        is_symmetric(g),
        is_stable_order(g.values, is_descending(kind), order),
        0 <= k <= g.num_nodes(),
    ensures
        cells_reach_labels(g, order, state_after(g, kind, order, k).labels, k),
    decreases k,
{
    if k > 0 {
        lemma_reaches_after(g, kind, order, k - 1);
        lemma_step_reaches(g, kind, order, k - 1);
    }
}

/// On an undirected graph the cells are the connected components: two points
/// lie in one cell exactly when one can be reached from the other. A point
/// keeps infinite persistence exactly when it labels its own cell, so each
/// component has exactly one such point, its first.
pub proof fn lemma_cells_are_components(g: GraphModel, kind: MorseKind)
    requires
        g.well_formed(),
        is_symmetric(g),
    ensures
        forall|a: int, b: int|
            #![trigger morse_state(g, kind).labels[a], morse_state(g, kind).labels[b]]
            0 <= a < g.num_nodes() && 0 <= b < g.num_nodes() ==> (morse_state(g, kind).labels[a] == morse_state(g, kind).labels[b]
                <==> reachable(g, point_order(g, kind)[a] as int, point_order(g, kind)[b] as int)),
        forall|q: int|
            0 <= q < g.num_nodes() ==> ((#[trigger] morse_state(g, kind).data[q])->Some_0.lifetime is Infinite
                <==> morse_state(g, kind).labels[q] == q),
        forall|q: int| 0 <= q < g.num_nodes() ==> #[trigger] morse_state(g, kind).labels[q] <= q,
{
    let n = g.num_nodes() as int;
    let order = point_order(g, kind);
    let s = morse_state(g, kind);
    lemma_complete(g, kind);
    lemma_order_facts(g.values, is_descending(kind), order);
    lemma_invariants_after(g, kind, order, n);
    lemma_reaches_after(g, kind, order, n);
    assert forall|a: int, b: int|
        #![trigger s.labels[a], s.labels[b]]
        0 <= a < n && 0 <= b < n implies (s.labels[a] == s.labels[b] <==> reachable(g, order[a] as int, order[b] as int)) by {
        assert(order[a] < n && order[b] < n);
        if s.labels[a] == s.labels[b] {
            let l = s.labels[a] as int;
            assert(reachable(g, order[a] as int, order[l] as int));
            assert(reachable(g, order[b] as int, order[l] as int));
            lemma_reach_sym(g, order[b] as int, order[l] as int);
            lemma_reach_trans(g, order[a] as int, order[l] as int, order[b] as int);
        }
        if reachable(g, order[a] as int, order[b] as int) {
            let path = choose|path: Seq<usize>| #[trigger] is_path(g, path) && path[0] == order[a] as int && path[path.len() - 1] == order[b] as int;
            lemma_path_in_one_cell(g, order, s.labels, path, path.len() - 1);
            assert(position_of(order, order[a] as int) == a);
            assert(position_of(order, order[b] as int) == b);
        }
    }
    assert forall|q: int| 0 <= q < n implies ((#[trigger] s.data[q])->Some_0.lifetime is Infinite <==> s.labels[q] == q) by {
        assert(point_facts(g, kind, order, s.data[q]->Some_0, q));
        assert(s.labels[q] <= q && is_extremum(g, kind, order, s.labels[q] as int));
    }
}


proof fn lemma_survivors_after(g: GraphModel, kind: MorseKind, order: Seq<usize>, k: int)
    requires
        g.well_formed(),
        is_stable_order(g.values, is_descending(kind), order),
        0 <= k <= g.num_nodes(),
    ensures
        survivors_label_cells(g, kind, order, state_after(g, kind, order, k), k),
    decreases k,
{
    if k > 0 {
        lemma_survivors_after(g, kind, order, k - 1);
        lemma_step_survivors(g, kind, order, k - 1);
    }
}

/// Among the first `k` points, each merged extremum was merged by an earlier
/// point, into an extremum that is still unmerged or was merged by a later
/// point than it.
pub open spec fn merges_nest(g: GraphModel, kind: MorseKind, order: Seq<usize>, s: MorseState, k: int) -> bool {
    forall|q: int|
        0 <= q < k && (#[trigger] s.data[q])->Some_0.lifetime is Span ==> nests_at(g, kind, order, s, k, q)
}

/// The merged extremum at `q` was merged by a point before `k`, into an
/// extremum unmerged or merged by a later point.
pub open spec fn nests_at(g: GraphModel, kind: MorseKind, order: Seq<usize>, s: MorseState, k: int, q: int) -> bool {
    let d = s.data[q]->Some_0;
    let b = position_of(order, d.lifetime->Span_1 as int);
    let c = position_of(order, d.merge_parent->Some_0 as int);
    let dc = s.data[c]->Some_0;
    &&& b < k
    &&& (dc.lifetime is Infinite || (dc.lifetime is Span && b < position_of(order, dc.lifetime->Span_1 as int)))
}

#[verifier::spinoff_prover]
#[verifier::rlimit(60)]
proof fn lemma_step_nests_point(g: GraphModel, kind: MorseKind, order: Seq<usize>, p: int, q: int)
    requires
        g.well_formed(),
        is_stable_order(g.values, is_descending(kind), order),
        0 <= p < g.num_nodes(),
        merges_nest(g, kind, order, state_after(g, kind, order, p), p),
        0 <= q < p + 1,
        state_after(g, kind, order, p + 1).data[q]->Some_0.lifetime is Span,
    ensures
        nests_at(g, kind, order, state_after(g, kind, order, p + 1), p + 1, q),
{
    let s = state_after(g, kind, order, p);
    let t = state_after(g, kind, order, p + 1);
    assert(t == step(g, kind, order, s, p));
    lemma_state_after(g, kind, order, p);
    lemma_state_after(g, kind, order, p + 1);
    lemma_survivors_after(g, kind, order, p);
    lemma_order_facts(g.values, is_descending(kind), order);
    let hs = higher(g, kind, order, p);
    assert(order[p] < g.num_nodes());
    assert(position_of(order, order[p] as int) == p);
    let d = t.data[q]->Some_0;
    assert(point_facts(g, kind, order, d, q));
    let c = position_of(order, d.merge_parent->Some_0 as int);
    assert(point_facts(g, kind, order, t.data[c]->Some_0, c));
    if hs.len() == 0 {
        assert(t.data[q] == s.data[q]);
        assert(t.data[c] == s.data[c]);
        assert(nests_at(g, kind, order, s, p, q));
    } else {
        crate::model::lemma_cells(g, kind, order, s, p);
        let cc = crate::model::owning_cell(s.labels, hs);
        if q != p && q != cc && crate::model::in_cells(s.labels, hs, q as usize) {
            assert(c == cc);
            assert(s.labels[cc as int] == cc);
            assert(point_facts(g, kind, order, s.data[c]->Some_0, c));
            assert(t.data[c] == s.data[c]);
        } else {
            assert(q < p);
            assert(t.data[q] == s.data[q]);
            assert(nests_at(g, kind, order, s, p, q));
            if !(c != cc && crate::model::in_cells(s.labels, hs, c as usize)) {
                assert(t.data[c] == s.data[c]);
            }
        }
    }
}

proof fn lemma_step_nests(g: GraphModel, kind: MorseKind, order: Seq<usize>, p: int)
    requires
        g.well_formed(),
        is_stable_order(g.values, is_descending(kind), order),
        0 <= p < g.num_nodes(),
        merges_nest(g, kind, order, state_after(g, kind, order, p), p),
    ensures
        merges_nest(g, kind, order, state_after(g, kind, order, p + 1), p + 1),
{
    let t = state_after(g, kind, order, p + 1);
    assert forall|q: int| 0 <= q < p + 1 && (#[trigger] t.data[q])->Some_0.lifetime is Span implies nests_at(g, kind, order, t, p + 1, q) by {
        lemma_step_nests_point(g, kind, order, p, q);
    }
}

proof fn lemma_nests_after(g: GraphModel, kind: MorseKind, order: Seq<usize>, k: int)
    requires
        g.well_formed(),
        is_stable_order(g.values, is_descending(kind), order),
        0 <= k <= g.num_nodes(),
    ensures
        merges_nest(g, kind, order, state_after(g, kind, order, k), k),
    decreases k,
{
    if k > 0 {
        lemma_nests_after(g, kind, order, k - 1);
        lemma_step_nests(g, kind, order, k - 1);
    }
}

/// Each step of the filtration merges a less persistent extremum into a more
/// persistent one: the owning extremum's value is at least as extreme as the
/// destroyed one's, and it is either never merged or merged later, at a point
/// whose value is no more extreme than the point that merged the destroyed
/// one; so the span of the destroyed extremum lies within the owner's.
pub proof fn lemma_filtration_merges_into_more_persistent(g: GraphModel, kind: MorseKind)
    requires
        g.well_formed(),
    ensures
        forall|q: int|
            0 <= q < g.num_nodes() && (#[trigger] morse_state(g, kind).data[q])->Some_0.lifetime is Span ==> {
                let order = point_order(g, kind);
                let s = morse_state(g, kind);
                let d = s.data[q]->Some_0;
                let b = position_of(order, d.lifetime->Span_1 as int);
                let c = position_of(order, d.merge_parent->Some_0 as int);
                let dc = s.data[c]->Some_0;
                &&& at_least_as_extreme(kind, g.values[order[c] as int], g.values[order[q] as int])
                &&& (dc.lifetime is Infinite || (dc.lifetime is Span && {
                    let bc = position_of(order, dc.lifetime->Span_1 as int);
                    &&& b < bc
                    &&& order[bc] == dc.lifetime->Span_1
                    &&& at_least_as_extreme(kind, g.values[order[b] as int], g.values[order[bc] as int])
                }))
            },
{
    let n = g.num_nodes() as int;
    let order = point_order(g, kind);
    let s = morse_state(g, kind);
    lemma_complete(g, kind);
    lemma_order_sorted(g, kind, order);
    lemma_nests_after(g, kind, order, n);
    assert forall|q: int| 0 <= q < n && (#[trigger] s.data[q])->Some_0.lifetime is Span implies {
        let d = s.data[q]->Some_0;
        let b = position_of(order, d.lifetime->Span_1 as int);
        let c = position_of(order, d.merge_parent->Some_0 as int);
        let dc = s.data[c]->Some_0;
        &&& at_least_as_extreme(kind, g.values[order[c] as int], g.values[order[q] as int])
        &&& (dc.lifetime is Infinite || (dc.lifetime is Span && {
            let bc = position_of(order, dc.lifetime->Span_1 as int);
            &&& b < bc
            &&& order[bc] == dc.lifetime->Span_1
            &&& at_least_as_extreme(kind, g.values[order[b] as int], g.values[order[bc] as int])
        }))
    } by {
        let d = s.data[q]->Some_0;
        assert(point_facts(g, kind, order, d, q));
        let c = position_of(order, d.merge_parent->Some_0 as int);
        assert(point_facts(g, kind, order, s.data[c]->Some_0, c));
    }
}


/// `path` runs along edges, each node's value at least as extreme as the
/// value before it.
pub open spec fn is_ascent(g: GraphModel, kind: MorseKind, path: Seq<usize>) -> bool {
    &&& is_path(g, path)
    &&& forall|i: int|
        0 <= i < path.len() - 1 ==> at_least_as_extreme(kind, g.values[#[trigger] path[i + 1] as int], g.values[path[i] as int])
}

/// Node `v` reaches node `w` by an ascent.
pub open spec fn ascends_to(g: GraphModel, kind: MorseKind, v: int, w: int) -> bool {
    exists|path: Seq<usize>| #[trigger] is_ascent(g, kind, path) && path[0] == v && path[path.len() - 1] == w
}

proof fn lemma_ascent_to_ancestor(g: GraphModel, kind: MorseKind, q: int)
    requires
        g.well_formed(),
        0 <= q < g.num_nodes(),
    ensures
        ascends_to(g, kind, point_order(g, kind)[q] as int, morse_state(g, kind).data[q]->Some_0.ancestor as int),
    decreases q,
{
    let order = point_order(g, kind);
    let s = morse_state(g, kind);
    let n = g.num_nodes() as int;
    lemma_complete(g, kind);
    lemma_order_facts(g.values, is_descending(kind), order);
    assert(point_facts(g, kind, order, s.data[q]->Some_0, q));
    assert(order[q] < n);
    if is_extremum(g, kind, order, q) {
        let path = seq![order[q]];
        assert(is_ascent(g, kind, path));
    } else {
        lemma_ancestor_inherited(g, kind);
        let hq = higher(g, kind, order, q);
        let j = choose|j: int| 0 <= j < hq.len() && s.data[q]->Some_0.ancestor == s.data[(#[trigger] hq[j]) as int]->Some_0.ancestor;
        lemma_higher(g, kind, order, q);
        let h = hq[j] as int;
        assert(h < q);
        lemma_ascent_to_ancestor(g, kind, h);
        let anc = s.data[h]->Some_0.ancestor as int;
        let p1 = choose|path: Seq<usize>| #[trigger] is_ascent(g, kind, path) && path[0] == order[h] as int && path[path.len() - 1] == anc;
        let path = seq![order[q]] + p1;
        lemma_order_sorted(g, kind, order);
        assert(at_least_as_extreme(kind, g.values[order[h] as int], g.values[order[q] as int]));
        assert(is_ascent(g, kind, path)) by {
            assert forall|i: int| 0 <= i < path.len() implies #[trigger] path[i] < g.num_nodes() by {
                if i > 0 {
                    assert(path[i] == p1[i - 1]);
                }
            }
            assert forall|i: int| 0 <= i < path.len() - 1 implies g.neighbors[path[i] as int].contains(#[trigger] path[i + 1]) by {
                if i == 0 {
                    assert(path[1] == p1[0]);
                } else {
                    assert(path[i] == p1[i - 1] && path[i + 1] == p1[i]);
                    assert(g.neighbors[p1[i - 1] as int].contains(p1[(i - 1) + 1]));
                }
            }
            assert forall|i: int| 0 <= i < path.len() - 1 implies at_least_as_extreme(kind, g.values[#[trigger] path[i + 1] as int], g.values[path[i] as int]) by {
                if i == 0 {
                    assert(path[1] == p1[0]);
                } else {
                    assert(path[i] == p1[i - 1] && path[i + 1] == p1[i]);
                    assert(at_least_as_extreme(kind, g.values[p1[(i - 1) + 1] as int], g.values[p1[i - 1] as int]));
                }
            }
        }
        assert(path[path.len() - 1] == p1[p1.len() - 1]);
    }
}

/// Every point reaches its ancestor by an ascent: along edges, through
/// values each at least as extreme as the one before.
pub proof fn lemma_ancestor_reached_by_ascent(g: GraphModel, kind: MorseKind)
    requires
        g.well_formed(),
    ensures
        forall|q: int|
            0 <= q < g.num_nodes() ==> ascends_to(
                g,
                kind,
                point_order(g, kind)[q] as int,
                (#[trigger] morse_state(g, kind).data[q])->Some_0.ancestor as int,
            ),
{
    assert forall|q: int| 0 <= q < g.num_nodes() implies ascends_to(
        g,
        kind,
        point_order(g, kind)[q] as int,
        (#[trigger] morse_state(g, kind).data[q])->Some_0.ancestor as int,
    ) by {
        lemma_ascent_to_ancestor(g, kind, q);
    }
}


/// The cell of the point at position `q` is its own until the point at
/// position `b`, a later one, arrives, and not once it has arrived.
pub open spec fn merged_at(g: GraphModel, kind: MorseKind, order: Seq<usize>, q: int, b: int) -> bool {
    &&& 0 <= q < b < g.num_nodes()
    &&& state_after(g, kind, order, b).labels[q] == q
    &&& state_after(g, kind, order, b + 1).labels[q] != q
}

/// The record `d` of the merged extremum at position `q` ends its persistence
/// at the point whose arrival merged its cell into another, and names as its
/// merge parent the extremum that labels the cell it was merged into.
pub open spec fn ends_at_merge(g: GraphModel, kind: MorseKind, order: Seq<usize>, d: MorseData, q: int) -> bool {
    let b = position_of(order, d.lifetime->Span_1 as int);
    &&& merged_at(g, kind, order, q, b)
    &&& d.merge_parent == Some(order[state_after(g, kind, order, b + 1).labels[q] as int])
}

/// Among the first `k` points, each merged extremum's record ends at the
/// merge of its cell.
pub open spec fn spans_end_at_merges(g: GraphModel, kind: MorseKind, order: Seq<usize>, s: MorseState, k: int) -> bool {
    forall|q: int|
        0 <= q < k && (#[trigger] s.data[q])->Some_0.lifetime is Span ==> ends_at_merge(g, kind, order, s.data[q]->Some_0, q)
}

proof fn lemma_step_spans(g: GraphModel, kind: MorseKind, order: Seq<usize>, p: int)
    requires
        g.well_formed(),
        is_stable_order(g.values, is_descending(kind), order),
        0 <= p < g.num_nodes(),
        spans_end_at_merges(g, kind, order, state_after(g, kind, order, p), p),
    ensures
        spans_end_at_merges(g, kind, order, state_after(g, kind, order, p + 1), p + 1),
{
    let s = state_after(g, kind, order, p);
    let t = state_after(g, kind, order, p + 1);
    assert(t == step(g, kind, order, s, p));
    lemma_state_after(g, kind, order, p);
    lemma_order_facts(g.values, is_descending(kind), order);
    let hs = higher(g, kind, order, p);
    assert forall|q: int| 0 <= q < p + 1 && (#[trigger] t.data[q])->Some_0.lifetime is Span implies ends_at_merge(
        g,
        kind,
        order,
        t.data[q]->Some_0,
        q,
    ) by {
        if q == p {
            assert(t.data[q]->Some_0.lifetime is Infinite || t.data[q]->Some_0.lifetime is Zero);
        } else if hs.len() == 0 {
            assert(t.data[q] == s.data[q]);
        } else {
            crate::model::lemma_cells(g, kind, order, s, p);
            let c = crate::model::owning_cell(s.labels, hs);
            if crate::model::in_cells(s.labels, hs, q as usize) && q != c as int {
                assert(s.labels[q] == q);
                assert(t.data[q]->Some_0.lifetime == Persistence::Span(order[q], order[p]));
                assert(position_of(order, order[p] as int) == p);
                assert(crate::model::in_cells(s.labels, hs, s.labels[q]));
                assert(t.labels[q] == c);
            } else {
                assert(t.data[q] == s.data[q]);
            }
        }
    }
}

proof fn lemma_spans_after(g: GraphModel, kind: MorseKind, order: Seq<usize>, k: int)
    requires
        g.well_formed(),
        is_stable_order(g.values, is_descending(kind), order),
        0 <= k <= g.num_nodes(),
    ensures
        spans_end_at_merges(g, kind, order, state_after(g, kind, order, k), k),
    decreases k,
{
    if k > 0 {
        lemma_spans_after(g, kind, order, k - 1);
        lemma_step_spans(g, kind, order, k - 1);
    }
}

/// The persistence of a merged extremum is the span from itself to the point
/// whose arrival merged its cell into another: its cell is its own until that
/// point arrives, and not once it has. Its merge parent is the extremum that
/// labels the cell it was merged into.
pub proof fn lemma_span_ends_at_merge(g: GraphModel, kind: MorseKind)
    requires
        g.well_formed(),
    ensures
        forall|q: int|
            0 <= q < g.num_nodes() && (#[trigger] morse_state(g, kind).data[q])->Some_0.lifetime is Span ==> {
                let order = point_order(g, kind);
                let d = morse_state(g, kind).data[q]->Some_0;
                let b = position_of(order, d.lifetime->Span_1 as int);
                &&& merged_at(g, kind, order, q, b)
                &&& d.merge_parent == Some(order[state_after(g, kind, order, b + 1).labels[q] as int])
            },
{
    lemma_points_in_value_order(g, kind);
    lemma_spans_after(g, kind, point_order(g, kind), g.num_nodes() as int);
}

/// The exported data of a complex carries, entry by entry, what the complex
/// reports: its lifetimes are the persistence entries, and its cell map the
/// ancestor entries, each with its nodes named by their identifiers.
pub proof fn lemma_export_renames_entries(g: GraphModel, c: MorseComplex, d: MorseComplexData)
    requires
        c.wf(),
        d.data_of(g, c),
    ensures
        d.lifetimes@.len() == persistence_prefix(c.order(), c.data(), c.order().len() as int).len(),
        forall|j: int|
            0 <= j < d.lifetimes@.len() ==> #[trigger] d.lifetimes@[j] == (
                g.ids[persistence_prefix(c.order(), c.data(), c.order().len() as int)[j].0 as int],
                persistence_prefix(c.order(), c.data(), c.order().len() as int)[j].1,
            ),
        d.complex@.len() == complex_prefix(c.order(), c.data(), c.order().len() as int).len(),
        forall|j: int|
            0 <= j < d.complex@.len() ==> #[trigger] d.complex@[j] == (
                g.ids[complex_prefix(c.order(), c.data(), c.order().len() as int)[j].0 as int],
                g.ids[complex_prefix(c.order(), c.data(), c.order().len() as int)[j].1 as int],
            ),
{
    c.lemma_records_complete();
    lemma_complete_prefixes(c.order(), c.data(), c.order().len() as int);
}

/// In the exported data of the Morse complex of a graph, the entry of each
/// point names it by its identifier; its lifetime is its persistence, which
/// is infinite exactly for an extremum never merged into another cell (one
/// that still labels its own cell once every point has arrived), zero
/// exactly for a point that is not an extremum, and for a merged extremum the
/// span from itself to a later point, no more extreme, whose arrival merged it.
pub proof fn lemma_exported_lifetimes(g: GraphModel, kind: MorseKind, c: MorseComplex, d: MorseComplexData)
    requires
        g.well_formed(),
        c.is_built_from(g, kind),
        d.data_of(g, c),
    ensures
        d.lifetimes@.len() == g.num_nodes(),
        forall|q: int|
            0 <= q < g.num_nodes() ==> {
                let order = point_order(g, kind);
                let s = morse_state(g, kind);
                let e = #[trigger] d.lifetimes@[q];
                &&& e.0 == g.ids[order[q] as int]
                &&& e.1 == s.data[q]->Some_0.lifetime
                &&& (e.1 is Infinite <==> is_extremum(g, kind, order, q) && s.data[q]->Some_0.merge_parent is None)
                &&& (is_extremum(g, kind, order, q) ==> (e.1 is Infinite <==> s.labels[q] == q))
                &&& (e.1 is Zero <==> !is_extremum(g, kind, order, q))
                &&& (s.data[q]->Some_0.merge_parent is Some <==> e.1 is Span)
                &&& (e.1 is Span ==> exists|b: int|
                    #[trigger] merged_at(g, kind, order, q, b) && e.1 == Persistence::Span(order[q], order[b])
                        && at_least_as_extreme(kind, g.values[order[q] as int], g.values[order[b] as int]))
            },
{
    let order = point_order(g, kind);
    let s = morse_state(g, kind);
    lemma_complete(g, kind);
    lemma_order_sorted(g, kind, order);
    lemma_span_ends_at_merge(g, kind);
    lemma_survivors_after(g, kind, order, g.num_nodes() as int);
    assert forall|q: int| 0 <= q < g.num_nodes() implies {
        let e = #[trigger] d.lifetimes@[q];
        &&& e.0 == g.ids[order[q] as int]
        &&& e.1 == s.data[q]->Some_0.lifetime
        &&& (e.1 is Infinite <==> is_extremum(g, kind, order, q) && s.data[q]->Some_0.merge_parent is None)
        &&& (is_extremum(g, kind, order, q) ==> (e.1 is Infinite <==> s.labels[q] == q))
        &&& (e.1 is Zero <==> !is_extremum(g, kind, order, q))
        &&& (s.data[q]->Some_0.merge_parent is Some <==> e.1 is Span)
        &&& (e.1 is Span ==> exists|b: int|
            #[trigger] merged_at(g, kind, order, q, b) && e.1 == Persistence::Span(order[q], order[b])
                && at_least_as_extreme(kind, g.values[order[q] as int], g.values[order[b] as int]))
    } by {
        let dq = s.data[q]->Some_0;
        assert(point_facts(g, kind, order, dq, q));
        if dq.lifetime is Span {
            let b = position_of(order, dq.lifetime->Span_1 as int);
            assert(at_least_as_extreme(kind, g.values[order[q] as int], g.values[order[b] as int]));
            assert(merged_at(g, kind, order, q, b));
        }
    }
}

/// In the exported data of the Morse complex of a graph, the cell map pairs
/// each point with its ancestor, both by their identifiers; the ancestor is an
/// extremum taken no later than the point, paired with itself, and every
/// extremum is paired with itself.
pub proof fn lemma_exported_cells(g: GraphModel, kind: MorseKind, c: MorseComplex, d: MorseComplexData)
    requires
        g.well_formed(),
        c.is_built_from(g, kind),
        d.data_of(g, c),
    ensures
        d.complex@.len() == g.num_nodes(),
        forall|q: int|
            0 <= q < g.num_nodes() ==> {
                let order = point_order(g, kind);
                let s = morse_state(g, kind);
                let a = position_of(order, s.data[q]->Some_0.ancestor as int);
                let e = #[trigger] d.complex@[q];
                &&& e == (g.ids[order[q] as int], g.ids[s.data[q]->Some_0.ancestor as int])
                &&& 0 <= a <= q
                &&& is_extremum(g, kind, order, a)
                &&& e.1 == g.ids[order[a] as int]
                &&& d.complex@[a] == (g.ids[order[a] as int], g.ids[order[a] as int])
                &&& (is_extremum(g, kind, order, q) ==> e == (g.ids[order[q] as int], g.ids[order[q] as int]))
            },
{
    let order = point_order(g, kind);
    let s = morse_state(g, kind);
    lemma_complete(g, kind);
    assert forall|q: int| 0 <= q < g.num_nodes() implies {
        let a = position_of(order, s.data[q]->Some_0.ancestor as int);
        let e = #[trigger] d.complex@[q];
        &&& e == (g.ids[order[q] as int], g.ids[s.data[q]->Some_0.ancestor as int])
        &&& 0 <= a <= q
        &&& is_extremum(g, kind, order, a)
        &&& e.1 == g.ids[order[a] as int]
        &&& d.complex@[a] == (g.ids[order[a] as int], g.ids[order[a] as int])
        &&& (is_extremum(g, kind, order, q) ==> e == (g.ids[order[q] as int], g.ids[order[q] as int]))
    } by {
        assert(point_facts(g, kind, order, s.data[q]->Some_0, q));
        let a = position_of(order, s.data[q]->Some_0.ancestor as int);
        assert(point_facts(g, kind, order, s.data[a]->Some_0, a));
    }
}

/// The filtration step that records the merge of the extremum at position `q`
/// of `order`, whose record is `d`.
pub open spec fn merge_step(order: Seq<usize>, d: MorseData, q: int) -> MorseFiltrationStep {
    MorseFiltrationStep { time: d.lifetime, destroyed_cell: order[q], owning_cell: d.merge_parent->Some_0 }
}

/// The filtration of the Morse complex of a graph has a step for each
/// extremum merged into another cell, and for nothing else: the step holds
/// the extremum's persistence, the extremum itself as the destroyed cell and
/// its merge parent as the owning cell.
pub proof fn lemma_filtration_lists_merges(g: GraphModel, kind: MorseKind)
    requires
        g.well_formed(),
    ensures
        forall|j: int|
            #![trigger filtration_prefix(point_order(g, kind), morse_state(g, kind).data, g.num_nodes() as int)[j]]
            0 <= j < filtration_prefix(point_order(g, kind), morse_state(g, kind).data, g.num_nodes() as int).len() ==> exists|q: int|
                #![trigger morse_state(g, kind).data[q]]
                0 <= q < g.num_nodes() && is_extremum(g, kind, point_order(g, kind), q)
                    && morse_state(g, kind).data[q]->Some_0.lifetime is Span
                    && filtration_prefix(point_order(g, kind), morse_state(g, kind).data, g.num_nodes() as int)[j]
                    == merge_step(point_order(g, kind), morse_state(g, kind).data[q]->Some_0, q),
        forall|q: int|
            0 <= q < g.num_nodes() && (#[trigger] morse_state(g, kind).data[q])->Some_0.merge_parent is Some
                ==> filtration_prefix(point_order(g, kind), morse_state(g, kind).data, g.num_nodes() as int).contains(
                merge_step(point_order(g, kind), morse_state(g, kind).data[q]->Some_0, q),
            ),
{
    let order = point_order(g, kind);
    let s = morse_state(g, kind);
    let n = g.num_nodes() as int;
    lemma_complete(g, kind);
    crate::model::lemma_filtration_entries(order, s.data, n);
    let f = filtration_prefix(order, s.data, n);
    assert forall|j: int| #![trigger f[j]] 0 <= j < f.len() implies exists|q: int|
        #![trigger s.data[q]]
        0 <= q < n && is_extremum(g, kind, order, q) && s.data[q]->Some_0.lifetime is Span && f[j] == merge_step(
            order,
            s.data[q]->Some_0,
            q,
        ) by {
        let q = choose|q: int|
            #![trigger s.data[q]]
            0 <= q < n && s.data[q] is Some && s.data[q]->Some_0.merge_parent is Some && f[j] == (MorseFiltrationStep {
                time: s.data[q]->Some_0.lifetime,
                destroyed_cell: order[q],
                owning_cell: s.data[q]->Some_0.merge_parent->Some_0,
            });
        assert(point_facts(g, kind, order, s.data[q]->Some_0, q));
    }
    assert forall|q: int| 0 <= q < n && (#[trigger] s.data[q])->Some_0.merge_parent is Some implies f.contains(
        merge_step(order, s.data[q]->Some_0, q),
    ) by {
        assert(s.data[q] is Some);
    }
}
} // verus!
