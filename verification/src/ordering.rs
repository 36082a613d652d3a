//! Stable ordering of indices by integer keys.

use vstd::prelude::*;

verus! {

/// `u` comes strictly before `v` when the indices are ordered by `keys`
/// (descending or ascending), ties being broken by the smaller index.
pub open spec fn precedes(keys: Seq<i64>, descending: bool, u: int, v: int) -> bool {
    if keys[u] == keys[v] {
        u < v
    } else if descending {
        keys[u] > keys[v]
    } else {
        keys[u] < keys[v]
    }
}

/// `order` lists every index of `keys` once, in the stable order of their keys.
pub open spec fn is_stable_order(keys: Seq<i64>, descending: bool, order: Seq<usize>) -> bool {
    &&& order.len() == keys.len()
    &&& forall|i: int| 0 <= i < order.len() ==> #[trigger] order[i] < keys.len()
    &&& forall|v: usize| v < keys.len() ==> #[trigger] order.contains(v)
    &&& forall|i: int, j: int|
        0 <= i < j < order.len() ==> precedes(keys, descending, #[trigger] order[i] as int, #[trigger] order[j] as int)
}

/// The stable order of the indices of `keys` (there is exactly one, see
/// `lemma_stable_order_unique`).
pub open spec fn stable_order(keys: Seq<i64>, descending: bool) -> Seq<usize> {
    choose|order: Seq<usize>| is_stable_order(keys, descending, order)
}

proof fn lemma_agree_up_to(keys: Seq<i64>, descending: bool, p: Seq<usize>, q: Seq<usize>, k: int)
    requires
        is_stable_order(keys, descending, p),
        is_stable_order(keys, descending, q),
        0 <= k <= p.len(),
    ensures
        forall|i: int| 0 <= i < k ==> p[i] == q[i],
    decreases k,
{
    if k > 0 {
        let i = k - 1;
        lemma_agree_up_to(keys, descending, p, q, i);
        assert(p[i] < keys.len());
        assert(q.contains(p[i]));
        let j = choose|j: int| 0 <= j < q.len() && q[j] == p[i];
        assert(q[i] < keys.len());
        assert(p.contains(q[i]));
        let j2 = choose|j2: int| 0 <= j2 < p.len() && p[j2] == q[i];
        if j < i {
            assert(q[j] == p[j]);
            assert(precedes(keys, descending, p[j] as int, p[i] as int));
        } else if j > i {
            assert(precedes(keys, descending, q[i] as int, q[j] as int));
            if j2 < i {
                assert(p[j2] == q[j2]);
                assert(precedes(keys, descending, q[j2] as int, q[i] as int));
            } else if j2 > i {
                assert(precedes(keys, descending, p[i] as int, p[j2] as int));
            }
        }
    }
}

/// There is only one stable order of a sequence of keys.
pub proof fn lemma_stable_order_unique(keys: Seq<i64>, descending: bool, p: Seq<usize>, q: Seq<usize>)
    requires
        is_stable_order(keys, descending, p),
        is_stable_order(keys, descending, q),
    ensures
        p == q,
{
    lemma_agree_up_to(keys, descending, p, q, p.len() as int);
    assert(p =~= q);
}

/// Whether index `u` comes strictly before index `v`.
pub fn comes_before(keys: &Vec<i64>, descending: bool, u: usize, v: usize) -> (r: bool)
    requires
        u < keys.len(),
        v < keys.len(),
    ensures
        r == precedes(keys@, descending, u as int, v as int),
{
    if keys[u] == keys[v] {
        u < v
    } else if descending {
        keys[u] > keys[v]
    } else {
        keys[u] < keys[v]
    }
}

/// `order` lists the indices below `i` once each, in stable order.
pub open spec fn is_stable_prefix_order(keys: Seq<i64>, descending: bool, order: Seq<usize>, i: int) -> bool {
    &&& order.len() == i
    &&& forall|a: int| 0 <= a < order.len() ==> #[trigger] order[a] < i
    &&& forall|v: usize| v < i ==> #[trigger] order.contains(v)
    &&& forall|a: int, b: int|
        0 <= a < b < order.len() ==> precedes(keys, descending, #[trigger] order[a] as int, #[trigger] order[b] as int)
}

/// Inserting index `i` after every index that precedes it and before every
/// index that it precedes extends a stable order of the indices below `i` to
/// one of the indices below `i + 1`.
proof fn lemma_insert_next(keys: Seq<i64>, descending: bool, order: Seq<usize>, i: int, j: int)
    requires
        is_stable_prefix_order(keys, descending, order, i),
        0 <= i <= usize::MAX,
        0 <= j <= order.len(),
        forall|a: int| 0 <= a < j ==> precedes(keys, descending, #[trigger] order[a] as int, i),
        j < order.len() ==> precedes(keys, descending, i, order[j] as int),
    ensures
        is_stable_prefix_order(keys, descending, order.insert(j, i as usize), i + 1),
{
    let old_order = order;
    old_order.insert_ensures(j, i as usize);
    assert forall|b: int| j <= b < old_order.len() implies precedes(keys, descending, i, #[trigger] old_order[b] as int) by {
        if b > j {
            assert(precedes(keys, descending, old_order[j] as int, old_order[b] as int));
        }
    }
    let s = order.insert(j, i as usize);
    assert forall|a: int, b: int| 0 <= a < b < s.len() implies precedes(keys, descending, #[trigger] s[a] as int, #[trigger] s[b] as int) by {
        if b < j {
            assert(s[a] == old_order[a] && s[b] == old_order[b]);
        } else if b == j {
            assert(s[a] == old_order[a]);
        } else if a < j {
            assert(s[a] == old_order[a] && s[b] == old_order[b - 1]);
            assert(precedes(keys, descending, s[a] as int, i));
            assert(precedes(keys, descending, i, s[b] as int));
        } else if a == j {
            assert(s[b] == old_order[b - 1]);
        } else {
            assert(s[a] == old_order[a - 1] && s[b] == old_order[b - 1]);
        }
    }
    assert forall|v: usize| v < i + 1 implies #[trigger] s.contains(v) by {
        if v == i {
            assert(s[j] == i);
        } else {
            assert(old_order.contains(v));
            let k = choose|k: int| 0 <= k < old_order.len() && old_order[k] == v;
            if k < j {
                assert(s[k] == v);
            } else {
                assert(s[k + 1] == v);
            }
        }
    }
    assert forall|a: int| 0 <= a < s.len() implies #[trigger] s[a] < i + 1 by {
        if a < j {
            assert(s[a] == old_order[a]);
        } else if a > j {
            assert(s[a] == old_order[a - 1]);
        }
    }
}

/// The first position from `j` on whose index `i` precedes, or the end.
pub open spec fn insertion_point(keys: Seq<i64>, descending: bool, order: Seq<usize>, i: int, j: int) -> int
    decreases order.len() - j,
{
    if j >= order.len() || precedes(keys, descending, i, order[j] as int) {
        j
    } else {
        insertion_point(keys, descending, order, i, j + 1)
    }
}

proof fn lemma_insertion_point(keys: Seq<i64>, descending: bool, order: Seq<usize>, i: int, j: int)
    requires
        is_stable_prefix_order(keys, descending, order, i),
        0 <= j <= order.len(),
        forall|a: int| 0 <= a < j ==> precedes(keys, descending, #[trigger] order[a] as int, i),
    ensures
        j <= insertion_point(keys, descending, order, i, j) <= order.len(),
        forall|a: int| 0 <= a < insertion_point(keys, descending, order, i, j) ==> precedes(keys, descending, #[trigger] order[a] as int, i),
        insertion_point(keys, descending, order, i, j) < order.len() ==> precedes(
            keys,
            descending,
            i,
            order[insertion_point(keys, descending, order, i, j)] as int,
        ),
    decreases order.len() - j,
{
    if j < order.len() && !precedes(keys, descending, i, order[j] as int) {
        assert(order[j] < i);
        lemma_insertion_point(keys, descending, order, i, j + 1);
    }
}

/// The stable order of the indices below `i`, built by insertion.
pub open spec fn stable_prefix(keys: Seq<i64>, descending: bool, i: int) -> Seq<usize>
    decreases i,
{
    if i <= 0 {
        Seq::empty()
    } else {
        let o = stable_prefix(keys, descending, i - 1);
        o.insert(insertion_point(keys, descending, o, i - 1, 0), (i - 1) as usize)
    }
}

proof fn lemma_stable_prefix(keys: Seq<i64>, descending: bool, i: int)
    requires
        0 <= i <= keys.len(),
        keys.len() <= usize::MAX,
    ensures
        is_stable_prefix_order(keys, descending, stable_prefix(keys, descending, i), i),
    decreases i,
{
    if i > 0 {
        lemma_stable_prefix(keys, descending, i - 1);
        let o = stable_prefix(keys, descending, i - 1);
        lemma_insertion_point(keys, descending, o, i - 1, 0);
        lemma_insert_next(keys, descending, o, i - 1, insertion_point(keys, descending, o, i - 1, 0));
    }
}

/// Every sequence of keys has a stable order: the indices sorted by key,
/// equal keys by index.
pub proof fn lemma_stable_order_exists(keys: Seq<i64>, descending: bool)
    requires
        keys.len() <= usize::MAX,
    ensures
        is_stable_order(keys, descending, stable_order(keys, descending)),
{
    lemma_stable_prefix(keys, descending, keys.len() as int);
    let o = stable_prefix(keys, descending, keys.len() as int);
    assert(is_stable_order(keys, descending, o));
}

/// The indices of `keys` in stable order: by descending or ascending key, and
/// by index among equal keys.
pub fn stable_sort_indices(keys: &Vec<i64>, descending: bool) -> (order: Vec<usize>)
    ensures
        is_stable_order(keys@, descending, order@),
        order@ == stable_order(keys@, descending),
{
    let n = keys.len();
    let mut order: Vec<usize> = Vec::new();
    let mut i: usize = 0;
    while i < n
        invariant
            n == keys.len(),
            0 <= i <= n,
            is_stable_prefix_order(keys@, descending, order@, i as int),
        decreases n - i,
    {
        let mut j: usize = 0;
        while j < order.len()
            invariant
                n == keys.len(),
                i < n,
                order.len() == i,
                0 <= j <= order.len(),
                forall|a: int| 0 <= a < order.len() ==> #[trigger] order[a] < i,
                forall|a: int| 0 <= a < j ==> precedes(keys@, descending, #[trigger] order[a] as int, i as int),
            ensures
                0 <= j <= order.len(),
                forall|a: int| 0 <= a < j ==> precedes(keys@, descending, #[trigger] order[a] as int, i as int),
                j < order.len() ==> precedes(keys@, descending, i as int, order[j as int] as int),
            decreases order.len() - j,
        {
            if comes_before(keys, descending, i, order[j]) {
                break;
            }
            j = j + 1;
        }
        proof {
            lemma_insert_next(keys@, descending, order@, i as int, j as int);
        }
        order.insert(j, i);
        i = i + 1;
    }
    proof {
        assert(is_stable_order(keys@, descending, order@));
        lemma_stable_order_unique(keys@, descending, order@, stable_order(keys@, descending));
    }
    order
}

} // verus!
