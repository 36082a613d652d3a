//! A union-find over `0..n` whose classes carry labels, where a union always
//! keeps the label of the class of its first argument.

use petgraph::unionfind::UnionFind;
use vstd::prelude::*;

verus! {

#[verifier::external_type_specification]
#[verifier::external_body]
#[verifier::reject_recursive_types(K)]
pub struct ExUnionFind<K>(UnionFind<K>);

/// The representative that `petgraph::unionfind::UnionFind::find` returns for
/// each element of `uf`, in element order.
pub uninterp spec fn union_find_reps(uf: UnionFind<usize>) -> Seq<usize>;

/// Calls `UnionFind::new(n)`: `n` singleton sets, each element its own
/// representative (the source sets `parent[i] = i`).
#[verifier::external_body]
fn union_find_new(n: usize) -> (uf: UnionFind<usize>)
    ensures
        union_find_reps(uf) == Seq::new(n as nat, |i: int| i as usize),
{
    UnionFind::new(n)
}

/// Calls `UnionFind::find`, which returns the representative of `x` and
/// panics when `x` is out of bounds.
#[verifier::external_body]
fn union_find_find(uf: &UnionFind<usize>, x: usize) -> (r: usize)
    requires
        x < union_find_reps(*uf).len(),
    ensures
        r == union_find_reps(*uf)[x as int],
{
    uf.find(x)
}

/// Calls `UnionFind::union`, which panics when `x` or `y` is out of bounds.
/// When the representatives of `x` and `y` differ, the source links one of the
/// two roots under the other (which one depends on the ranks): every element of
/// the two classes then has that root as its representative and every other
/// element keeps its own; it returns whether the classes differed. Which of the
/// two roots survives is left open here.
#[verifier::external_body]
fn union_find_union(uf: &mut UnionFind<usize>, x: usize, y: usize) -> (r: bool)
    requires
        x < union_find_reps(*old(uf)).len(),
        y < union_find_reps(*old(uf)).len(),
    ensures
        union_find_reps(*final(uf)).len() == union_find_reps(*old(uf)).len(),
        r == (union_find_reps(*old(uf))[x as int] != union_find_reps(*old(uf))[y as int]),
        union_find_reps(*final(uf))[x as int] == union_find_reps(*old(uf))[x as int]
            || union_find_reps(*final(uf))[x as int] == union_find_reps(*old(uf))[y as int],
        forall|e: int|
            0 <= e < union_find_reps(*old(uf)).len() ==> #[trigger] union_find_reps(*final(uf))[e] == (
            if union_find_reps(*old(uf))[e] == union_find_reps(*old(uf))[x as int]
                || union_find_reps(*old(uf))[e] == union_find_reps(*old(uf))[y as int] {
                union_find_reps(*final(uf))[x as int]
            } else {
                union_find_reps(*old(uf))[e]
            }),
{
    uf.union(x, y)
}

/// A union-find over `0..n` whose classes carry labels in `0..n`. Each class
/// starts labelled with its single element; `union(x, y)` merges the classes of
/// `x` and `y` under the label of the class of `x`.
pub struct PointedUnionFind {
    unionfind: UnionFind<usize>,
    reprs: Vec<usize>,
}

impl PointedUnionFind {
    spec fn reps(&self) -> Seq<usize> {
        union_find_reps(self.unionfind)
    }

    /// The label of the class of each element.
    pub closed spec fn labels(&self) -> Seq<usize> {
        Seq::new(self.reprs@.len(), |e: int| self.reprs@[self.reps()[e] as int])
    }

    /// Elements `a` and `b` are in the same class of the inner union-find.
    pub closed spec fn same_class(&self, a: int, b: int) -> bool {
        self.reps()[a] == self.reps()[b]
    }

    /// The inner structure is consistent: every element has a representative
    /// that is its own representative, the label of a class is one of its
    /// elements, and distinct classes carry distinct labels.
    pub closed spec fn wf(&self) -> bool {
        let n = self.reprs@.len();
        &&& self.reps().len() == n
        &&& forall|e: int| 0 <= e < n ==> #[trigger] self.reps()[e] < n
        &&& forall|e: int| 0 <= e < n ==> #[trigger] self.reps()[self.reps()[e] as int] == self.reps()[e]
        &&& forall|e: int| 0 <= e < n ==> #[trigger] self.reprs@[e] < n
        &&& forall|e: int| 0 <= e < n ==> self.reps()[#[trigger] self.reprs@[self.reps()[e] as int] as int] == self.reps()[e]
        &&& forall|e1: int, e2: int|
            0 <= e1 < n && 0 <= e2 < n && #[trigger] self.reps()[e1] != #[trigger] self.reps()[e2]
                ==> self.reprs@[self.reps()[e1] as int] != self.reprs@[self.reps()[e2] as int]
    }

    /// The label of a class is one of its elements: every label lies in
    /// `0..n` and is its own label, and two elements carry the same label
    /// exactly when they are in the same class.
    pub proof fn lemma_labels(&self)
        requires
            self.wf(),
        ensures
            forall|a: int| 0 <= a < self.labels().len() ==> #[trigger] self.labels()[a] < self.labels().len()
                && self.labels()[self.labels()[a] as int] == self.labels()[a],
            forall|a: int, b: int|
                0 <= a < self.labels().len() && 0 <= b < self.labels().len() ==> (#[trigger] self.labels()[a]
                    == #[trigger] self.labels()[b] <==> self.same_class(a, b)),
    {
        let n = self.reprs@.len() as int;
        assert forall|a: int| 0 <= a < n implies #[trigger] self.labels()[a] < n && self.labels()[self.labels()[a] as int] == self.labels()[a] by {
            let r = self.reps()[a] as int;
            let l = self.reprs@[r] as int;
            assert(self.reps()[l] == self.reps()[a]);
        }
    }

    /// `n` singleton classes, each labelled by its element.
    pub fn new(n: usize) -> (r: Self)
        ensures
            r.wf(),
            r.labels() == Seq::new(n as nat, |e: int| e as usize),
    {
        let unionfind = union_find_new(n);
        let mut reprs: Vec<usize> = Vec::new();
        let mut i: usize = 0;
        while i < n
            invariant
                0 <= i <= n,
                reprs@ == Seq::new(i as nat, |e: int| e as usize),
            decreases n - i,
        {
            reprs.push(i);
            i = i + 1;
            proof {
                assert(reprs@ =~= Seq::new(i as nat, |e: int| e as usize));
            }
        }
        let r = PointedUnionFind { unionfind, reprs };
        proof {
            assert(r.labels() =~= Seq::new(n as nat, |e: int| e as usize));
        }
        r
    }

    /// The label of the class of `x`.
    pub fn find(&self, x: usize) -> (r: usize)
        requires
            self.wf(),
            x < self.labels().len(),
        ensures
            r == self.labels()[x as int],
    {
        let inner_repr = union_find_find(&self.unionfind, x);
        self.reprs[inner_repr]
    }

    /// Merges the classes of `x` and `y`; the merged class keeps the label that
    /// the class of `x` had, and every other class is left as it was.
    pub fn union(&mut self, x: usize, y: usize)
        requires
            old(self).wf(),
            x < old(self).labels().len(),
            y < old(self).labels().len(),
        ensures
            final(self).wf(),
            final(self).labels() == union_labels(old(self).labels(), x as int, y as int),
    {
        let ghost old_self = *self;
        let old_outer = self.find(x);
        union_find_union(&mut self.unionfind, x, y);
        let new_inner = union_find_find(&self.unionfind, x);
        self.reprs.set(new_inner, old_outer);
        proof {
            let n = old_self.reprs@.len();
            let or = old_self.reps();
            let nr = self.reps();
            let rx = or[x as int];
            let ry = or[y as int];
            assert forall|e: int| 0 <= e < n implies #[trigger] nr[e] < n && nr[nr[e] as int] == nr[e] by {
                assert(nr[e] == (if or[e] == rx || or[e] == ry { nr[x as int] } else { or[e] }));
                assert(or[rx as int] == rx);
                assert(or[ry as int] == ry);
                let r = nr[e] as int;
                assert(nr[r] == (if or[r] == rx || or[r] == ry { nr[x as int] } else { or[r] }));
            }
            assert forall|e: int| 0 <= e < n implies nr[#[trigger] self.reprs@[nr[e] as int] as int] == nr[e] by {
                assert(nr[e] == (if or[e] == rx || or[e] == ry { nr[x as int] } else { or[e] }));
                let r = nr[e] as int;
                let l = self.reprs@[r] as int;
                if r == new_inner as int {
                    assert(l == old_outer);
                    assert(or[old_outer as int] == rx);
                    assert(nr[l] == (if or[l] == rx || or[l] == ry { nr[x as int] } else { or[l] }));
                } else {
                    assert(or[rx as int] == rx);
                    assert(or[ry as int] == ry);
                    assert(r == or[e]);
                    assert(l == old_self.reprs@[r]);
                    assert(or[l] == or[r]);
                    assert(or[r] == r);
                    assert(nr[l] == (if or[l] == rx || or[l] == ry { nr[x as int] } else { or[l] }));
                }
            }
            assert forall|e1: int, e2: int|
                0 <= e1 < n && 0 <= e2 < n && #[trigger] nr[e1] != #[trigger] nr[e2]
                implies self.reprs@[nr[e1] as int] != self.reprs@[nr[e2] as int] by {
                assert(nr[e1] == (if or[e1] == rx || or[e1] == ry { nr[x as int] } else { or[e1] }));
                assert(nr[e2] == (if or[e2] == rx || or[e2] == ry { nr[x as int] } else { or[e2] }));
                if or[e1] != or[e2] {
                    assert(old_self.reprs@[or[e1] as int] != old_self.reprs@[or[e2] as int]);
                }
                if or[e1] == rx || or[e1] == ry {
                    if or[e2] != rx && or[e2] != ry {
                        assert(old_self.reprs@[or[x as int] as int] != old_self.reprs@[or[e2] as int]);
                    }
                }
                if or[e2] == rx || or[e2] == ry {
                    if or[e1] != rx && or[e1] != ry {
                        assert(old_self.reprs@[or[x as int] as int] != old_self.reprs@[or[e1] as int]);
                    }
                }
            }
            let ol = old_self.labels();
            assert forall|e: int| 0 <= e < n implies #[trigger] self.labels()[e] == union_labels(ol, x as int, y as int)[e] by {
                assert(nr[e] == (if or[e] == rx || or[e] == ry { nr[x as int] } else { or[e] }));
                if or[e] != rx && or[e] != ry {
                    assert(ol[e] != ol[x as int]);
                    assert(ol[e] != ol[y as int]);
                } else if or[e] == rx {
                    assert(ol[e] == ol[x as int]);
                } else {
                    assert(ol[e] == ol[y as int]);
                }
            }
            assert(self.labels() =~= union_labels(ol, x as int, y as int));
        }
    }
}

/// The labels after merging the classes of `x` and `y` under the label of `x`.
pub open spec fn union_labels(labels: Seq<usize>, x: int, y: int) -> Seq<usize> {
    Seq::new(labels.len(), |e: int| if labels[e] == labels[x] || labels[e] == labels[y] { labels[x] } else { labels[e] })
}

/// A union keeps the label of its first argument's class: after `union(x, y)`
/// every element that was in the class of `x` or of `y` carries the label that
/// `x` carried before, and every other element keeps its label.
pub proof fn lemma_union_keeps_left_label(labels: Seq<usize>, x: int, y: int)
    requires
        0 <= x < labels.len(),
        0 <= y < labels.len(),
    ensures
        union_labels(labels, x, y).len() == labels.len(),
        union_labels(labels, x, y)[x] == labels[x],
        union_labels(labels, x, y)[y] == labels[x],
        forall|e: int| 0 <= e < labels.len() && labels[e] == labels[y] ==> #[trigger] union_labels(labels, x, y)[e] == labels[x],
        forall|e: int| 0 <= e < labels.len() && labels[e] == labels[x] ==> #[trigger] union_labels(labels, x, y)[e] == labels[x],
        forall|e: int| 0 <= e < labels.len() && labels[e] != labels[x] && labels[e] != labels[y]
            ==> #[trigger] union_labels(labels, x, y)[e] == labels[e],
{
}

} // verus!
