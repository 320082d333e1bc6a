use vstd::prelude::*;
use std::cmp::Ordering;
use crate::phylo::{Phylo, iso, cmp_shape, cmp_children, lemma_child_decreases};

verus! {

/// The opposite outcome of a comparison.
pub open spec fn flip(o: Ordering) -> Ordering {
    match o {
        Ordering::Less => Ordering::Greater,
        Ordering::Greater => Ordering::Less,
        Ordering::Equal => Ordering::Equal,
    }
}

proof fn lemma_children_decrease<T>(t: Phylo<T>)
    requires
        t is Node,
    ensures
        decreases_to!(t => t->Node_0@),
{
    let ts = t->Node_0;
    assert(decreases_to!(t => ts));
}

/// The canonical order says `Equal` exactly of isomorphic trees.
pub proof fn lemma_cmp_equal_iff_iso<T>(a: Phylo<T>, b: Phylo<T>)
    ensures
        (cmp_shape(a, b) == Ordering::Equal) == iso(a, b),
    decreases a,
{
    if let (Phylo::Node(xs), Phylo::Node(ys)) = (a, b) {
        if xs@.len() == ys@.len() {
            lemma_children_decrease(a);
            lemma_children_equal_iff_iso(xs@, ys@, 0);
            assert((cmp_shape(a, b) == Ordering::Equal) == iso(a, b));
        }
    }
}

proof fn lemma_children_equal_iff_iso<T>(xs: Seq<Phylo<T>>, ys: Seq<Phylo<T>>, i: int)
    requires
        xs.len() == ys.len(),
        0 <= i <= xs.len(),
    ensures
        (cmp_children(xs, ys, i) == Ordering::Equal) == (forall|j: int|
            i <= j < xs.len() ==> iso(#[trigger] xs[j], ys[j])),
    decreases xs, xs.len() - i,
{
    if i < xs.len() {
        lemma_cmp_equal_iff_iso(xs[i], ys[i]);
        lemma_children_equal_iff_iso(xs, ys, i + 1);
        if cmp_children(xs, ys, i) == Ordering::Equal {
            assert forall|j: int| i <= j < xs.len() implies iso(#[trigger] xs[j], ys[j]) by {
                if j > i {
                }
            }
        }
    }
}

/// Comparing the other way round gives the opposite outcome.
pub proof fn lemma_cmp_antisymmetric<T>(a: Phylo<T>, b: Phylo<T>)
    ensures
        cmp_shape(b, a) == flip(cmp_shape(a, b)),
    decreases a,
{
    if let (Phylo::Node(xs), Phylo::Node(ys)) = (a, b) {
        if xs@.len() == ys@.len() {
            lemma_children_decrease(a);
            lemma_children_antisymmetric(xs@, ys@, 0);
        }
    }
}

proof fn lemma_children_antisymmetric<T>(xs: Seq<Phylo<T>>, ys: Seq<Phylo<T>>, i: int)
    requires
        xs.len() == ys.len(),
        0 <= i <= xs.len(),
    ensures
        cmp_children(ys, xs, i) == flip(cmp_children(xs, ys, i)),
    decreases xs, xs.len() - i,
{
    if i < xs.len() {
        lemma_cmp_antisymmetric(xs[i], ys[i]);
        lemma_children_antisymmetric(xs, ys, i + 1);
    }
}

/// A tree compared with itself is `Equal`.
pub proof fn lemma_cmp_reflexive<T>(a: Phylo<T>)
    ensures
        cmp_shape(a, a) == Ordering::Equal,
{
    lemma_cmp_antisymmetric(a, a);
}

/// Trees that compare `Equal` compare alike with every third tree.
pub proof fn lemma_cmp_congruent<T>(a: Phylo<T>, b: Phylo<T>, c: Phylo<T>)
    requires
        cmp_shape(a, b) == Ordering::Equal,
    ensures
        cmp_shape(a, c) == cmp_shape(b, c),
    decreases a,
{
    if let (Phylo::Node(xs), Phylo::Node(ys), Phylo::Node(zs)) = (a, b, c) {
        if xs@.len() == zs@.len() {
            lemma_children_decrease(a);
            lemma_children_congruent(xs@, ys@, zs@, 0);
        }
    }
}

proof fn lemma_children_congruent<T>(
    xs: Seq<Phylo<T>>,
    ys: Seq<Phylo<T>>,
    zs: Seq<Phylo<T>>,
    i: int,
)
    requires
        xs.len() == ys.len() == zs.len(),
        0 <= i <= xs.len(),
        cmp_children(xs, ys, i) == Ordering::Equal,
    ensures
        cmp_children(xs, zs, i) == cmp_children(ys, zs, i),
    decreases xs, xs.len() - i,
{
    if i < xs.len() {
        lemma_cmp_congruent(xs[i], ys[i], zs[i]);
        lemma_children_congruent(xs, ys, zs, i + 1);
    }
}

/// The canonical order is transitive.
pub proof fn lemma_cmp_transitive<T>(a: Phylo<T>, b: Phylo<T>, c: Phylo<T>)
    requires
        cmp_shape(a, b) == Ordering::Less,
        cmp_shape(b, c) == Ordering::Less,
    ensures
        cmp_shape(a, c) == Ordering::Less,
    decreases a,
{
    if let (Phylo::Node(xs), Phylo::Node(ys), Phylo::Node(zs)) = (a, b, c) {
        if xs@.len() == ys@.len() && ys@.len() == zs@.len() {
            lemma_children_decrease(a);
            lemma_children_transitive(xs@, ys@, zs@, 0);
        }
    }
}

proof fn lemma_children_transitive<T>(
    xs: Seq<Phylo<T>>,
    ys: Seq<Phylo<T>>,
    zs: Seq<Phylo<T>>,
    i: int,
)
    requires
        xs.len() == ys.len() == zs.len(),
        0 <= i <= xs.len(),
        cmp_children(xs, ys, i) == Ordering::Less,
        cmp_children(ys, zs, i) == Ordering::Less,
    ensures
        cmp_children(xs, zs, i) == Ordering::Less,
    decreases xs, xs.len() - i,
{
    if i < xs.len() {
        let p = cmp_shape(xs[i], ys[i]);
        let q = cmp_shape(ys[i], zs[i]);
        if p == Ordering::Less && q == Ordering::Less {
            lemma_cmp_transitive(xs[i], ys[i], zs[i]);
        } else if p == Ordering::Less {
            lemma_cmp_antisymmetric(ys[i], zs[i]);
            lemma_cmp_congruent(zs[i], ys[i], xs[i]);
            lemma_cmp_antisymmetric(xs[i], zs[i]);
            lemma_cmp_antisymmetric(xs[i], ys[i]);
        } else if q == Ordering::Less {
            lemma_cmp_congruent(xs[i], ys[i], zs[i]);
        } else {
            lemma_cmp_congruent(xs[i], ys[i], zs[i]);
            lemma_children_transitive(xs, ys, zs, i + 1);
        }
    }
}

/// Isomorphism is an equivalence: reflexive, symmetric and transitive.
pub proof fn lemma_iso_equivalence<T>(a: Phylo<T>, b: Phylo<T>, c: Phylo<T>)
    ensures
        iso(a, a),
        iso(a, b) ==> iso(b, a),
        iso(a, b) && iso(b, c) ==> iso(a, c),
{
    lemma_cmp_reflexive(a);
    lemma_cmp_equal_iff_iso(a, a);
    lemma_cmp_equal_iff_iso(a, b);
    lemma_cmp_equal_iff_iso(b, a);
    lemma_cmp_equal_iff_iso(b, c);
    lemma_cmp_equal_iff_iso(a, c);
    lemma_cmp_antisymmetric(a, b);
    if iso(a, b) {
        lemma_cmp_congruent(a, b, c);
    }
}

/// The canonical order is a total order: reflexive, antisymmetric,
/// transitive and total, and it says `Equal` exactly of isomorphic trees.
pub proof fn lemma_cmp_total_order<T>(a: Phylo<T>, b: Phylo<T>, c: Phylo<T>)
    ensures
        cmp_shape(a, a) == Ordering::Equal,
        cmp_shape(b, a) == flip(cmp_shape(a, b)),
        cmp_shape(a, b) != Ordering::Greater && cmp_shape(b, c) != Ordering::Greater
            ==> cmp_shape(a, c) != Ordering::Greater,
        cmp_shape(a, b) == Ordering::Less && cmp_shape(b, c) != Ordering::Greater
            ==> cmp_shape(a, c) == Ordering::Less,
        (cmp_shape(a, b) == Ordering::Equal) == iso(a, b),
{
    lemma_cmp_reflexive(a);
    lemma_cmp_antisymmetric(a, b);
    lemma_cmp_equal_iff_iso(a, b);
    if cmp_shape(a, b) == Ordering::Equal {
        lemma_cmp_congruent(a, b, c);
    } else if cmp_shape(a, b) == Ordering::Less {
        if cmp_shape(b, c) == Ordering::Less {
            lemma_cmp_transitive(a, b, c);
        } else if cmp_shape(b, c) == Ordering::Equal {
            lemma_cmp_antisymmetric(b, c);
            lemma_cmp_congruent(c, b, a);
            lemma_cmp_antisymmetric(a, c);
        }
    }
}

} // verus!
