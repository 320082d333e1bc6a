use vstd::prelude::*;
use std::cmp::Ordering;
use crate::phylo::{
    Phylo, iso, cmp_shape, cmp_children, cmp_labelled, cmp_labelled_children, lemma_child_decreases,
};

verus! {

/// The label of a leaf of a shape: it carries no information.
#[derive(Copy, Clone, PartialEq, Eq, Structural, Ord, Debug)]
pub struct Tip {}

/// All tips are equal.
impl PartialOrd for Tip {
    fn partial_cmp(&self, other: &Tip) -> (r: Option<Ordering>) {
        Some(Ordering::Equal)
    }
}

impl vstd::std_specs::cmp::PartialOrdSpecImpl for Tip {
    open spec fn obeys_partial_cmp_spec() -> bool {
        true
    }

    open spec fn partial_cmp_spec(&self, other: &Tip) -> Option<Ordering> {
        Some(Ordering::Equal)
    }
}

/// A tree shape: a tree whose leaves carry no labels.
pub type Shape = Phylo<Tip>;

impl Phylo<Tip> {
    /// The one-leaf shape.
    pub fn leaf() -> (r: Shape)
        ensures
            r == Phylo::Leaf(Tip {}),
    {
        Phylo::Leaf(Tip {})
    }

    /// The shape with two leaves under one root.
    pub fn cherry() -> (r: Shape)
        ensures
            r is Node,
            r->Node_0@.len() == 2,
            r->Node_0@[0] is Leaf,
            r->Node_0@[1] is Leaf,
    {
        let mut ts: Vec<Shape> = Vec::new();
        ts.push(Self::leaf());
        ts.push(Self::leaf());
        Phylo::Node(ts)
    }
}

impl<T> Phylo<T> {
    /// The shape of the tree: the same structure with the labels erased.
    pub fn clone_shape(&self) -> (r: Shape)
        ensures
            iso(r, *self),
        decreases self,
    {
        match self {
            Phylo::Leaf(_) => Shape::leaf(),
            Phylo::Node(ts) => {
                let mut out: Vec<Shape> = Vec::new();
                let mut i: usize = 0;
                while i < ts.len()
                    invariant
                        *self == Phylo::Node(*ts),
                        i <= ts@.len(),
                        out@.len() == i,
                        forall|j: int| 0 <= j < i ==> iso(#[trigger] out@[j], ts@[j]),
                    decreases ts@.len() - i,
                {
                    proof {
                        lemma_child_decreases(*self, i as int);
                    }
                    let c = ts[i].clone_shape();
                    out.push(c);
                    i = i + 1;
                }
                proof {
                    lemma_iso_node(out, *ts);
                }
                Phylo::Node(out)
            },
        }
    }
}

/// Two internal nodes whose children are isomorphic position by position are
/// isomorphic.
pub proof fn lemma_iso_node<T, U>(xs: Vec<Phylo<T>>, ys: Vec<Phylo<U>>)
    requires
        xs@.len() == ys@.len(),
        forall|j: int| 0 <= j < xs@.len() ==> iso(#[trigger] xs@[j], ys@[j]),
    ensures
        iso(Phylo::Node(xs), Phylo::Node(ys)),
{
    let a = Phylo::<T>::Node(xs);
    let b = Phylo::<U>::Node(ys);
    assert(a->Node_0 == xs);
    assert(b->Node_0 == ys);
}

/// On shapes the labelled order is the canonical order of shapes: so
/// `Phylo::cmp` and `Phylo::cmp_shape_grlex` agree on them.
pub proof fn lemma_shape_orders_agree(a: Shape, b: Shape)
    ensures
        cmp_labelled(a, b) == cmp_shape(a, b),
    decreases a,
{
    if let (Phylo::Node(xs), Phylo::Node(ys)) = (a, b) {
        if xs@.len() == ys@.len() {
            assert(decreases_to!(a => xs));
            lemma_children_orders_agree(xs@, ys@, 0);
        }
    }
}

proof fn lemma_children_orders_agree(xs: Seq<Shape>, ys: Seq<Shape>, i: int)
    requires
        0 <= i <= xs.len(),
    ensures
        cmp_labelled_children(xs, ys, i) == cmp_children(xs, ys, i),
    decreases xs, xs.len() - i,
{
    if i < xs.len() && i < ys.len() {
        lemma_shape_orders_agree(xs[i], ys[i]);
        lemma_children_orders_agree(xs, ys, i + 1);
    }
}

} // verus!
