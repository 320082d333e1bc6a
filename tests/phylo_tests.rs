use std::cmp::Ordering;

use biotrees::phylo::Phylo;
use biotrees::shape::Shape;
use biotrees::util::{binom2, factorial};

fn leaf() -> Shape {
    Shape::leaf()
}

fn node(children: Vec<Shape>) -> Shape {
    Shape::node(children)
}

fn cherry() -> Shape {
    node(vec![leaf(), leaf()])
}

fn caterpillar3() -> Shape {
    node(vec![leaf(), cherry()])
}

#[test]
fn leaf_and_node_queries() {
    let l = Phylo::leaf_with(7u32);
    assert!(l.is_leaf());
    assert_eq!(l.depth(), 0);
    let t = Phylo::node(vec![Phylo::leaf_with(1u32), Phylo::leaf_with(2u32)]);
    assert!(!t.is_leaf());
    assert_eq!(t.depth(), 1);
}

#[test]
fn leaves_and_depths_of_labelled_tree() {
    let t: Phylo<u32> = Phylo::node(vec![
        Phylo::leaf_with(1),
        Phylo::node(vec![Phylo::leaf_with(3)]),
        Phylo::node(vec![Phylo::leaf_with(4), Phylo::leaf_with(6), Phylo::leaf_with(8)]),
    ]);
    let leaves: Vec<u32> = t.get_leaves().into_iter().copied().collect();
    assert_eq!(leaves, vec![1, 3, 4, 6, 8]);
    assert_eq!(t.get_leaves_depths(), vec![1, 2, 2, 2, 2]);
    assert_eq!(t.depth(), 2);
}

#[test]
fn depth_of_caterpillar() {
    let t = caterpillar3();
    assert_eq!(t.depth(), 2);
    assert_eq!(t.get_leaves_depths(), vec![1, 2, 2]);
}

#[test]
fn isomorphism_is_an_equivalence_on_examples() {
    let a = cherry();
    let b = node(vec![leaf(), leaf()]);
    let c = Phylo::node(vec![Phylo::leaf_with(5u32), Phylo::leaf_with(9u32)]);
    assert!(a.isomorphic(&a));
    assert!(a.isomorphic(&b) && b.isomorphic(&a));
    assert!(a.isomorphic(&c) && c.isomorphic(&b));
    assert!(!a.isomorphic(&caterpillar3()));
    assert!(!leaf().isomorphic(&a));
}

#[test]
fn isomorphism_is_positional() {
    let x = node(vec![leaf(), cherry()]);
    let y = node(vec![cherry(), leaf()]);
    assert!(!x.isomorphic(&y));
}

#[test]
fn canonical_order_examples() {
    assert_eq!(leaf().cmp_shape_grlex(&leaf()), Ordering::Equal);
    assert_eq!(leaf().cmp_shape_grlex(&cherry()), Ordering::Less);
    assert_eq!(cherry().cmp_shape_grlex(&leaf()), Ordering::Greater);
    let star3 = node(vec![leaf(), leaf(), leaf()]);
    assert_eq!(caterpillar3().cmp_shape_grlex(&star3), Ordering::Less);
    assert_eq!(cherry().cmp_shape_grlex(&caterpillar3()), Ordering::Less);
    assert_eq!(caterpillar3().cmp_shape_grlex(&cherry()), Ordering::Greater);
    assert_eq!(caterpillar3().cmp_shape_grlex(&caterpillar3()), Ordering::Equal);
}

#[test]
fn canonical_order_agrees_with_isomorphism() {
    let shapes = vec![leaf(), cherry(), caterpillar3(), node(vec![leaf(), leaf(), leaf()])];
    for a in shapes.iter() {
        for b in shapes.iter() {
            let eq = a.cmp_shape_grlex(b) == Ordering::Equal;
            assert_eq!(eq, a.isomorphic(b));
            assert_eq!(a.cmp_shape_grlex(b), b.cmp_shape_grlex(a).reverse());
        }
    }
}

#[test]
fn fold_counts_leaves() {
    let t = caterpillar3();
    let count = |_: &Shape, rs: Vec<u32>| -> u32 { rs.iter().sum() };
    assert_eq!(t.fold(1u32, &count), 3);
    assert_eq!(leaf().fold(1u32, &count), 1);
}

#[test]
fn binary_fold_counts_internal_nodes() {
    let t = node(vec![cherry(), cherry()]);
    let f = |_: &Shape, a: u32, b: u32| -> u32 { a + b + 1 };
    assert_eq!(t.binary_fold(0u32, &f), 3);
}

#[test]
fn clone_shape_erases_labels() {
    let t: Phylo<u32> = Phylo::node(vec![Phylo::leaf_with(1), Phylo::leaf_with(2)]);
    assert_eq!(t.clone_shape(), cherry());
    assert_eq!(Shape::cherry(), cherry());
}

#[test]
fn binom2_values() {
    assert_eq!(binom2(0), 0);
    assert_eq!(binom2(1), 0);
    assert_eq!(binom2(2), 1);
    assert_eq!(binom2(5), 10);
}

#[test]
fn factorial_values() {
    assert_eq!(factorial(0), 1);
    assert_eq!(factorial(1), 1);
    assert_eq!(factorial(5), 120);
    assert_eq!(factorial(12), 479001600);
}

#[test]
fn labelled_order() {
    let a: Phylo<u32> = Phylo::leaf_with(1);
    let b: Phylo<u32> = Phylo::leaf_with(2);
    assert_eq!(a.cmp(&b), Ordering::Less);
    assert_eq!(b.cmp(&a), Ordering::Greater);
    assert_eq!(a.cmp(&Phylo::leaf_with(1)), Ordering::Equal);
    let n1 = Phylo::node(vec![Phylo::leaf_with(1u32), Phylo::leaf_with(5u32)]);
    let n2 = Phylo::node(vec![Phylo::leaf_with(1u32), Phylo::leaf_with(7u32)]);
    let n3 = Phylo::node(vec![Phylo::leaf_with(0u32), Phylo::leaf_with(0u32), Phylo::leaf_with(0u32)]);
    assert_eq!(n1.cmp(&n2), Ordering::Less);
    assert_eq!(n2.cmp(&n3), Ordering::Less);
    assert_eq!(b.cmp(&n1), Ordering::Less);
    assert_eq!(n1.partial_cmp(&n1), Some(Ordering::Equal));
    assert_eq!(n1.cmp_shape_grlex(&n2), Ordering::Equal);
}

#[test]
fn labelled_order_on_shapes_is_the_canonical_order() {
    let shapes = vec![leaf(), cherry(), caterpillar3(), node(vec![leaf(), leaf(), leaf()])];
    for a in shapes.iter() {
        for b in shapes.iter() {
            assert_eq!(a.cmp(b), a.cmp_shape_grlex(b));
        }
    }
}
