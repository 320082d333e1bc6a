use std::cmp::Ordering;

use biotrees::generator::{add_leaf_to_edge, add_leaf_to_node, iter_insert_tree, replace_tree_at, ShapeCache};
use biotrees::phylo::Phylo;
use biotrees::shape::Shape;

fn leaf() -> Shape {
    Shape::leaf()
}

fn node(children: Vec<Shape>) -> Shape {
    Shape::node(children)
}

fn cherry() -> Shape {
    node(vec![leaf(), leaf()])
}

fn is_binary(t: &Shape) -> bool {
    match t {
        Phylo::Leaf(_) => true,
        Phylo::Node(ts) => ts.len() == 2 && ts.iter().all(is_binary),
    }
}

fn sizes(binary_only: bool, upto: usize) -> Vec<usize> {
    let mut cache = ShapeCache::new();
    (0..=upto).map(|n| cache.all_shapes(n, binary_only).len()).collect()
}

#[test]
fn binary_shape_counts() {
    assert_eq!(sizes(true, 7), vec![0, 1, 1, 1, 2, 3, 6, 11]);
}

#[test]
fn general_shape_counts() {
    assert_eq!(sizes(false, 6), vec![0, 1, 1, 2, 5, 12, 33]);
}

#[test]
fn binary_shapes_are_binary_with_n_leaves_and_distinct() {
    let mut cache = ShapeCache::new();
    for n in 1..8 {
        let shapes = cache.all_shapes(n, true);
        for (i, t) in shapes.iter().enumerate() {
            assert!(is_binary(t));
            assert_eq!(t.get_leaves().len(), n);
            for u in shapes[i + 1..].iter() {
                assert!(!t.isomorphic(u));
                assert_eq!(t.cmp_shape_grlex(u), Ordering::Less);
            }
        }
    }
}

#[test]
fn general_shapes_have_n_leaves_and_are_distinct() {
    let mut cache = ShapeCache::new();
    for n in 1..7 {
        let shapes = cache.all_shapes(n, false);
        for (i, t) in shapes.iter().enumerate() {
            assert_eq!(t.get_leaves().len(), n);
            for u in shapes[i + 1..].iter() {
                assert!(!t.isomorphic(u));
            }
        }
    }
}

#[test]
fn clone_shape_is_idempotent_on_generated_shapes() {
    let mut cache = ShapeCache::new();
    for n in 1..7 {
        for t in cache.all_shapes(n, false).iter() {
            assert_eq!(&t.clone_shape(), t);
        }
    }
}

#[test]
fn generation_does_not_depend_on_call_order() {
    let mut incremental = ShapeCache::new();
    for n in 1..7 {
        incremental.all_shapes(n, false);
    }
    let a = incremental.all_shapes(6, false);
    let mut fresh = ShapeCache::new();
    let b = fresh.all_shapes(6, false);
    assert_eq!(a, b);
    let mut fresh2 = ShapeCache::new();
    assert_eq!(fresh2.all_shapes(7, true), incremental.all_shapes(7, true));
}

#[test]
fn zero_and_one_leaf() {
    let mut cache = ShapeCache::new();
    assert!(cache.all_shapes(0, true).is_empty());
    assert!(cache.all_shapes(0, false).is_empty());
    assert_eq!(cache.all_shapes(1, true), vec![leaf()]);
    assert_eq!(cache.all_shapes(1, false), vec![leaf()]);
}

#[test]
fn quartet_index_cross_check_on_binary_shapes() {
    let mut cache = ShapeCache::new();
    for n in 1..9 {
        for t in cache.all_shapes(n, true).iter() {
            assert_eq!(t.quartet_index(Some(&[0, 0, 0, 1, 1])), t.binary_quartet_index());
        }
    }
}

#[test]
fn insert_keeps_order() {
    let ts = vec![leaf(), cherry()];
    let r = iter_insert_tree(&ts, leaf());
    assert_eq!(r, vec![leaf(), leaf(), cherry()]);
    let r = iter_insert_tree(&ts, node(vec![leaf(), cherry()]));
    assert_eq!(r, vec![leaf(), cherry(), node(vec![leaf(), cherry()])]);
}

#[test]
fn replace_moves_to_its_place() {
    let cat = node(vec![leaf(), cherry()]);
    let ts = vec![leaf(), leaf(), cherry()];
    assert_eq!(replace_tree_at(&ts, 0, cat.clone_shape()), vec![leaf(), cherry(), cat.clone_shape()]);
    assert_eq!(replace_tree_at(&ts, 2, cat.clone_shape()), vec![leaf(), leaf(), cat.clone_shape()]);
    assert_eq!(replace_tree_at(&ts, 2, leaf()), vec![leaf(), leaf(), leaf()]);
    let ts2 = vec![leaf(), cherry(), cherry()];
    assert_eq!(replace_tree_at(&ts2, 2, leaf()), vec![leaf(), leaf(), cherry()]);
    assert_eq!(replace_tree_at(&ts2, 0, cat.clone_shape()), vec![cherry(), cherry(), cat.clone_shape()]);
}

#[test]
fn adding_leaves() {
    assert_eq!(add_leaf_to_edge(leaf()), cherry());
    assert_eq!(add_leaf_to_edge(cherry()), node(vec![leaf(), cherry()]));
    assert_eq!(add_leaf_to_node(leaf()), cherry());
    assert_eq!(add_leaf_to_node(cherry()), node(vec![leaf(), leaf(), leaf()]));
}

fn is_canonical(t: &Shape) -> bool {
    match t {
        Phylo::Leaf(_) => true,
        Phylo::Node(ts) => {
            ts.len() >= 2
                && ts.windows(2).all(|w| w[0].cmp_shape_grlex(&w[1]) != Ordering::Greater)
                && ts.iter().all(is_canonical)
        }
    }
}

#[test]
fn generated_shapes_are_canonical() {
    let mut cache = ShapeCache::new();
    for n in 1..7 {
        for t in cache.all_shapes(n, false).iter() {
            assert!(is_canonical(t));
        }
        for t in cache.all_shapes(n, true).iter() {
            assert!(is_canonical(t));
        }
    }
}

#[test]
fn binary_level_is_the_binary_part_of_the_general_level() {
    let mut cache = ShapeCache::new();
    for n in 1..8 {
        let general: Vec<Shape> = cache.all_shapes(n, false).into_iter().filter(is_binary).collect();
        assert_eq!(general, cache.all_shapes(n, true));
    }
}
