use biotrees::shape::Shape;

fn leaf() -> Shape {
    Shape::leaf()
}

fn node(children: Vec<Shape>) -> Shape {
    Shape::node(children)
}

fn cherry() -> Shape {
    node(vec![leaf(), leaf()])
}

fn caterpillar3() -> Shape {
    node(vec![leaf(), cherry()])
}

fn balanced(d: u32) -> Shape {
    if d == 0 {
        leaf()
    } else {
        node(vec![balanced(d - 1), balanced(d - 1)])
    }
}

#[test]
fn sackin_of_cherry_and_caterpillar() {
    assert_eq!(leaf().sackin_index(), 0);
    assert_eq!(cherry().sackin_index(), 2);
    assert_eq!(caterpillar3().sackin_index(), 5);
}

#[test]
fn colless_examples() {
    assert_eq!(leaf().binary_colless_index(), 0);
    assert_eq!(cherry().binary_colless_index(), 0);
    assert_eq!(caterpillar3().binary_colless_index(), 1);
    assert_eq!(balanced(2).binary_colless_index(), 0);
}

#[test]
fn cophenetic_examples() {
    assert_eq!(leaf().cophenetic_index(), 0);
    assert_eq!(cherry().cophenetic_index(), 1);
    assert_eq!(caterpillar3().cophenetic_index(), 4);
    assert_eq!(balanced(2).cophenetic_index(), 8);
}

#[test]
fn automorphisms_of_balanced_trees() {
    assert_eq!(leaf().count_automorphisms(), 1);
    assert_eq!(balanced(1).count_automorphisms(), 2);
    assert_eq!(balanced(2).count_automorphisms(), 8);
    assert_eq!(balanced(3).count_automorphisms(), 128);
}

#[test]
fn automorphisms_of_other_trees() {
    assert_eq!(caterpillar3().count_automorphisms(), 2);
    assert_eq!(node(vec![leaf(), leaf(), leaf()]).count_automorphisms(), 6);
    let t = node(vec![cherry(), cherry(), cherry()]);
    assert_eq!(t.count_automorphisms(), 48);
}

#[test]
fn symmetry_counts() {
    assert!(leaf().is_symmetric());
    assert!(cherry().is_symmetric());
    assert!(!caterpillar3().is_symmetric());
    assert_eq!(leaf().count_symmetries(), 0);
    assert_eq!(cherry().count_symmetries(), 1);
    assert_eq!(caterpillar3().count_symmetries(), 1);
    assert_eq!(balanced(2).count_symmetries(), 3);
}

#[test]
fn quartet_index_of_four_leaf_shapes() {
    let q0 = node(vec![leaf(), caterpillar3()]);
    let q1 = node(vec![leaf(), leaf(), cherry()]);
    let q2 = node(vec![leaf(), node(vec![leaf(), leaf(), leaf()])]);
    let q3 = node(vec![cherry(), cherry()]);
    let q4 = node(vec![leaf(), leaf(), leaf(), leaf()]);
    assert_eq!(q0.quartet_index(None), 0);
    assert_eq!(q1.quartet_index(None), 1);
    assert_eq!(q2.quartet_index(None), 2);
    assert_eq!(q3.quartet_index(None), 3);
    assert_eq!(q4.quartet_index(None), 4);
    assert_eq!(q3.quartet_index(Some(&[1, 1, 1, 1, 1])), 1);
}

#[test]
fn quartet_index_of_larger_trees() {
    let star5 = node(vec![leaf(), leaf(), leaf(), leaf(), leaf()]);
    assert_eq!(star5.quartet_index(None), 20);
    assert_eq!(leaf().quartet_index(None), 0);
    assert_eq!(cherry().quartet_index(None), 0);
    let t = node(vec![cherry(), cherry(), cherry()]);
    // every 4-set takes 2+1+1 (12 of them, score 1) or 2+2 (3 of them, score 3)
    assert_eq!(t.quartet_index(None), 21);
}

#[test]
fn binary_quartet_index_examples() {
    assert_eq!(balanced(2).binary_quartet_index(), 1);
    assert_eq!(node(vec![leaf(), caterpillar3()]).binary_quartet_index(), 0);
    assert_eq!(balanced(3).binary_quartet_index(), 2 * 1 + 6 * 6);
}
