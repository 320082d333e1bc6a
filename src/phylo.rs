use vstd::prelude::*;
use std::cmp::Ordering;
use vstd::std_specs::cmp::PartialOrdSpec;

verus! {

/// A rooted tree whose leaves carry labels of type `T` and whose internal
/// nodes hold an ordered sequence of children.
///
/// The library keeps the children of every node it builds in the canonical
/// order of [`Phylo::cmp_shape_grlex`]; trees built directly through
/// [`Phylo::node`] are taken as given.
#[derive(PartialEq, Eq, Debug)]
pub enum Phylo<T> {
    Leaf(T),
    Node(Vec<Phylo<T>>),
}

/// Sum of a sequence of integers.
pub open spec fn sum(s: Seq<int>) -> int
    decreases s.len(),
{
    if s.len() == 0 {
        0
    } else {
        sum(s.drop_last()) + s.last()
    }
}

/// Largest element of a sequence of integers (0 for the empty sequence).
pub open spec fn max_of(s: Seq<int>) -> int
    decreases s.len(),
{
    if s.len() == 0 {
        0
    } else if max_of(s.drop_last()) >= s.last() {
        max_of(s.drop_last())
    } else {
        s.last()
    }
}

/// Number of leaves of a tree (its kappa).
pub open spec fn kappa<T>(t: Phylo<T>) -> int
    decreases t,
{
    match t {
        Phylo::Leaf(_) => 1,
        Phylo::Node(ts) => sum(kappas(ts@)),
    }
}

/// Leaf counts of a sequence of trees.
pub open spec fn kappas<T>(ts: Seq<Phylo<T>>) -> Seq<int>
    decreases ts,
{
    Seq::new(ts.len(), |i: int| if 0 <= i < ts.len() { kappa(ts[i]) } else { 0 })
}

/// Length of the longest path from the root down to a leaf.
pub open spec fn depth_of<T>(t: Phylo<T>) -> int
    decreases t,
{
    match t {
        Phylo::Leaf(_) => 0,
        Phylo::Node(ts) => 1 + max_of(depths(ts@)),
    }
}

/// Depths of a sequence of trees.
pub open spec fn depths<T>(ts: Seq<Phylo<T>>) -> Seq<int>
    decreases ts,
{
    Seq::new(ts.len(), |i: int| if 0 <= i < ts.len() { depth_of(ts[i]) } else { 0 })
}

/// Whether every internal node has at least one child.
pub open spec fn no_empty_nodes<T>(t: Phylo<T>) -> bool
    decreases t,
{
    match t {
        Phylo::Leaf(_) => true,
        Phylo::Node(ts) => ts@.len() > 0 && forall|i: int|
            0 <= i < ts@.len() ==> no_empty_nodes(#[trigger] ts@[i]),
    }
}

/// Whether every internal node has exactly two children.
pub open spec fn is_binary<T>(t: Phylo<T>) -> bool
    decreases t,
{
    match t {
        Phylo::Leaf(_) => true,
        Phylo::Node(ts) => ts@.len() == 2 && is_binary(ts@[0]) && is_binary(ts@[1]),
    }
}

/// Labels of the leaves, in depth-first left-to-right order.
pub open spec fn leaves<T>(t: Phylo<T>) -> Seq<T>
    decreases t,
{
    match t {
        Phylo::Leaf(x) => seq![x],
        Phylo::Node(ts) => leaves_of(ts@).flatten(),
    }
}

/// Leaf labels of each of a sequence of trees.
pub open spec fn leaves_of<T>(ts: Seq<Phylo<T>>) -> Seq<Seq<T>>
    decreases ts,
{
    Seq::new(ts.len(), |i: int| if 0 <= i < ts.len() { leaves(ts[i]) } else { Seq::empty() })
}

/// Depths of the leaves, in depth-first left-to-right order, counting the
/// root of `t` as depth `d`.
pub open spec fn leaf_depths<T>(t: Phylo<T>, d: int) -> Seq<int>
    decreases t,
{
    match t {
        Phylo::Leaf(_) => seq![d],
        Phylo::Node(ts) => leaf_depths_of(ts@, d + 1).flatten(),
    }
}

/// Leaf depths of each of a sequence of trees, whose roots stand at depth `d`.
pub open spec fn leaf_depths_of<T>(ts: Seq<Phylo<T>>, d: int) -> Seq<Seq<int>>
    decreases ts,
{
    Seq::new(
        ts.len(),
        |i: int| if 0 <= i < ts.len() { leaf_depths(ts[i], d) } else { Seq::empty() },
    )
}

/// Positional isomorphism: both leaves, or both internal nodes of equal arity
/// whose children are isomorphic position by position.
pub open spec fn iso<T, U>(a: Phylo<T>, b: Phylo<U>) -> bool
    decreases a,
{
    match (a, b) {
        (Phylo::Leaf(_), Phylo::Leaf(_)) => true,
        (Phylo::Node(xs), Phylo::Node(ys)) => xs@.len() == ys@.len() && forall|i: int|
            0 <= i < xs@.len() ==> iso(#[trigger] xs@[i], ys@[i]),
        _ => false,
    }
}

/// Comparison of two integers as an `Ordering`.
pub open spec fn cmp_int(x: int, y: int) -> Ordering {
    if x < y {
        Ordering::Less
    } else if x > y {
        Ordering::Greater
    } else {
        Ordering::Equal
    }
}

/// The canonical order of shapes: a leaf comes before any internal node;
/// internal nodes compare by arity, then by their children
/// lexicographically. Labels are not looked at.
pub open spec fn cmp_shape<T>(a: Phylo<T>, b: Phylo<T>) -> Ordering
    decreases a,
{
    match (a, b) {
        (Phylo::Leaf(_), Phylo::Leaf(_)) => Ordering::Equal,
        (Phylo::Leaf(_), Phylo::Node(_)) => Ordering::Less,
        (Phylo::Node(_), Phylo::Leaf(_)) => Ordering::Greater,
        (Phylo::Node(xs), Phylo::Node(ys)) => if xs@.len() != ys@.len() {
            cmp_int(xs@.len() as int, ys@.len() as int)
        } else {
            cmp_children(xs@, ys@, 0)
        },
    }
}

/// Lexicographic comparison of two equally long sequences of trees from
/// position `i` on: the first position whose trees differ decides.
pub open spec fn cmp_children<T>(xs: Seq<Phylo<T>>, ys: Seq<Phylo<T>>, i: int) -> Ordering
    decreases xs, xs.len() - i,
{
    if i < 0 || i >= xs.len() || i >= ys.len() {
        Ordering::Equal
    } else if cmp_shape(xs[i], ys[i]) != Ordering::Equal {
        cmp_shape(xs[i], ys[i])
    } else {
        cmp_children(xs, ys, i + 1)
    }
}

/// The total order of labelled trees: as the canonical order of shapes, but
/// two leaves compare by their labels (labels that do not compare count as
/// equal, which a total order on labels never gives).
pub open spec fn cmp_labelled<T: Ord>(a: Phylo<T>, b: Phylo<T>) -> Ordering
    decreases a,
{
    match (a, b) {
        (Phylo::Leaf(x), Phylo::Leaf(y)) => match x.partial_cmp_spec(&y) {
            Some(o) => o,
            None => Ordering::Equal,
        },
        (Phylo::Leaf(_), Phylo::Node(_)) => Ordering::Less,
        (Phylo::Node(_), Phylo::Leaf(_)) => Ordering::Greater,
        (Phylo::Node(xs), Phylo::Node(ys)) => if xs@.len() != ys@.len() {
            cmp_int(xs@.len() as int, ys@.len() as int)
        } else {
            cmp_labelled_children(xs@, ys@, 0)
        },
    }
}

/// Lexicographic comparison of labelled children from position `i` on.
pub open spec fn cmp_labelled_children<T: Ord>(
    xs: Seq<Phylo<T>>,
    ys: Seq<Phylo<T>>,
    i: int,
) -> Ordering
    decreases xs, xs.len() - i,
{
    if i < 0 || i >= xs.len() || i >= ys.len() {
        Ordering::Equal
    } else if cmp_labelled(xs[i], ys[i]) != Ordering::Equal {
        cmp_labelled(xs[i], ys[i])
    } else {
        cmp_labelled_children(xs, ys, i + 1)
    }
}

/// `r` is a possible outcome of folding `t` bottom-up: `leaf_value` at each
/// leaf, and at each internal node `f` applied to the node and its two
/// children's outcomes.
pub open spec fn binary_folds_to<T, R, F: Fn(&Phylo<T>, R, R) -> R>(
    t: Phylo<T>,
    leaf_value: R,
    f: F,
    r: R,
) -> bool
    decreases t,
{
    match t {
        Phylo::Leaf(_) => r == leaf_value,
        Phylo::Node(ts) => ts@.len() == 2 && exists|r0: R, r1: R|
            {
                &&& binary_folds_to(ts@[0], leaf_value, f, r0)
                &&& binary_folds_to(ts@[1], leaf_value, f, r1)
                &&& #[trigger] f.ensures((&t, r0, r1), r)
            },
    }
}

/// `r` is a possible outcome of folding `t` bottom-up: `leaf_value` at each
/// leaf, and at each internal node `f` applied to the node and the sequence
/// of its children's outcomes, in order.
pub open spec fn folds_to<T, R, F: Fn(&Phylo<T>, Vec<R>) -> R>(
    t: Phylo<T>,
    leaf_value: R,
    f: F,
    r: R,
) -> bool
    decreases t,
{
    match t {
        Phylo::Leaf(_) => r == leaf_value,
        Phylo::Node(ts) => exists|rs: Vec<R>|
            {
                &&& rs@.len() == ts@.len()
                &&& forall|i: int|
                    0 <= i < ts@.len() ==> folds_to(#[trigger] ts@[i], leaf_value, f, rs@[i])
                &&& #[trigger] f.ensures((&t, rs), r)
            },
    }
}

/// A child is smaller than the node that holds it.
pub proof fn lemma_child_decreases<T>(t: Phylo<T>, i: int)
    requires
        t is Node,
        0 <= i < t->Node_0@.len(),
    ensures
        decreases_to!(t => t->Node_0@[i]),
{
    let ts = t->Node_0;
    assert(decreases_to!(t => ts));
    assert(decreases_to!(ts => ts[i]));
}

/// The sum of the first `i + 1` elements is that of the first `i` plus the
/// element at `i`.
pub proof fn lemma_sum_take(s: Seq<int>, i: int)
    requires
        0 <= i < s.len(),
    ensures
        sum(s.take(i + 1)) == sum(s.take(i)) + s[i],
{
    assert(s.take(i + 1).drop_last() =~= s.take(i));
}

/// In a sequence of non-negative integers, each prefix sum and each element is
/// at most the whole sum.
pub proof fn lemma_sum_bounds(s: Seq<int>, i: int)
    requires
        forall|j: int| 0 <= j < s.len() ==> s[j] >= 0,
        0 <= i <= s.len(),
    ensures
        0 <= sum(s.take(i)) <= sum(s),
        i < s.len() ==> s[i] <= sum(s) - sum(s.take(i)),
    decreases s.len() - i,
{
    assert forall|j: int| 0 <= j < s.take(i).len() implies s.take(i)[j] >= 0 by {}
    lemma_sum_nonneg(s.take(i));
    if i < s.len() {
        lemma_sum_take(s, i);
        lemma_sum_bounds(s, i + 1);
    } else {
        assert(s.take(i) =~= s);
        lemma_sum_nonneg(s);
    }
}

pub proof fn lemma_sum_nonneg(s: Seq<int>)
    requires
        forall|j: int| 0 <= j < s.len() ==> s[j] >= 0,
    ensures
        sum(s) >= 0,
    decreases s.len(),
{
    if s.len() > 0 {
        lemma_sum_nonneg(s.drop_last());
    }
}

pub proof fn lemma_max_take(s: Seq<int>, i: int)
    requires
        0 <= i < s.len(),
    ensures
        max_of(s.take(i + 1)) == if max_of(s.take(i)) >= s[i] {
            max_of(s.take(i))
        } else {
            s[i]
        },
{
    assert(s.take(i + 1).drop_last() =~= s.take(i));
}

/// Every element is at most the maximum, and so is the maximum of a prefix.
pub proof fn lemma_max_bounds(s: Seq<int>, i: int)
    requires
        0 <= i <= s.len(),
    ensures
        max_of(s.take(i)) <= max_of(s),
        i < s.len() ==> s[i] <= max_of(s),
    decreases s.len() - i,
{
    if i < s.len() {
        lemma_max_take(s, i);
        lemma_max_bounds(s, i + 1);
    } else {
        assert(s.take(i) =~= s);
    }
}

pub proof fn lemma_max_nonneg(s: Seq<int>)
    ensures
        max_of(s) >= 0,
    decreases s.len(),
{
    if s.len() > 0 {
        lemma_max_nonneg(s.drop_last());
    }
}

pub proof fn lemma_kappa_pos<T>(t: Phylo<T>)
    ensures
        kappa(t) >= 0,
        t is Leaf ==> kappa(t) == 1,
    decreases t,
{
    if let Phylo::Node(ts) = t {
        let ks = kappas(ts@);
        assert forall|j: int| 0 <= j < ks.len() implies ks[j] >= 0 by {
            lemma_kappa_pos(ts@[j]);
        }
        lemma_sum_nonneg(ks);
    }
}

proof fn lemma_flatten_len<A>(parts: Seq<Seq<A>>, lens: Seq<int>)
    requires
        lens.len() == parts.len(),
        forall|i: int| 0 <= i < parts.len() ==> #[trigger] lens[i] == parts[i].len(),
    ensures
        parts.flatten().len() == sum(lens),
    decreases parts.len(),
{
    if parts.len() > 0 {
        let init = parts.drop_last();
        lemma_flatten_len(init, lens.drop_last());
        assert(parts =~= init.push(parts.last()));
        init.lemma_flatten_push(parts.last());
    }
}

/// The leaf count of a tree is the number of its leaves.
pub proof fn lemma_kappa_is_leaf_count<T>(t: Phylo<T>)
    ensures
        leaves(t).len() == kappa(t),
    decreases t,
{
    if let Phylo::Node(ts) = t {
        assert forall|i: int| 0 <= i < ts@.len() implies #[trigger] kappas(ts@)[i] == leaves_of(
            ts@,
        )[i].len() by {
            lemma_child_decreases(t, i);
            lemma_kappa_is_leaf_count(ts@[i]);
        }
        lemma_flatten_len(leaves_of(ts@), kappas(ts@));
    }
}

impl<T> Phylo<T> {
    /// The leaf labelled `label`.
    pub fn leaf_with(label: T) -> (r: Self)
        ensures
            r == Phylo::Leaf(label),
    {
        Phylo::Leaf(label)
    }

    /// The internal node with `children`, in the order given.
    pub fn shared_node(children: Vec<Self>) -> (r: Self)
        ensures
            r == Phylo::Node(children),
    {
        Phylo::Node(children)
    }

    /// The internal node with `children`, in the order given.
    pub fn node(children: Vec<Self>) -> (r: Self)
        ensures
            r == Phylo::Node(children),
    {
        Self::shared_node(children)
    }

    pub fn is_leaf(&self) -> (r: bool)
        ensures
            r == (*self is Leaf),
    {
        match self {
            Phylo::Leaf(_) => true,
            Phylo::Node(_) => false,
        }
    }

    /// Length of the longest root-to-leaf path.
    pub fn depth(&self) -> (r: u32)
        requires
            no_empty_nodes(*self),
            depth_of(*self) <= u32::MAX,
        ensures
            r == depth_of(*self),
        decreases self,
    {
        match self {
            Phylo::Leaf(_) => 0,
            Phylo::Node(ts) => {
                let ghost ds = depths(ts@);
                let mut m: u32 = 0;
                let mut i: usize = 0;
                while i < ts.len()
                    invariant
                        *self == Phylo::Node(*ts),
                        i <= ts@.len(),
                        ds.len() == ts@.len(),
                        forall|j: int| 0 <= j < ts@.len() ==> ds[j] == depth_of(#[trigger] ts@[j]),
                        m == max_of(ds.take(i as int)),
                        forall|j: int| 0 <= j < ts@.len() ==> no_empty_nodes(#[trigger] ts@[j]),
                        1 + max_of(ds) <= u32::MAX,
                    decreases ts@.len() - i,
                {
                    proof {
                        lemma_max_take(ds, i as int);
                        lemma_max_bounds(ds, i as int);
                    }
                    proof {
                        lemma_child_decreases(*self, i as int);
                    }
                    let d = ts[i].depth();
                    if d > m {
                        m = d;
                    }
                    i = i + 1;
                }
                proof {
                    assert(ds.take(i as int) =~= ds);
                    lemma_max_bounds(ds, 0);
                    lemma_max_take(ds, 0);
                }
                m + 1
            },
        }
    }

    fn get_leaves_depths_plus(&self, rec_depth: u32) -> (r: Vec<u32>)
        requires
            rec_depth + depth_of(*self) <= u32::MAX,
        ensures
            r@.map_values(|x: u32| x as int) == leaf_depths(*self, rec_depth as int),
        decreases self,
    {
        match self {
            Phylo::Leaf(_) => {
                let r = vec![rec_depth];
                assert(r@.map_values(|x: u32| x as int) =~= seq![rec_depth as int]);
                r
            },
            Phylo::Node(ts) => {
                let ghost parts = leaf_depths_of(ts@, rec_depth + 1);
                let ghost ds = depths(ts@);
                proof {
                    lemma_max_nonneg(ds);
                }
                let mut r: Vec<u32> = Vec::new();
                let mut i: usize = 0;
                while i < ts.len()
                    invariant
                        *self == Phylo::Node(*ts),
                        i <= ts@.len(),
                        parts.len() == ts@.len(),
                        ds.len() == ts@.len(),
                        forall|j: int|
                            0 <= j < ts@.len() ==> parts[j] == leaf_depths(
                                #[trigger] ts@[j],
                                rec_depth + 1,
                            ),
                        forall|j: int| 0 <= j < ts@.len() ==> ds[j] == depth_of(#[trigger] ts@[j]),
                        rec_depth + 1 + max_of(ds) <= u32::MAX,
                        max_of(ds) >= 0,
                        r@.map_values(|x: u32| x as int) == parts.take(i as int).flatten(),
                    decreases ts@.len() - i,
                {
                        proof {
                        lemma_max_bounds(ds, i as int);
                    }
                    proof {
                        lemma_child_decreases(*self, i as int);
                    }
                    let mut sub = ts[i].get_leaves_depths_plus(rec_depth + 1);
                    let ghost before = r@;
                    r.append(&mut sub);
                    proof {
                        assert(parts.take(i + 1) =~= parts.take(i as int).push(parts[i as int]));
                        parts.take(i as int).lemma_flatten_push(parts[i as int]);
                        assert(r@.map_values(|x: u32| x as int) =~= before.map_values(
                            |x: u32| x as int,
                        ) + parts[i as int]);
                    }
                    i = i + 1;
                }
                proof {
                    assert(parts.take(i as int) =~= parts);
                }
                r
            },
        }
    }

    /// Depth of every leaf, in depth-first left-to-right order.
    pub fn get_leaves_depths(&self) -> (r: Vec<u32>)
        requires
            depth_of(*self) <= u32::MAX,
        ensures
            r@.map_values(|x: u32| x as int) == leaf_depths(*self, 0),
    {
        self.get_leaves_depths_plus(0)
    }

    /// The leaf labels, in depth-first left-to-right order.
    pub fn get_leaves(&self) -> (r: Vec<&T>)
        ensures
            r@.map_values(|y: &T| *y) == leaves(*self),
        decreases self,
    {
        match self {
            Phylo::Leaf(x) => {
                let r = vec![x];
                assert(r@.map_values(|y: &T| *y) =~= seq![*x]);
                r
            },
            Phylo::Node(ts) => {
                let ghost parts = leaves_of(ts@);
                let mut r: Vec<&T> = Vec::new();
                let mut i: usize = 0;
                while i < ts.len()
                    invariant
                        *self == Phylo::Node(*ts),
                        i <= ts@.len(),
                        parts.len() == ts@.len(),
                        forall|j: int| 0 <= j < ts@.len() ==> parts[j] == leaves(#[trigger] ts@[j]),
                        r@.map_values(|y: &T| *y) == parts.take(i as int).flatten(),
                    decreases ts@.len() - i,
                {
                    proof {
                        lemma_child_decreases(*self, i as int);
                    }
                    let mut sub = ts[i].get_leaves();
                    let ghost before = r@;
                    r.append(&mut sub);
                    proof {
                        assert(r@.map_values(|y: &T| *y) =~= before.map_values(|y: &T| *y)
                            + parts[i as int]);
                        assert(parts.take(i + 1) =~= parts.take(i as int).push(parts[i as int]));
                        parts.take(i as int).lemma_flatten_push(parts[i as int]);
                    }
                    i = i + 1;
                }
                proof {
                    assert(parts.take(i as int) =~= parts);
                }
                r
            },
        }
    }

    /// Positional isomorphism test; a full isomorphism test for trees whose
    /// children are kept in canonical order.
    pub fn isomorphic<U>(&self, other: &Phylo<U>) -> (r: bool)
        ensures
            r == iso(*self, *other),
        decreases self,
    {
        match (self, other) {
            (Phylo::Leaf(_), Phylo::Leaf(_)) => true,
            (Phylo::Leaf(_), Phylo::Node(_)) => false,
            (Phylo::Node(_), Phylo::Leaf(_)) => false,
            (Phylo::Node(ts1), Phylo::Node(ts2)) => {
                if ts1.len() != ts2.len() {
                    return false;
                }
                let mut i: usize = 0;
                while i < ts1.len()
                    invariant
                        *self == Phylo::Node(*ts1),
                        *other == Phylo::Node(*ts2),
                        i <= ts1@.len(),
                        ts1@.len() == ts2@.len(),
                        forall|j: int| 0 <= j < i ==> iso(#[trigger] ts1@[j], ts2@[j]),
                    decreases ts1@.len() - i,
                {
                    proof {
                        lemma_child_decreases(*self, i as int);
                    }
                    if !ts1[i].isomorphic(&ts2[i]) {
                        return false;
                    }
                    i = i + 1;
                }
                true
            },
        }
    }

    /// The canonical order of shapes (labels are not looked at).
    pub fn cmp_shape_grlex(&self, other: &Self) -> (r: Ordering)
        ensures
            r == cmp_shape(*self, *other),
        decreases self,
    {
        match (self, other) {
            (Phylo::Leaf(_), Phylo::Leaf(_)) => Ordering::Equal,
            (Phylo::Leaf(_), Phylo::Node(_)) => Ordering::Less,
            (Phylo::Node(_), Phylo::Leaf(_)) => Ordering::Greater,
            (Phylo::Node(ts1), Phylo::Node(ts2)) => {
                if ts1.len() < ts2.len() {
                    return Ordering::Less;
                } else if ts1.len() > ts2.len() {
                    return Ordering::Greater;
                }
                let mut i: usize = 0;
                while i < ts1.len()
                    invariant
                        *self == Phylo::Node(*ts1),
                        *other == Phylo::Node(*ts2),
                        i <= ts1@.len(),
                        ts1@.len() == ts2@.len(),
                        cmp_children(ts1@, ts2@, 0) == cmp_children(ts1@, ts2@, i as int),
                    decreases ts1@.len() - i,
                {
                    proof {
                        lemma_child_decreases(*self, i as int);
                    }
                    let c = ts1[i].cmp_shape_grlex(&ts2[i]);
                    match c {
                        Ordering::Equal => {},
                        _ => {
                            return c;
                        },
                    }
                    i = i + 1;
                }
                Ordering::Equal
            },
        }
    }

    /// Folds an everywhere-binary tree bottom-up: `leaf_value` at each leaf,
    /// `f(node, left, right)` at each internal node.
    pub fn binary_fold<R: Copy, F: Fn(&Self, R, R) -> R>(&self, leaf_value: R, f: &F) -> (r: R)
        requires
            is_binary(*self),
            forall|t: &Phylo<T>, a: R, b: R| #[trigger] f.requires((t, a, b)),
        ensures
            binary_folds_to(*self, leaf_value, f, r),
        decreases self,
    {
        match self {
            Phylo::Leaf(_) => leaf_value,
            Phylo::Node(ts) => {
                let r0 = ts[0].binary_fold(leaf_value, f);
                let r1 = ts[1].binary_fold(leaf_value, f);
                let r = f(self, r0, r1);
                assert(f.ensures((self, r0, r1), r));
                assert(binary_folds_to(ts@[0], leaf_value, f, r0));
                assert(binary_folds_to(ts@[1], leaf_value, f, r1));
                assert(binary_folds_to(*self, leaf_value, f, r));
                r
            },
        }
    }

    /// Folds a tree bottom-up: `leaf_value` at each leaf, and at each internal
    /// node `f(node, results)` with the children's results in order.
    pub fn fold<R: Copy, F: Fn(&Self, Vec<R>) -> R>(&self, leaf_value: R, f: &F) -> (r: R)
        requires
            forall|t: &Phylo<T>, rs: Vec<R>| #[trigger] f.requires((t, rs)),
        ensures
            folds_to(*self, leaf_value, f, r),
        decreases self,
    {
        match self {
            Phylo::Leaf(_) => leaf_value,
            Phylo::Node(ts) => {
                let mut rs: Vec<R> = Vec::new();
                let mut i: usize = 0;
                while i < ts.len()
                    invariant
                        *self == Phylo::Node(*ts),
                        i <= ts@.len(),
                        rs@.len() == i,
                        forall|j: int|
                            0 <= j < i ==> folds_to(#[trigger] ts@[j], leaf_value, f, rs@[j]),
                        forall|t: &Phylo<T>, rs: Vec<R>| #[trigger] f.requires((t, rs)),
                    decreases ts@.len() - i,
                {
                    proof {
                        lemma_child_decreases(*self, i as int);
                    }
                    let x = ts[i].fold(leaf_value, f);
                    rs.push(x);
                    i = i + 1;
                }
                let ghost rs0 = rs;
                let r = f(self, rs);
                assert(f.ensures((self, rs0), r));
                r
            },
        }
    }
}

impl<T: Ord> Phylo<T> {
    /// The total order of labelled trees: leaves by label, a leaf before an
    /// internal node, internal nodes by arity and then by their children.
    pub fn cmp(&self, other: &Self) -> (r: Ordering)
        ensures
            T::obeys_partial_cmp_spec() ==> r == cmp_labelled(*self, *other),
        decreases self,
    {
        match (self, other) {
            (Phylo::Leaf(x), Phylo::Leaf(y)) => match x.partial_cmp(y) {
                Some(o) => o,
                None => Ordering::Equal,
            },
            (Phylo::Leaf(_), Phylo::Node(_)) => Ordering::Less,
            (Phylo::Node(_), Phylo::Leaf(_)) => Ordering::Greater,
            (Phylo::Node(ts1), Phylo::Node(ts2)) => {
                if ts1.len() < ts2.len() {
                    return Ordering::Less;
                } else if ts1.len() > ts2.len() {
                    return Ordering::Greater;
                }
                let mut i: usize = 0;
                while i < ts1.len()
                    invariant
                        *self == Phylo::Node(*ts1),
                        *other == Phylo::Node(*ts2),
                        i <= ts1@.len(),
                        ts1@.len() == ts2@.len(),
                        T::obeys_partial_cmp_spec() ==> cmp_labelled_children(ts1@, ts2@, 0)
                            == cmp_labelled_children(ts1@, ts2@, i as int),
                    decreases ts1@.len() - i,
                {
                    proof {
                        lemma_child_decreases(*self, i as int);
                    }
                    let c = ts1[i].cmp(&ts2[i]);
                    match c {
                        Ordering::Equal => {},
                        _ => {
                            return c;
                        },
                    }
                    i = i + 1;
                }
                Ordering::Equal
            },
        }
    }

    /// The same order, as a partial comparison that always succeeds.
    pub fn partial_cmp(&self, other: &Self) -> (r: Option<Ordering>)
        ensures
            T::obeys_partial_cmp_spec() ==> r == Some(cmp_labelled(*self, *other)),
    {
        Some(self.cmp(other))
    }
}

} // verus!
