use vstd::prelude::*;
use rayon::iter::{IndexedParallelIterator, IntoParallelRefIterator, ParallelIterator};
use std::cmp::Ordering;
use crate::phylo::{Phylo, iso, cmp_shape, kappa, kappas, sum, is_binary, lemma_child_decreases};
use crate::shape::{Shape, Tip};
use crate::order::{lemma_cmp_antisymmetric, lemma_cmp_transitive, lemma_iso_equivalence};

verus! {

/// Two sequences of shapes that are isomorphic position by position.
pub open spec fn iso_seq(a: Seq<Shape>, b: Seq<Shape>) -> bool {
    &&& a.len() == b.len()
    &&& forall|i: int| 0 <= i < a.len() ==> iso(#[trigger] a[i], b[i])
}

/// A sequence of shapes in strictly increasing canonical order; in particular
/// no two of them are isomorphic.
pub open spec fn sorted_set(s: Seq<Shape>) -> bool {
    forall|i: int, j: int| 0 <= i < j < s.len() ==> cmp_shape(#[trigger] s[i], #[trigger] s[j]) == Ordering::Less
}

/// Some shape of `set` is isomorphic to `x`.
pub open spec fn covers(set: Seq<Shape>, x: Shape) -> bool {
    exists|j: int| 0 <= j < set.len() && iso(#[trigger] set[j], x)
}

/// The first position from `i` on whose shape is not below `t` (the length
/// if there is none).
pub open spec fn insert_pos_from(ts: Seq<Shape>, t: Shape, i: int) -> int
    decreases ts.len() - i,
{
    if i < 0 || i >= ts.len() {
        ts.len() as int
    } else if cmp_shape(ts[i], t) != Ordering::Less {
        i
    } else {
        insert_pos_from(ts, t, i + 1)
    }
}

/// The position at which `t` goes in `ts`: before the first shape that is
/// not below it.
pub open spec fn insert_pos(ts: Seq<Shape>, t: Shape) -> int {
    insert_pos_from(ts, t, 0)
}

/// `ts` with `t` inserted at the position its order warrants.
pub open spec fn inserted(ts: Seq<Shape>, t: Shape) -> Seq<Shape> {
    ts.insert(insert_pos(ts, t), t)
}

/// `ts` with the shape at `n` replaced by `t`: the old shape is removed and
/// `t` goes before the first shape of `ts` that is not below it.
pub open spec fn replaced(ts: Seq<Shape>, n: int, t: Shape) -> Seq<Shape> {
    let i = insert_pos(ts, t);
    if i == ts.len() {
        ts.remove(n).push(t)
    } else if i == n {
        ts.update(n, t)
    } else if i < n {
        ts.remove(n).insert(i, t)
    } else {
        ts.remove(n).insert(i - 1, t)
    }
}

proof fn lemma_insert_pos_bounds(ts: Seq<Shape>, t: Shape, i: int)
    requires
        0 <= i <= ts.len(),
    ensures
        i <= insert_pos_from(ts, t, i) <= ts.len(),
        forall|j: int| i <= j < insert_pos_from(ts, t, i) ==> cmp_shape(#[trigger] ts[j], t) == Ordering::Less,
        insert_pos_from(ts, t, i) < ts.len() ==> cmp_shape(ts[insert_pos_from(ts, t, i)], t)
            != Ordering::Less,
    decreases ts.len() - i,
{
    if i < ts.len() && cmp_shape(ts[i], t) == Ordering::Less {
        lemma_insert_pos_bounds(ts, t, i + 1);
    }
}

/// `x` has `k` leaves, and is binary when `binary_only` asks for it.
pub open spec fn shape_ok(x: Shape, k: int, binary_only: bool) -> bool {
    kappa(x) == k && (binary_only ==> is_binary(x))
}

/// Every shape of `s` has `k` leaves, and is binary when `binary_only` asks
/// for it.
pub open spec fn all_ok(s: Seq<Shape>, k: int, binary_only: bool) -> bool {
    forall|x: Shape| #[trigger] s.contains(x) ==> shape_ok(x, k, binary_only)
}

/// Total number of leaves of a sequence of trees.
pub open spec fn total<T>(s: Seq<Phylo<T>>) -> int {
    sum(kappas(s))
}

pub proof fn lemma_kappa_node<T>(v: Vec<Phylo<T>>)
    ensures
        kappa(Phylo::Node(v)) == total(v@),
        is_binary(Phylo::Node(v)) == (v@.len() == 2 && is_binary(v@[0]) && is_binary(v@[1])),
{
    let t = Phylo::<T>::Node(v);
    assert(t->Node_0 == v);
}

/// Isomorphic trees have as many leaves, and one is binary when the other is.
pub proof fn lemma_iso_kappa<T, U>(a: Phylo<T>, b: Phylo<U>)
    requires
        iso(a, b),
    ensures
        kappa(a) == kappa(b),
        is_binary(a) == is_binary(b),
    decreases a,
{
    if let (Phylo::Node(xs), Phylo::Node(ys)) = (a, b) {
        assert forall|j: int| 0 <= j < xs@.len() implies kappa(#[trigger] xs@[j]) == kappa(ys@[j])
            && is_binary(xs@[j]) == is_binary(ys@[j]) by {
            lemma_child_decreases(a, j);
            lemma_iso_kappa(xs@[j], ys@[j]);
        }
        assert(kappas(xs@) =~= kappas(ys@));
        lemma_kappa_node(xs);
        lemma_kappa_node(ys);
    }
}

pub proof fn lemma_sum_concat(a: Seq<int>, b: Seq<int>)
    ensures
        sum(a + b) == sum(a) + sum(b),
    decreases b.len(),
{
    if b.len() > 0 {
        assert((a + b).drop_last() =~= a + b.drop_last());
        lemma_sum_concat(a, b.drop_last());
    } else {
        assert(a + b =~= a);
    }
}

pub proof fn lemma_total_concat(a: Seq<Shape>, b: Seq<Shape>)
    ensures
        total(a + b) == total(a) + total(b),
{
    assert(kappas(a + b) =~= kappas(a) + kappas(b));
    lemma_sum_concat(kappas(a), kappas(b));
}

pub proof fn lemma_total_single(t: Shape)
    ensures
        total(seq![t]) == kappa(t),
{
    let ks = kappas(seq![t]);
    assert(ks.len() == 1);
    assert(ks[0] == kappa(t));
    assert(ks.drop_last() =~= Seq::<int>::empty());
    assert(sum(ks.drop_last()) == 0);
    assert(ks.last() == kappa(t));
}

pub proof fn lemma_total_insert(s: Seq<Shape>, i: int, t: Shape)
    requires
        0 <= i <= s.len(),
    ensures
        total(s.insert(i, t)) == total(s) + kappa(t),
{
    assert(s.insert(i, t) =~= s.take(i) + seq![t] + s.skip(i));
    assert(s =~= s.take(i) + s.skip(i));
    lemma_total_concat(s.take(i) + seq![t], s.skip(i));
    lemma_total_concat(s.take(i), seq![t]);
    lemma_total_concat(s.take(i), s.skip(i));
    lemma_total_single(t);
}

pub proof fn lemma_total_remove(s: Seq<Shape>, n: int)
    requires
        0 <= n < s.len(),
    ensures
        total(s.remove(n)) == total(s) - kappa(s[n]),
{
    assert(s.remove(n).insert(n, s[n]) =~= s);
    lemma_total_insert(s.remove(n), n, s[n]);
}

/// Replacing one tree of a sequence changes its leaf total by the difference,
/// keeps its length, and keeps it binary when the new tree is binary.
pub proof fn lemma_replaced(ts: Seq<Shape>, n: int, t: Shape)
    requires
        0 <= n < ts.len(),
    ensures
        total(replaced(ts, n, t)) == total(ts) - kappa(ts[n]) + kappa(t),
        replaced(ts, n, t).len() == ts.len(),
        (forall|j: int| 0 <= j < ts.len() ==> is_binary(#[trigger] ts[j])) && is_binary(t) ==> (
        forall|j: int| 0 <= j < ts.len() ==> is_binary(#[trigger] replaced(ts, n, t)[j])),
{
    lemma_insert_pos_bounds(ts, t, 0);
    let i = insert_pos(ts, t);
    lemma_total_remove(ts, n);
    if i == ts.len() {
        assert(ts.remove(n).push(t) =~= ts.remove(n).insert(ts.len() - 1, t));
        lemma_total_insert(ts.remove(n), ts.len() - 1, t);
    } else if i == n {
        assert(ts.update(n, t) =~= ts.remove(n).insert(n, t));
        lemma_total_insert(ts.remove(n), n, t);
    } else if i < n {
        lemma_total_insert(ts.remove(n), i, t);
    } else {
        lemma_total_insert(ts.remove(n), i - 1, t);
    }
}

/// Sequences isomorphic position by position have the same leaf total, and
/// the same binary members.
pub proof fn lemma_iso_seq(a: Seq<Shape>, b: Seq<Shape>)
    requires
        iso_seq(a, b),
    ensures
        total(a) == total(b),
        forall|j: int| 0 <= j < a.len() ==> kappa(#[trigger] a[j]) == kappa(b[j]),
        forall|j: int| 0 <= j < a.len() ==> is_binary(#[trigger] a[j]) == is_binary(b[j]),
{
    assert forall|j: int| 0 <= j < a.len() implies kappa(#[trigger] a[j]) == kappa(b[j])
        && is_binary(a[j]) == is_binary(b[j]) by {
        lemma_iso_kappa(a[j], b[j]);
    }
    assert(kappas(a) =~= kappas(b));
}

/// A sequence of shapes in non-decreasing canonical order.
pub open spec fn sorted_nd(s: Seq<Shape>) -> bool {
    forall|i: int, j: int| 0 <= i < j < s.len() ==> cmp_shape(#[trigger] s[i], #[trigger] s[j]) != Ordering::Greater
}

/// Every internal node has its children in non-decreasing canonical order
/// and has at least two children.
pub open spec fn canonical(t: Shape) -> bool
    decreases t,
{
    match t {
        Phylo::Leaf(_) => true,
        Phylo::Node(ts) => {
            &&& ts@.len() >= 2
            &&& sorted_nd(ts@)
            &&& forall|i: int| 0 <= i < ts@.len() ==> canonical(#[trigger] ts@[i])
        },
    }
}

/// Every shape of `s` is canonical.
pub open spec fn all_canonical(s: Seq<Shape>) -> bool {
    forall|x: Shape| #[trigger] s.contains(x) ==> canonical(x)
}

pub proof fn lemma_canonical_node(v: Vec<Shape>)
    ensures
        canonical(Phylo::Node(v)) == (v@.len() >= 2 && sorted_nd(v@) && forall|i: int|
            0 <= i < v@.len() ==> canonical(#[trigger] v@[i])),
{
    let t = Phylo::<Tip>::Node(v);
    assert(t->Node_0 == v);
}

/// Comparisons do not see the difference between isomorphic shapes.
proof fn lemma_cmp_iso(a: Shape, b: Shape, c: Shape, d: Shape)
    requires
        iso(a, c),
        iso(b, d),
    ensures
        cmp_shape(a, b) == cmp_shape(c, d),
{
    crate::order::lemma_cmp_equal_iff_iso(a, c);
    crate::order::lemma_cmp_equal_iff_iso(b, d);
    crate::order::lemma_cmp_congruent(a, c, b);
    lemma_cmp_antisymmetric(b, c);
    lemma_cmp_antisymmetric(d, c);
    crate::order::lemma_cmp_congruent(b, d, c);
}

/// A shape isomorphic to a canonical one is canonical.
pub proof fn lemma_iso_canonical(a: Shape, b: Shape)
    requires
        iso(a, b),
        canonical(b),
    ensures
        canonical(a),
    decreases a,
{
    if let (Phylo::Node(xs), Phylo::Node(ys)) = (a, b) {
        lemma_canonical_node(xs);
        lemma_canonical_node(ys);
        assert forall|i: int| 0 <= i < xs@.len() implies canonical(#[trigger] xs@[i]) by {
            lemma_child_decreases(a, i);
            lemma_iso_canonical(xs@[i], ys@[i]);
        }
        assert forall|i: int, j: int| 0 <= i < j < xs@.len() implies cmp_shape(
            #[trigger] xs@[i],
            #[trigger] xs@[j],
        ) != Ordering::Greater by {
            lemma_cmp_iso(xs@[i], xs@[j], ys@[i], ys@[j]);
        }
    }
}

/// Inserting `t` where all earlier shapes are below it and all later ones
/// not below it keeps a sequence in non-decreasing order.
proof fn lemma_insert_nd(s: Seq<Shape>, p: int, t: Shape)
    requires
        sorted_nd(s),
        0 <= p <= s.len(),
        forall|j: int| 0 <= j < p ==> cmp_shape(#[trigger] s[j], t) == Ordering::Less,
        forall|j: int| p <= j < s.len() ==> cmp_shape(t, #[trigger] s[j]) != Ordering::Greater,
    ensures
        sorted_nd(s.insert(p, t)),
{
    let u = s.insert(p, t);
    assert forall|a: int, b: int| 0 <= a < b < u.len() implies cmp_shape(
        #[trigger] u[a],
        #[trigger] u[b],
    ) != Ordering::Greater by {
        if b < p {
            assert(u[a] == s[a] && u[b] == s[b]);
        } else if b == p {
            assert(u[a] == s[a]);
        } else if a < p {
            assert(u[a] == s[a] && u[b] == s[b - 1]);
        } else if a == p {
            assert(u[b] == s[b - 1]);
        } else {
            assert(u[a] == s[a - 1] && u[b] == s[b - 1]);
        }
    }
}

/// Replacing one shape of a non-decreasing sequence keeps it non-decreasing,
/// and keeps every member canonical when the new shape is.
/// In a non-decreasing sequence, no shape from the insertion position of `t`
/// on is below `t`.
proof fn lemma_after_pos(ts: Seq<Shape>, t: Shape)
    requires
        sorted_nd(ts),
    ensures
        forall|j: int| insert_pos(ts, t) <= j < ts.len() ==> cmp_shape(t, #[trigger] ts[j])
            != Ordering::Greater,
{
    lemma_insert_pos_bounds(ts, t, 0);
    let i = insert_pos(ts, t);
    assert forall|j: int| i <= j < ts.len() implies cmp_shape(t, #[trigger] ts[j])
        != Ordering::Greater by {
        lemma_cmp_antisymmetric(ts[i], t);
        crate::order::lemma_cmp_total_order(t, ts[i], ts[j]);
    }
}

#[verifier::spinoff_prover]
#[verifier::rlimit(50)]
pub proof fn lemma_replaced_nd(ts: Seq<Shape>, n: int, t: Shape)
    requires
        0 <= n < ts.len(),
        sorted_nd(ts),
    ensures
        sorted_nd(replaced(ts, n, t)),
{
    lemma_insert_pos_bounds(ts, t, 0);
    let i = insert_pos(ts, t);
    let s = ts.remove(n);
    lemma_remove_nd(ts, n);
    lemma_after_pos(ts, t);
    let p = if i <= n { i } else { i - 1 };
    assert forall|j: int| 0 <= j < p implies cmp_shape(#[trigger] s[j], t) == Ordering::Less by {
        if j < n {
            assert(s[j] == ts[j]);
        } else {
            assert(s[j] == ts[j + 1]);
        }
    }
    assert forall|j: int| p <= j < s.len() implies cmp_shape(t, #[trigger] s[j])
        != Ordering::Greater by {
        if j < n {
            assert(s[j] == ts[j]);
        } else {
            assert(s[j] == ts[j + 1]);
        }
    }
    lemma_insert_nd(s, p, t);
    if i == ts.len() {
        assert(ts.remove(n).push(t) =~= s.insert(p, t));
    } else if i == n {
        assert(ts.update(n, t) =~= s.insert(p, t));
    }
    assert(replaced(ts, n, t) == s.insert(p, t));
}

proof fn lemma_remove_nd(ts: Seq<Shape>, n: int)
    requires
        0 <= n < ts.len(),
        sorted_nd(ts),
    ensures
        sorted_nd(ts.remove(n)),
{
    let s = ts.remove(n);
    assert forall|a: int, b: int| 0 <= a < b < s.len() implies cmp_shape(
        #[trigger] s[a],
        #[trigger] s[b],
    ) != Ordering::Greater by {
        if b < n {
            assert(s[a] == ts[a] && s[b] == ts[b]);
        } else if a < n {
            assert(s[a] == ts[a] && s[b] == ts[b + 1]);
        } else {
            assert(s[a] == ts[a + 1] && s[b] == ts[b + 1]);
        }
    }
}

/// Replacing one shape keeps every member canonical when the new shape is.
pub proof fn lemma_replaced_canonical(ts: Seq<Shape>, n: int, t: Shape)
    requires
        0 <= n < ts.len(),
        forall|j: int| 0 <= j < ts.len() ==> canonical(#[trigger] ts[j]),
        canonical(t),
    ensures
        forall|j: int| 0 <= j < ts.len() ==> canonical(#[trigger] replaced(ts, n, t)[j]),
{
    lemma_insert_pos_bounds(ts, t, 0);
    lemma_replaced(ts, n, t);
}

/// A sequence isomorphic position by position to a non-decreasing sequence of
/// canonical shapes is one too.
proof fn lemma_iso_seq_canonical(a: Seq<Shape>, b: Seq<Shape>)
    requires
        iso_seq(a, b),
        sorted_nd(b),
        forall|j: int| 0 <= j < b.len() ==> canonical(#[trigger] b[j]),
    ensures
        sorted_nd(a),
        forall|j: int| 0 <= j < a.len() ==> canonical(#[trigger] a[j]),
{
    assert forall|i: int, j: int| 0 <= i < j < a.len() implies cmp_shape(
        #[trigger] a[i],
        #[trigger] a[j],
    ) != Ordering::Greater by {
        lemma_cmp_iso(a[i], a[j], b[i], b[j]);
    }
    assert forall|j: int| 0 <= j < a.len() implies canonical(#[trigger] a[j]) by {
        lemma_iso_canonical(a[j], b[j]);
    }
}

/// `x` is `t` with a new leaf on the edge above its root.
pub open spec fn edge_above(x: Shape, t: Shape) -> bool {
    x is Node && x->Node_0@.len() == 2 && x->Node_0@[0] is Leaf && iso(x->Node_0@[1], t)
}

/// `x` is an internal node whose children are, up to isomorphism, `ts` with
/// the child at `i` replaced by `s` and moved to the place its order warrants.
pub open spec fn grown_at(x: Shape, ts: Seq<Shape>, i: int, s: Shape) -> bool {
    x is Node && iso_seq(x->Node_0@, replaced(ts, i, s))
}

/// `x` is, up to isomorphism, `t` with one more leaf added at the node that
/// the child indices `path` lead to from the root: at that node, a leaf on the
/// edge above it or, unless `binary_only`, a new first child of it. On the way
/// down, `steps` holds the grown child at each level, and each is put back
/// where the order puts it.
pub open spec fn one_leaf_more(
    x: Shape,
    t: Shape,
    binary_only: bool,
    path: Seq<int>,
    steps: Seq<Shape>,
) -> bool
    decreases path.len(),
{
    if path.len() == 0 {
        ||| edge_above(x, t)
        ||| (!binary_only && t is Node && x is Node && iso_seq(
            x->Node_0@,
            seq![Phylo::Leaf(Tip {})] + t->Node_0@,
        ))
    } else {
        &&& t is Node
        &&& 0 <= path[0] < t->Node_0@.len()
        &&& steps.len() > 0
        &&& one_leaf_more(
            steps[0],
            t->Node_0@[path[0]],
            binary_only,
            path.drop_first(),
            steps.drop_first(),
        )
        &&& grown_at(x, t->Node_0@, path[0], steps[0])
    }
}

/// `x` is `t` with one leaf more, added somewhere.
pub open spec fn from_one_leaf_more(x: Shape, t: Shape, binary_only: bool) -> bool {
    exists|p: Seq<int>, st: Seq<Shape>| #[trigger] one_leaf_more(x, t, binary_only, p, st)
}

/// Every shape of `s` is `t` with one leaf more.
pub open spec fn all_from(s: Seq<Shape>, t: Shape, binary_only: bool) -> bool {
    forall|x: Shape| #[trigger] s.contains(x) ==> from_one_leaf_more(x, t, binary_only)
}

/// Every shape of `next` is some shape of `prev` with one leaf more.
pub open spec fn descends(next: Seq<Shape>, prev: Seq<Shape>, binary_only: bool) -> bool {
    forall|x: Shape| #[trigger] next.contains(x) ==> exists|y: Shape|
        prev.contains(y) && #[trigger] from_one_leaf_more(x, y, binary_only)
}

/// Where `replaced` puts the new shape, in `ts` without its `n`-th member.
pub open spec fn replace_pos(ts: Seq<Shape>, n: int, t: Shape) -> int {
    let i = insert_pos(ts, t);
    if i == ts.len() {
        ts.len() - 1
    } else if i <= n {
        i
    } else {
        i - 1
    }
}

proof fn lemma_replaced_as_insert(ts: Seq<Shape>, n: int, t: Shape)
    requires
        0 <= n < ts.len(),
    ensures
        0 <= replace_pos(ts, n, t) <= ts.len() - 1,
        replaced(ts, n, t) == ts.remove(n).insert(replace_pos(ts, n, t), t),
{
    lemma_insert_pos_bounds(ts, t, 0);
    let i = insert_pos(ts, t);
    if i == ts.len() {
        assert(ts.remove(n).push(t) =~= ts.remove(n).insert(ts.len() - 1, t));
    } else if i == n {
        assert(ts.update(n, t) =~= ts.remove(n).insert(n, t));
    }
}

proof fn lemma_insert_pos_iso(ts: Seq<Shape>, a: Shape, b: Shape, i: int)
    requires
        iso(a, b),
        0 <= i <= ts.len(),
    ensures
        insert_pos_from(ts, a, i) == insert_pos_from(ts, b, i),
    decreases ts.len() - i,
{
    if i < ts.len() {
        lemma_iso_equivalence(ts[i], ts[i], ts[i]);
        lemma_cmp_iso(ts[i], a, ts[i], b);
        lemma_insert_pos_iso(ts, a, b, i + 1);
    }
}

/// Replacing by isomorphic shapes gives isomorphic sequences.
proof fn lemma_replaced_iso(ts: Seq<Shape>, n: int, a: Shape, b: Shape)
    requires
        0 <= n < ts.len(),
        iso(a, b),
    ensures
        iso_seq(replaced(ts, n, a), replaced(ts, n, b)),
{
    lemma_insert_pos_iso(ts, a, b, 0);
    lemma_replaced_as_insert(ts, n, a);
    lemma_replaced_as_insert(ts, n, b);
    let q = replace_pos(ts, n, a);
    let s = ts.remove(n);
    let ra = s.insert(q, a);
    let rb = s.insert(q, b);
    assert forall|k: int| 0 <= k < ra.len() implies iso(#[trigger] ra[k], rb[k]) by {
        if k < q {
            lemma_iso_equivalence(s[k], s[k], s[k]);
        } else if k > q {
            lemma_iso_equivalence(s[k - 1], s[k - 1], s[k - 1]);
        }
    }
}

proof fn lemma_insert_pos_iso_seq(ts: Seq<Shape>, us: Seq<Shape>, t: Shape, i: int)
    requires
        iso_seq(ts, us),
        0 <= i <= ts.len(),
    ensures
        insert_pos_from(ts, t, i) == insert_pos_from(us, t, i),
    decreases ts.len() - i,
{
    if i < ts.len() {
        lemma_iso_equivalence(t, t, t);
        lemma_cmp_iso(ts[i], t, us[i], t);
        lemma_insert_pos_iso_seq(ts, us, t, i + 1);
    }
}

/// Replacing the same member of two isomorphic sequences by the same shape
/// gives isomorphic sequences.
proof fn lemma_replaced_iso_seq(ts: Seq<Shape>, us: Seq<Shape>, n: int, t: Shape)
    requires
        iso_seq(ts, us),
        0 <= n < ts.len(),
    ensures
        iso_seq(replaced(ts, n, t), replaced(us, n, t)),
{
    lemma_insert_pos_iso_seq(ts, us, t, 0);
    lemma_replaced_as_insert(ts, n, t);
    lemma_replaced_as_insert(us, n, t);
    let q = replace_pos(ts, n, t);
    let a = ts.remove(n);
    let b = us.remove(n);
    assert forall|k: int| 0 <= k < a.len() + 1 implies iso(
        #[trigger] a.insert(q, t)[k],
        b.insert(q, t)[k],
    ) by {
        lemma_iso_equivalence(t, t, t);
        if k < q {
            if k < n {
                assert(a[k] == ts[k] && b[k] == us[k]);
            } else {
                assert(a[k] == ts[k + 1] && b[k] == us[k + 1]);
            }
        } else if k > q {
            if k - 1 < n {
                assert(a[k - 1] == ts[k - 1] && b[k - 1] == us[k - 1]);
            } else {
                assert(a[k - 1] == ts[k] && b[k - 1] == us[k]);
            }
        }
    }
}

/// An insertion allowed in the binary regime is allowed in the general one.
proof fn lemma_one_leaf_more_general(x: Shape, y: Shape, path: Seq<int>, steps: Seq<Shape>)
    requires
        one_leaf_more(x, y, true, path, steps),
    ensures
        one_leaf_more(x, y, false, path, steps),
    decreases path.len(),
{
    if path.len() > 0 {
        lemma_one_leaf_more_general(steps[0], y->Node_0@[path[0]], path.drop_first(), steps.drop_first());
    }
}

/// A general insertion that yields a binary shape from a canonical one is a
/// binary insertion into a binary shape.
proof fn lemma_one_leaf_more_binary(x: Shape, y: Shape, path: Seq<int>, steps: Seq<Shape>)
    requires
        one_leaf_more(x, y, false, path, steps),
        is_binary(x),
        canonical(y),
    ensures
        one_leaf_more(x, y, true, path, steps),
        is_binary(y),
    decreases path.len(),
{
    lemma_kappa_node(x->Node_0);
    if path.len() == 0 {
        if edge_above(x, y) {
            lemma_iso_kappa(x->Node_0@[1], y);
        } else {
            lemma_canonical_node(y->Node_0);
            assert(x->Node_0@.len() == y->Node_0@.len() + 1);
        }
    } else {
        let i = path[0];
        let s = steps[0];
        let ys = y->Node_0@;
        lemma_canonical_node(y->Node_0);
        lemma_kappa_node(y->Node_0);
        lemma_replaced_as_insert(ys, i, s);
        let q = replace_pos(ys, i, s);
        let rs = replaced(ys, i, s);
        let xs = x->Node_0@;
        assert(iso_seq(xs, rs));
        assert(rs.len() == 2);
        assert forall|m: int| 0 <= m < 2 implies is_binary(#[trigger] rs[m]) by {
            lemma_iso_kappa(xs[m], rs[m]);
        }
        assert(rs[q] == s);
        lemma_one_leaf_more_binary(s, ys[i], path.drop_first(), steps.drop_first());
        assert(ys.len() == 2);
        let o = 1 - i;
        assert(ys.remove(i)[0] == ys[o]);
        if q == 0 {
            assert(rs[1] == ys.remove(i)[0]);
        } else {
            assert(rs[0] == ys.remove(i)[0]);
        }
        assert(is_binary(ys[0]) && is_binary(ys[1]));
    }
}

/// Adding a leaf does not see the difference between isomorphic shapes.
pub proof fn lemma_one_leaf_more_iso(
    x: Shape,
    y: Shape,
    z: Shape,
    binary_only: bool,
    path: Seq<int>,
    steps: Seq<Shape>,
)
    requires
        one_leaf_more(x, y, binary_only, path, steps),
        iso(y, z),
    ensures
        one_leaf_more(x, z, binary_only, path, steps),
    decreases path.len(),
{
    if path.len() == 0 {
        if edge_above(x, y) {
            lemma_iso_equivalence(x->Node_0@[1], y, z);
        } else {
            let ys = y->Node_0@;
            let zs = z->Node_0@;
            let l = Phylo::Leaf(Tip {});
            assert(iso_seq(seq![l] + ys, seq![l] + zs)) by {
                assert forall|k: int| 0 <= k < ys.len() + 1 implies iso(
                    #[trigger] (seq![l] + ys)[k],
                    (seq![l] + zs)[k],
                ) by {
                    if k > 0 {
                        assert((seq![l] + ys)[k] == ys[k - 1]);
                        assert((seq![l] + zs)[k] == zs[k - 1]);
                    }
                }
            }
            lemma_iso_seq_trans(x->Node_0@, seq![l] + ys, seq![l] + zs);
        }
    } else {
        let i = path[0];
        let ys = y->Node_0@;
        let zs = z->Node_0@;
        lemma_one_leaf_more_iso(steps[0], ys[i], zs[i], binary_only, path.drop_first(), steps.drop_first());
        assert(iso_seq(ys, zs));
        lemma_replaced_iso_seq(ys, zs, i, steps[0]);
        lemma_iso_seq_trans(x->Node_0@, replaced(ys, i, steps[0]), replaced(zs, i, steps[0]));
    }
}

proof fn lemma_iso_seq_trans(a: Seq<Shape>, b: Seq<Shape>, c: Seq<Shape>)
    requires
        iso_seq(a, b),
        iso_seq(b, c),
    ensures
        iso_seq(a, c),
{
    assert forall|k: int| 0 <= k < a.len() implies iso(#[trigger] a[k], c[k]) by {
        lemma_iso_equivalence(a[k], b[k], c[k]);
    }
}

/// A node whose children are isomorphic to those of `v` is isomorphic to
/// the node with children `v`.
proof fn lemma_iso_to_node(x: Shape, v: Vec<Shape>)
    requires
        x is Node,
        iso_seq(x->Node_0@, v@),
    ensures
        iso(x, Phylo::Node(v)),
{
    crate::shape::lemma_iso_node(x->Node_0, v);
}

proof fn lemma_iso_seq_sym(a: Seq<Shape>, b: Seq<Shape>)
    requires
        iso_seq(a, b),
    ensures
        iso_seq(b, a),
{
    assert forall|k: int| 0 <= k < b.len() implies iso(#[trigger] b[k], a[k]) by {
        lemma_iso_equivalence(a[k], b[k], a[k]);
    }
}

/// A leaf on the edge above `t` gives, up to isomorphism, the shape that
/// `add_leaf_to_edge` builds from a copy `c` of `t`.
proof fn lemma_edge_iso(x: Shape, e: Shape, c: Shape, t: Shape)
    requires
        edge_above(x, t),
        e is Node,
        e->Node_0@ == seq![Phylo::Leaf(Tip {}), c],
        iso(c, t),
    ensures
        iso(e, x),
{
    let xs = x->Node_0;
    let es = e->Node_0;
    lemma_iso_equivalence(c, t, c);
    lemma_iso_equivalence(xs@[1], t, c);
    assert(es@[1] == c);
    assert(iso(xs@[0], es@[0]));
    assert forall|k: int| 0 <= k < xs@.len() implies iso(#[trigger] xs@[k], es@[k]) by {
        if k == 1 {
            lemma_iso_equivalence(xs@[1], t, c);
        }
    }
    crate::shape::lemma_iso_node(xs, es);
    lemma_iso_equivalence(x, e, x);
}

/// A leaf added as a new first child of `t` gives, up to isomorphism, the
/// shape that `add_leaf_to_node` builds from a copy `c` of `t`.
proof fn lemma_node_insert_iso(x: Shape, m: Shape, c: Shape, t: Shape)
    requires
        t is Node,
        x is Node,
        iso_seq(x->Node_0@, seq![Phylo::Leaf(Tip {})] + t->Node_0@),
        m is Node,
        c is Node ==> m->Node_0@ == seq![Phylo::Leaf(Tip {})] + c->Node_0@,
        iso(c, t),
    ensures
        iso(m, x),
{
    let cs = c->Node_0@;
    let ts = t->Node_0@;
    let l = Phylo::Leaf(Tip {});
    assert(c is Node);
    assert(cs.len() == ts.len());
    let ms = m->Node_0@;
    let xs = x->Node_0@;
    assert forall|k: int| 0 <= k < xs.len() implies iso(#[trigger] xs[k], ms[k]) by {
        if k > 0 {
            assert((seq![l] + ts)[k] == ts[k - 1]);
            assert(ms[k] == cs[k - 1]);
            assert(iso(cs[k - 1], ts[k - 1]));
            lemma_iso_equivalence(xs[k], ts[k - 1], cs[k - 1]);
            lemma_iso_equivalence(cs[k - 1], ts[k - 1], xs[k]);
        } else {
            assert((seq![l] + ts)[0] == l);
            assert(ms[0] == l);
        }
    }
    crate::shape::lemma_iso_node(x->Node_0, m->Node_0);
    lemma_iso_equivalence(x, m, x);
}

/// The shape `add_leaf_to_node` builds from a copy `c` of `t` is `t` with a
/// new first child.
proof fn lemma_node_insert_sound(m: Shape, c: Shape, t: Shape)
    requires
        t is Node,
        m is Node,
        c is Node ==> m->Node_0@ == seq![Phylo::Leaf(Tip {})] + c->Node_0@,
        iso(c, t),
    ensures
        iso_seq(m->Node_0@, seq![Phylo::Leaf(Tip {})] + t->Node_0@),
{
    let cs = c->Node_0@;
    let ts = t->Node_0@;
    let l = Phylo::Leaf(Tip {});
    assert(c is Node);
    let ms = m->Node_0@;
    assert forall|k: int| 0 <= k < ms.len() implies iso(#[trigger] ms[k], (seq![l] + ts)[k]) by {
        if k > 0 {
            assert((seq![l] + ts)[k] == ts[k - 1]);
            assert(ms[k] == cs[k - 1]);
            assert(iso(cs[k - 1], ts[k - 1]));
        } else {
            assert((seq![l] + ts)[0] == l);
        }
    }
}

/// Coverage of every shape survives adding shapes to a set.
proof fn lemma_covers_mono_all(old_set: Seq<Shape>, new_set: Seq<Shape>, x: Shape)
    requires
        forall|y: Shape| old_set.contains(y) ==> new_set.contains(y),
    ensures
        covers(old_set, x) ==> covers(new_set, x),
{
    if covers(old_set, x) {
        lemma_covers_mono(old_set, new_set, x);
    }
}

proof fn lemma_covers_iso(set: Seq<Shape>, y: Shape, x: Shape)
    requires
        covers(set, y),
        iso(y, x),
    ensures
        covers(set, x),
{
    let j = choose|j: int| 0 <= j < set.len() && iso(#[trigger] set[j], y);
    lemma_iso_equivalence(set[j], y, x);
}

proof fn lemma_covers_mono(old_set: Seq<Shape>, new_set: Seq<Shape>, x: Shape)
    requires
        forall|y: Shape| old_set.contains(y) ==> new_set.contains(y),
        covers(old_set, x),
    ensures
        covers(new_set, x),
{
    let j = choose|j: int| 0 <= j < old_set.len() && iso(#[trigger] old_set[j], x);
    assert(old_set.contains(old_set[j]));
    let k = choose|k: int| 0 <= k < new_set.len() && new_set[k] == old_set[j];
}

/// Copies of each shape of `ts`.
fn copy_all(ts: &[Shape]) -> (r: Vec<Shape>)
    ensures
        iso_seq(r@, ts@),
{
    let mut r: Vec<Shape> = Vec::new();
    let mut i: usize = 0;
    while i < ts.len()
        invariant
            i <= ts@.len(),
            r@.len() == i,
            forall|j: int| 0 <= j < i ==> iso(#[trigger] r@[j], ts@[j]),
        decreases ts@.len() - i,
    {
        r.push(ts[i].clone_shape());
        i = i + 1;
    }
    r
}

/// The position at which `t` goes in `ts`.
fn find_insert_pos(ts: &[Shape], t: &Shape) -> (r: usize)
    ensures
        r == insert_pos(ts@, *t),
{
    let mut i: usize = 0;
    while i < ts.len()
        invariant
            i <= ts@.len(),
            insert_pos(ts@, *t) == insert_pos_from(ts@, *t, i as int),
        decreases ts@.len() - i,
    {
        match ts[i].cmp_shape_grlex(t) {
            Ordering::Less => {},
            _ => {
                return i;
            },
        }
        i = i + 1;
    }
    i
}

/// The shapes of `ts` with `t2` inserted at the position its order warrants.
pub fn iter_insert_tree(ts: &[Shape], t2: Shape) -> (r: Vec<Shape>)
    ensures
        iso_seq(r@, inserted(ts@, t2)),
{
    let i = find_insert_pos(ts, &t2);
    proof {
        lemma_insert_pos_bounds(ts@, t2, 0);
    }
    let mut r = copy_all(ts);
    let ghost before = r@;
    r.insert(i, t2);
    proof {
        lemma_iso_equivalence(t2, t2, t2);
        assert forall|j: int| 0 <= j < r@.len() implies iso(#[trigger] r@[j], inserted(ts@, t2)[j]) by {
            if j < i {
                assert(r@[j] == before[j]);
            } else if j > i {
                assert(r@[j] == before[j - 1]);
            }
        }
    }
    r
}

/// The children `ts` with the one at `n` replaced by `t2`, moved to the
/// position its order warrants.
pub fn replace_tree_at(ts: &[Shape], n: usize, t2: Shape) -> (r: Vec<Shape>)
    requires
        n < ts@.len(),
    ensures
        iso_seq(r@, replaced(ts@, n as int, t2)),
{
    let i = find_insert_pos(ts, &t2);
    proof {
        lemma_insert_pos_bounds(ts@, t2, 0);
        lemma_iso_equivalence(t2, t2, t2);
    }
    let mut r = copy_all(ts);
    let ghost c = r@;
    let ghost want = replaced(ts@, n as int, t2);
    if i == ts.len() {
        r.remove(n);
        r.push(t2);
        proof {
            assert forall|j: int| 0 <= j < r@.len() implies iso(#[trigger] r@[j], want[j]) by {
                if j < n {
                    assert(r@[j] == c[j]);
                } else if j < r@.len() - 1 {
                    assert(r@[j] == c[j + 1]);
                }
            }
        }
    } else if i == n {
        r.set(n, t2);
        proof {
            assert forall|j: int| 0 <= j < r@.len() implies iso(#[trigger] r@[j], want[j]) by {
                if j != n {
                    assert(r@[j] == c[j]);
                }
            }
        }
    } else if i < n {
        r.remove(n);
        r.insert(i, t2);
        proof {
            assert forall|j: int| 0 <= j < r@.len() implies iso(#[trigger] r@[j], want[j]) by {
                if j < i {
                    assert(r@[j] == c[j]);
                } else if i < j <= n {
                    assert(r@[j] == c[j - 1]);
                } else if j > n {
                    assert(r@[j] == c[j]);
                }
            }
        }
    } else {
        r.remove(n);
        r.insert(i - 1, t2);
        proof {
            assert forall|j: int| 0 <= j < r@.len() implies iso(#[trigger] r@[j], want[j]) by {
                if j < n {
                    assert(r@[j] == c[j]);
                } else if n <= j < i - 1 {
                    assert(r@[j] == c[j + 1]);
                } else if j > i - 1 {
                    assert(r@[j] == c[j]);
                }
            }
        }
    }
    r
}

/// The shape with a new leaf and `t` under a new root: a leaf inserted on the
/// edge above `t`.
pub fn add_leaf_to_edge(t: Shape) -> (r: Shape)
    ensures
        r is Node,
        r->Node_0@ == seq![Phylo::Leaf(Tip {}), t],
        kappa(r) == kappa(t) + 1,
        is_binary(r) == is_binary(t),
        canonical(r) == canonical(t),
{
    let mut ts: Vec<Shape> = Vec::new();
    ts.push(Shape::leaf());
    ts.push(t);
    proof {
        let l = Phylo::Leaf(Tip {});
        lemma_canonical_node(ts);
        assert(cmp_shape(ts@[0], ts@[1]) != Ordering::Greater);
        assert(ts@ =~= seq![l] + seq![t]);
        lemma_total_concat(seq![l], seq![t]);
        lemma_total_single(l);
        lemma_total_single(t);
        lemma_kappa_node(ts);
    }
    Shape::node(ts)
}

/// A new leaf added as the first child of the root of `t` (on the edge above
/// `t` when `t` is a leaf).
pub fn add_leaf_to_node(t: Shape) -> (r: Shape)
    ensures
        r is Node,
        t is Leaf ==> r->Node_0@ == seq![Phylo::Leaf(Tip {}), t],
        t is Node ==> r->Node_0@ == seq![Phylo::Leaf(Tip {})] + t->Node_0@,
        kappa(r) == kappa(t) + 1,
        canonical(t) ==> canonical(r),
{
    match t {
        Phylo::Leaf(_) => add_leaf_to_edge(t),
        Phylo::Node(ts) => {
            proof {
                lemma_kappa_node(ts);
                lemma_canonical_node(ts);
            }
            let ghost old_ts = ts@;
            let mut ts = ts;
            let mut ts2: Vec<Shape> = Vec::new();
            ts2.push(Shape::leaf());
            ts2.append(&mut ts);
            proof {
                let l = Phylo::Leaf(Tip {});
                assert(ts2@ =~= seq![l] + old_ts);
                lemma_total_concat(seq![l], old_ts);
                lemma_total_single(l);
                lemma_kappa_node(ts2);
                lemma_canonical_node(ts2);
                if canonical(t) {
                    assert forall|a: int, b: int| 0 <= a < b < ts2@.len() implies cmp_shape(
                        #[trigger] ts2@[a],
                        #[trigger] ts2@[b],
                    ) != Ordering::Greater by {
                        if a > 0 {
                            assert(ts2@[a] == old_ts[a - 1] && ts2@[b] == old_ts[b - 1]);
                        }
                    }
                    assert forall|i: int| 0 <= i < ts2@.len() implies canonical(#[trigger] ts2@[i]) by {
                        if i > 0 {
                            assert(ts2@[i] == old_ts[i - 1]);
                        }
                    }
                }
            }
            Shape::node(ts2)
        },
    }
}

/// Adds `t` to the sorted set `set`, unless an isomorphic shape is there.
pub fn insert_shape(set: &mut Vec<Shape>, t: Shape)
    requires
        sorted_set(old(set)@),
    ensures
        sorted_set(final(set)@),
        forall|x: Shape| old(set)@.contains(x) ==> final(set)@.contains(x),
        forall|x: Shape| #[trigger] final(set)@.contains(x) ==> old(set)@.contains(x) || x == t,
        covers(final(set)@, t),
{
    let p = find_insert_pos(set.as_slice(), &t);
    proof {
        lemma_insert_pos_bounds(set@, t, 0);
    }
    if p < set.len() {
        match set[p].cmp_shape_grlex(&t) {
            Ordering::Equal => {
                proof {
                    crate::order::lemma_cmp_equal_iff_iso(set@[p as int], t);
                }
                return;
            },
            _ => {},
        }
    }
    let ghost s = set@;
    proof {
        assert forall|j: int| p <= j < s.len() implies cmp_shape(t, #[trigger] s[j]) == Ordering::Less by {
            lemma_cmp_antisymmetric(s[p as int], t);
            if j > p {
                lemma_cmp_transitive(t, s[p as int], s[j]);
            }
        }
    }
    set.insert(p, t);
    proof {
        lemma_iso_equivalence(t, t, t);
        assert(set@[p as int] == t);
        lemma_insert_sorted(s, p as int, t);
        lemma_insert_contains(s, p as int, t);
    }
}

proof fn lemma_insert_sorted(s: Seq<Shape>, p: int, t: Shape)
    requires
        sorted_set(s),
        0 <= p <= s.len(),
        forall|j: int| 0 <= j < p ==> cmp_shape(#[trigger] s[j], t) == Ordering::Less,
        forall|j: int| p <= j < s.len() ==> cmp_shape(t, #[trigger] s[j]) == Ordering::Less,
    ensures
        sorted_set(s.insert(p, t)),
{
    let u = s.insert(p, t);
    assert forall|a: int, b: int| 0 <= a < b < u.len() implies cmp_shape(
        #[trigger] u[a],
        #[trigger] u[b],
    ) == Ordering::Less by {
        if b < p {
            assert(u[a] == s[a] && u[b] == s[b]);
        } else if b == p {
            assert(u[a] == s[a]);
        } else if a < p {
            assert(u[a] == s[a] && u[b] == s[b - 1]);
            lemma_cmp_transitive(s[a], t, s[b - 1]);
        } else if a == p {
            assert(u[b] == s[b - 1]);
        } else {
            assert(u[a] == s[a - 1] && u[b] == s[b - 1]);
        }
    }
}

proof fn lemma_insert_contains(s: Seq<Shape>, p: int, t: Shape)
    requires
        0 <= p <= s.len(),
    ensures
        forall|x: Shape| s.contains(x) ==> s.insert(p, t).contains(x),
        forall|x: Shape| #[trigger] s.insert(p, t).contains(x) ==> s.contains(x) || x == t,
{
    let u = s.insert(p, t);
    assert forall|x: Shape| s.contains(x) implies u.contains(x) by {
        let k = choose|k: int| 0 <= k < s.len() && s[k] == x;
        if k < p {
            assert(u[k] == x);
        } else {
            assert(u[k + 1] == x);
        }
    }
    assert forall|x: Shape| #[trigger] u.contains(x) implies s.contains(x) || x == t by {
        let k = choose|k: int| 0 <= k < u.len() && u[k] == x;
        if k < p {
            assert(s[k] == x);
        } else if k > p {
            assert(s[k - 1] == x);
        }
    }
}

/// Adds every shape of `items` to the sorted set `set`.
pub fn merge_shapes(set: &mut Vec<Shape>, items: Vec<Shape>)
    requires
        sorted_set(old(set)@),
    ensures
        sorted_set(final(set)@),
        forall|x: Shape| old(set)@.contains(x) ==> final(set)@.contains(x),
        forall|x: Shape| #[trigger] final(set)@.contains(x) ==> old(set)@.contains(x) || items@.contains(x),
        forall|i: int| 0 <= i < items@.len() ==> covers(final(set)@, #[trigger] items@[i]),
{
    let ghost s0 = set@;
    let ghost it = items@;
    let ghost items_in = items;
    let mut items = items;
    while items.len() > 0
        invariant
            sorted_set(set@),
            items@.len() <= it.len(),
            items@ == it.take(items@.len() as int),
            forall|x: Shape| s0.contains(x) ==> set@.contains(x),
            forall|x: Shape| #[trigger] set@.contains(x) ==> s0.contains(x) || it.contains(x),
            forall|i: int| items@.len() <= i < it.len() ==> covers(set@, #[trigger] it[i]),
        decreases items@.len(),
    {
        let ghost k = items@.len() - 1;
        let ghost before = set@;
        let t = items.pop().unwrap();
        assert(t == it[k]);
        insert_shape(set, t);
        proof {
            assert(items@ =~= it.take(k));
            assert forall|x: Shape| #[trigger] set@.contains(x) implies s0.contains(x) || it.contains(x) by {
                if x == t {
                    assert(it[k] == x);
                }
            }
            assert forall|i: int| k <= i < it.len() implies covers(set@, #[trigger] it[i]) by {
                if i > k {
                    let j0 = choose|j: int| 0 <= j < before.len() && iso(#[trigger] before[j], it[i]);
                    assert(before.contains(before[j0]));
                    assert(set@.contains(before[j0]));
                    let j1 = choose|j: int| 0 <= j < set@.len() && set@[j] == before[j0];
                    assert(iso(set@[j1], it[i]));
                }
            }
        }
    }
    proof {
        assert(it.take(0) =~= Seq::<Shape>::empty());
        assert(it == items_in@);
    }
}

/// Every shape obtained from `t` by adding one leaf: on the edge above any
/// node and, unless `binary_only`, as a new child of any internal node; as a
/// sorted set.
pub fn expand_shape(t: &Shape, binary_only: bool) -> (r: Vec<Shape>)
    ensures
        sorted_set(r@),
        all_ok(r@, kappa(*t) + 1, binary_only && is_binary(*t)),
        canonical(*t) ==> all_canonical(r@),
        forall|x: Shape, p: Seq<int>, st: Seq<Shape>|
            #[trigger] one_leaf_more(x, *t, binary_only, p, st) ==> covers(r@, x),
        all_from(r@, *t, binary_only),
    decreases t,
{
    let ghost bin = binary_only && is_binary(*t);
    let ghost k1 = kappa(*t) + 1;
    let mut r: Vec<Shape> = Vec::new();
    match t {
        Phylo::Leaf(_) => {
            assert forall|x: Shape, p: Seq<int>, st: Seq<Shape>|
                #[trigger] one_leaf_more(x, *t, binary_only, p, st) && !edge_above(x, *t) implies covers(
                r@,
                x,
            ) by {}
        },
        Phylo::Node(ts) => {
            let ghost tsq = ts@;
            proof {
                lemma_kappa_node(*ts);
                lemma_canonical_node(*ts);
            }
            let mut i: usize = 0;
            while i < ts.len()
                invariant
                    *t == Phylo::Node(*ts),
                    tsq == ts@,
                    i <= ts@.len(),
                    sorted_set(r@),
                    bin == (binary_only && is_binary(*t)),
                    k1 == kappa(*t) + 1,
                    kappa(*t) == total(ts@),
                    is_binary(*t) == (ts@.len() == 2 && is_binary(ts@[0]) && is_binary(ts@[1])),
                    all_ok(r@, k1, bin),
                    all_from(r@, *t, binary_only),
                    canonical(*t) ==> all_canonical(r@),
                    canonical(*t) == (ts@.len() >= 2 && sorted_nd(ts@) && forall|m: int|
                        0 <= m < ts@.len() ==> canonical(#[trigger] ts@[m])),
                    forall|x: Shape, i2: int, s: Shape, p: Seq<int>, st: Seq<Shape>|
                        0 <= i2 < i && #[trigger] one_leaf_more(s, tsq[i2], binary_only, p, st)
                            && #[trigger] grown_at(x, tsq, i2, s) ==> covers(r@, x),
                decreases ts@.len() - i,
            {
                proof {
                    lemma_child_decreases(*t, i as int);
                }
                let subs = expand_shape(&ts[i], binary_only);
                let ghost r_start = r@;
                let mut j: usize = 0;
                while j < subs.len()
                    invariant
                        *t == Phylo::Node(*ts),
                        tsq == ts@,
                        i < ts@.len(),
                        j <= subs@.len(),
                        sorted_set(r@),
                        bin == (binary_only && is_binary(*t)),
                        k1 == kappa(*t) + 1,
                        kappa(*t) == total(ts@),
                        is_binary(*t) == (ts@.len() == 2 && is_binary(ts@[0]) && is_binary(ts@[1])),
                        all_ok(r@, k1, bin),
                        all_ok(subs@, kappa(ts@[i as int]) + 1, binary_only && is_binary(ts@[i as int])),
                        all_from(r@, *t, binary_only),
                        all_from(subs@, ts@[i as int], binary_only),
                        canonical(*t) ==> all_canonical(r@),
                        canonical(ts@[i as int]) ==> all_canonical(subs@),
                        canonical(*t) == (ts@.len() >= 2 && sorted_nd(ts@) && forall|m: int|
                            0 <= m < ts@.len() ==> canonical(#[trigger] ts@[m])),
                        forall|y: Shape| r_start.contains(y) ==> r@.contains(y),
                        forall|x: Shape, j2: int|
                            0 <= j2 < j && #[trigger] grown_at(x, tsq, i as int, subs@[j2]) ==> covers(r@, x),
                    decreases subs@.len() - j,
                {
                    let ch2 = subs[j].clone_shape();
                    proof {
                        assert(subs@.contains(subs@[j as int]));
                        lemma_iso_kappa(ch2, subs@[j as int]);
                        lemma_replaced(ts@, i as int, ch2);
                    }
                    let children = replace_tree_at(ts.as_slice(), i, ch2);
                    proof {
                        lemma_iso_seq(children@, replaced(ts@, i as int, ch2));
                        lemma_kappa_node(children);
                        if bin {
                            assert(is_binary(ts@[i as int]));
                            assert(forall|m: int| 0 <= m < ts@.len() ==> is_binary(#[trigger] ts@[m]));
                            assert(is_binary(children@[0]) && is_binary(children@[1]));
                        }
                        lemma_canonical_node(children);
                        if canonical(*t) {
                            lemma_iso_canonical(ch2, subs@[j as int]);
                            lemma_replaced_nd(ts@, i as int, ch2);
                            lemma_replaced_canonical(ts@, i as int, ch2);
                            lemma_iso_seq_canonical(children@, replaced(ts@, i as int, ch2));
                        }
                    }
                    let ghost cv = children;
                    let n = Shape::node(children);
                    assert(shape_ok(n, k1, bin));
                    assert(canonical(*t) ==> canonical(n));
                    let ghost before = r@;
                    proof {
                        assert(subs@.contains(subs@[j as int]));
                        let (p0, st0) = choose|p0: Seq<int>, st0: Seq<Shape>|
                            #[trigger] one_leaf_more(subs@[j as int], ts@[i as int], binary_only, p0, st0);
                        let path = seq![i as int] + p0;
                        let steps = seq![subs@[j as int]] + st0;
                        assert(path.drop_first() =~= p0);
                        assert(steps.drop_first() =~= st0);
                        assert((*t)->Node_0 == *ts);
                        lemma_replaced_iso(tsq, i as int, ch2, subs@[j as int]);
                        lemma_iso_seq_trans(
                            cv@,
                            replaced(tsq, i as int, ch2),
                            replaced(tsq, i as int, subs@[j as int]),
                        );
                        assert(grown_at(n, tsq, i as int, subs@[j as int]));
                        assert(one_leaf_more(n, *t, binary_only, path, steps));
                        assert(from_one_leaf_more(n, *t, binary_only));
                    }
                    insert_shape(&mut r, n);
                    proof {
                        assert forall|x: Shape| #[trigger] r@.contains(x) implies from_one_leaf_more(
                            x,
                            *t,
                            binary_only,
                        ) by {
                            if before.contains(x) {
                            }
                        }
                        assert forall|x: Shape, j2: int|
                            0 <= j2 < j + 1 && #[trigger] grown_at(x, tsq, i as int, subs@[j2])
                                implies covers(r@, x) by {
                            if j2 < j {
                                lemma_covers_mono(before, r@, x);
                            } else {
                                lemma_iso_equivalence(ch2, subs@[j as int], ch2);
                                lemma_replaced_iso(tsq, i as int, subs@[j as int], ch2);
                                lemma_iso_seq_trans(
                                    x->Node_0@,
                                    replaced(tsq, i as int, subs@[j as int]),
                                    replaced(tsq, i as int, ch2),
                                );
                                lemma_iso_seq_sym(cv@, replaced(tsq, i as int, ch2));
                                lemma_iso_seq_trans(x->Node_0@, replaced(tsq, i as int, ch2), cv@);
                                lemma_iso_to_node(x, cv);
                                lemma_iso_equivalence(x, n, x);
                                lemma_covers_iso(r@, n, x);
                            }
                        }
                    }
                    j = j + 1;
                }
                proof {
                    assert forall|x: Shape, i2: int, s: Shape, p: Seq<int>, st: Seq<Shape>|
                        0 <= i2 < i + 1 && #[trigger] one_leaf_more(s, tsq[i2], binary_only, p, st)
                            && #[trigger] grown_at(x, tsq, i2, s) implies covers(r@, x) by {
                        if i2 < i {
                            lemma_covers_mono(r_start, r@, x);
                        } else {
                            assert(covers(subs@, s));
                            let j2 = choose|j2: int| 0 <= j2 < subs@.len() && iso(#[trigger] subs@[j2], s);
                            lemma_iso_equivalence(subs@[j2], s, s);
                            lemma_replaced_iso(tsq, i as int, s, subs@[j2]);
                            lemma_iso_seq_trans(
                                x->Node_0@,
                                replaced(tsq, i as int, s),
                                replaced(tsq, i as int, subs@[j2]),
                            );
                            assert(grown_at(x, tsq, i as int, subs@[j2]));
                        }
                    }
                }
                i = i + 1;
            }
            if !binary_only {
                let c = t.clone_shape();
                proof {
                    lemma_iso_kappa(c, *t);
                    if canonical(*t) {
                        lemma_iso_canonical(c, *t);
                    }
                }
                let ghost cg = c;
                let m = add_leaf_to_node(c);
                let ghost before = r@;
                let ghost mg = m;
                proof {
                    lemma_node_insert_sound(mg, cg, *t);
                    assert(one_leaf_more(mg, *t, binary_only, Seq::empty(), Seq::empty()));
                }
                insert_shape(&mut r, m);
                proof {
                    assert forall|x: Shape| #[trigger] r@.contains(x) implies from_one_leaf_more(
                        x,
                        *t,
                        binary_only,
                    ) by {
                        if x == mg {
                            assert(one_leaf_more(mg, *t, binary_only, Seq::empty(), Seq::empty()));
                        }
                    }
                    assert forall|x: Shape, i2: int, s: Shape, p: Seq<int>, st: Seq<Shape>|
                        0 <= i2 < ts@.len() && #[trigger] one_leaf_more(s, tsq[i2], binary_only, p, st)
                            && #[trigger] grown_at(x, tsq, i2, s) implies covers(r@, x) by {
                        lemma_covers_mono(before, r@, x);
                    }
                    assert forall|x: Shape|
                        x is Node && iso_seq(x->Node_0@, seq![Phylo::Leaf(Tip {})] + tsq)
                            implies #[trigger] covers(r@, x) by {
                        lemma_node_insert_iso(x, mg, cg, *t);
                        lemma_covers_iso(r@, mg, x);
                    }
                }
            }
            proof {
                assert forall|x: Shape, p: Seq<int>, st: Seq<Shape>|
                    #[trigger] one_leaf_more(x, *t, binary_only, p, st) && !edge_above(x, *t)
                    implies covers(r@, x) by {
                    assert((*t)->Node_0 == *ts);
                    if p.len() > 0 {
                        assert(one_leaf_more(st[0], tsq[p[0]], binary_only, p.drop_first(), st.drop_first()));
                        assert(grown_at(x, tsq, p[0], st[0]));
                    }
                }
            }
        },
    }
    let c = t.clone_shape();
    proof {
        lemma_iso_kappa(c, *t);
        if canonical(*t) {
            lemma_iso_canonical(c, *t);
        }
    }
    let ghost cg = c;
    let e = add_leaf_to_edge(c);
    let ghost eg = e;
    let ghost before = r@;
    proof {
        lemma_iso_equivalence(cg, *t, cg);
        assert(eg->Node_0@[1] == cg);
        assert(edge_above(eg, *t));
        assert(one_leaf_more(eg, *t, binary_only, Seq::empty(), Seq::empty()));
    }
    insert_shape(&mut r, e);
    proof {
        assert forall|x: Shape| #[trigger] r@.contains(x) implies from_one_leaf_more(
            x,
            *t,
            binary_only,
        ) by {
            if x == eg {
                assert(one_leaf_more(eg, *t, binary_only, Seq::empty(), Seq::empty()));
            }
        }
        assert forall|x: Shape, p: Seq<int>, st: Seq<Shape>|
            #[trigger] one_leaf_more(x, *t, binary_only, p, st) implies covers(r@, x) by {
            if edge_above(x, *t) {
                lemma_edge_iso(x, eg, cg, *t);
                lemma_covers_iso(r@, eg, x);
            } else {
                lemma_covers_mono_all(before, r@, x);
            }
        }
    }
    r
}

/// Relies on rayon's `par_iter().map(..).collect_into_vec(..)` over a slice:
/// the closure runs on worker threads, and the vector receives one result per
/// shape of `prev`, in the shapes' order, each what `expand_shape` returned
/// for that shape.
#[verifier::external_body]
fn expand_all(prev: &Vec<Shape>, binary_only: bool) -> (r: Vec<Vec<Shape>>)
    ensures
        r@.len() == prev@.len(),
        forall|i: int|
            0 <= i < prev@.len() ==> sorted_set(#[trigger] r@[i]@) && all_ok(
                r@[i]@,
                kappa(prev@[i]) + 1,
                binary_only && is_binary(prev@[i]),
            ) && (canonical(prev@[i]) ==> all_canonical(r@[i]@)),
        forall|i: int, x: Shape, p: Seq<int>, st: Seq<Shape>|
            0 <= i < prev@.len() && #[trigger] one_leaf_more(x, prev@[i], binary_only, p, st)
                ==> covers(#[trigger] r@[i]@, x),
        forall|i: int| 0 <= i < prev@.len() ==> all_from(#[trigger] r@[i]@, prev@[i], binary_only),
{
    let mut r: Vec<Vec<Shape>> = Vec::new();
    prev.par_iter().map(|t| expand_shape(t, binary_only)).collect_into_vec(&mut r);
    r
}

/// The union of the expansions of all shapes of `prev`, as a sorted set; the
/// expansions are computed in parallel. When all shapes of `prev` have `k`
/// leaves, all shapes of the result have `k + 1`, and binary ones grow binary
/// ones.
pub fn next_level(prev: &Vec<Shape>, binary_only: bool) -> (r: Vec<Shape>)
    ensures
        sorted_set(r@),
        forall|k: int| #[trigger] all_ok(prev@, k, binary_only) ==> all_ok(r@, k + 1, binary_only),
        all_canonical(prev@) ==> all_canonical(r@),
        forall|x: Shape, y: Shape, p: Seq<int>, st: Seq<Shape>|
            prev@.contains(y) && #[trigger] one_leaf_more(x, y, binary_only, p, st) ==> covers(r@, x),
        descends(r@, prev@, binary_only),
{
    let mut parts = expand_all(prev, binary_only);
    let ghost whole = parts@;
    let mut r: Vec<Shape> = Vec::new();
    while parts.len() > 0
        invariant
            sorted_set(r@),
            whole.len() == prev@.len(),
            parts@.len() <= whole.len(),
            parts@ == whole.take(parts@.len() as int),
            forall|i: int|
                0 <= i < prev@.len() ==> sorted_set(#[trigger] whole[i]@) && all_ok(
                    whole[i]@,
                    kappa(prev@[i]) + 1,
                    binary_only && is_binary(prev@[i]),
                ) && (canonical(prev@[i]) ==> all_canonical(whole[i]@)),
            forall|k: int| #[trigger] all_ok(prev@, k, binary_only) ==> all_ok(r@, k + 1, binary_only),
            all_canonical(prev@) ==> all_canonical(r@),
            forall|i: int, x: Shape, p: Seq<int>, st: Seq<Shape>|
                0 <= i < prev@.len() && #[trigger] one_leaf_more(x, prev@[i], binary_only, p, st)
                    ==> covers(#[trigger] whole[i]@, x),
            forall|i: int, x: Shape, p: Seq<int>, st: Seq<Shape>|
                parts@.len() <= i < prev@.len() && #[trigger] one_leaf_more(x, prev@[i], binary_only, p, st)
                    ==> covers(r@, x),
            forall|i: int| 0 <= i < prev@.len() ==> all_from(#[trigger] whole[i]@, prev@[i], binary_only),
            descends(r@, prev@, binary_only),
        decreases parts@.len(),
    {
        let ghost i = parts@.len() - 1;
        let items = parts.pop().unwrap();
        assert(items == whole[i]);
        let ghost before = r@;
        let ghost it = items@;
        merge_shapes(&mut r, items);
        proof {
            assert(parts@ =~= whole.take(i));
            assert forall|x: Shape| #[trigger] r@.contains(x) implies exists|y: Shape|
                prev@.contains(y) && #[trigger] from_one_leaf_more(x, y, binary_only) by {
                if !before.contains(x) {
                    assert(it.contains(x));
                    assert(all_from(whole[i]@, prev@[i], binary_only));
                    assert(prev@.contains(prev@[i]));
                    assert(from_one_leaf_more(x, prev@[i], binary_only));
                }
            }
            assert forall|i2: int, x: Shape, p: Seq<int>, st: Seq<Shape>|
                parts@.len() <= i2 < prev@.len() && #[trigger] one_leaf_more(x, prev@[i2], binary_only, p, st)
                    implies covers(r@, x) by {
                if i2 == i {
                    assert(covers(whole[i]@, x));
                    let j = choose|j: int| 0 <= j < it.len() && iso(#[trigger] it[j], x);
                    assert(covers(r@, it[j]));
                    lemma_covers_iso(r@, it[j], x);
                } else {
                    lemma_covers_mono(before, r@, x);
                }
            }
            if all_canonical(prev@) {
                assert(prev@.contains(prev@[i]));
                assert forall|x: Shape| #[trigger] r@.contains(x) implies canonical(x) by {
                    if !before.contains(x) {
                        assert(it.contains(x));
                    }
                }
            }
            assert forall|k: int| #[trigger] all_ok(prev@, k, binary_only) implies all_ok(
                r@,
                k + 1,
                binary_only,
            ) by {
                assert(prev@.contains(prev@[i]));
                assert forall|x: Shape| #[trigger] r@.contains(x) implies shape_ok(x, k + 1, binary_only) by {
                    if before.contains(x) {
                    } else {
                        assert(it.contains(x));
                    }
                }
            }
        }
    }
    proof {
        assert forall|x: Shape, y: Shape, p: Seq<int>, st: Seq<Shape>|
            prev@.contains(y) && #[trigger] one_leaf_more(x, y, binary_only, p, st) implies covers(r@, x) by {
            let k = choose|k: int| 0 <= k < prev@.len() && prev@[k] == y;
            assert(one_leaf_more(x, prev@[k], binary_only, p, st));
        }
    }
    r
}

/// The base levels: no shape with 0 leaves, the single leaf with 1 leaf; and
/// every level `k` holds a sorted set of shapes with `k` leaves, binary ones
/// when `binary_only`.
pub open spec fn base_levels(levels: Seq<Vec<Shape>>, binary_only: bool) -> bool {
    &&& levels.len() >= 2
    &&& levels[0]@.len() == 0
    &&& levels[1]@.len() == 1
    &&& levels[1]@[0] is Leaf
    &&& forall|k: int| 0 <= k < levels.len() ==> sorted_set(#[trigger] levels[k]@)
    &&& forall|k: int| 0 <= k < levels.len() ==> all_ok(#[trigger] levels[k]@, k, binary_only)
    &&& forall|k: int| 0 <= k < levels.len() ==> all_canonical(#[trigger] levels[k]@)
    &&& forall|k: int| 2 <= k < levels.len() ==> grows_from(#[trigger] levels[k]@, levels[k - 1]@, binary_only)
    &&& forall|k: int| 2 <= k < levels.len() ==> descends(#[trigger] levels[k]@, levels[k - 1]@, binary_only)
}

/// Every shape with one leaf more than some shape of `prev` is covered by
/// `next`.
pub open spec fn grows_from(next: Seq<Shape>, prev: Seq<Shape>, binary_only: bool) -> bool {
    forall|x: Shape, y: Shape, p: Seq<int>, st: Seq<Shape>|
        prev.contains(y) && #[trigger] one_leaf_more(x, y, binary_only, p, st) ==> covers(next, x)
}

/// `ys` is a chain of shapes that starts at the single leaf, each with one
/// leaf more than the one before it, added as `paths` and `steps` say.
pub open spec fn insertion_chain(
    ys: Seq<Shape>,
    paths: Seq<Seq<int>>,
    steps: Seq<Seq<Shape>>,
    binary_only: bool,
) -> bool {
    &&& ys.len() >= 1
    &&& ys[0] is Leaf
    &&& paths.len() >= ys.len() - 1
    &&& steps.len() >= ys.len() - 1
    &&& forall|k: int|
        0 <= k < ys.len() - 1 ==> one_leaf_more(
            #[trigger] ys[k + 1],
            ys[k],
            binary_only,
            paths[k],
            steps[k],
        )
}

/// The shapes with each number of leaves, computed once per leaf count and
/// kept: level `k` of `binary` holds the binary shapes with `k` leaves, level
/// `k` of `general` all shapes with `k` leaves.
pub struct ShapeCache {
    binary: Vec<Vec<Shape>>,
    general: Vec<Vec<Shape>>,
}

impl ShapeCache {
    /// The levels computed so far for one regime.
    pub closed spec fn levels(&self, binary_only: bool) -> Seq<Vec<Shape>> {
        if binary_only {
            self.binary@
        } else {
            self.general@
        }
    }

    pub closed spec fn wf(&self) -> bool {
        base_levels(self.binary@, true) && base_levels(self.general@, false)
    }

    fn base(binary_only: bool) -> (r: Vec<Vec<Shape>>)
        ensures
            base_levels(r@, binary_only),
            r@.len() == 2,
    {
        let mut r: Vec<Vec<Shape>> = Vec::new();
        r.push(Vec::new());
        let mut one: Vec<Shape> = Vec::new();
        one.push(Shape::leaf());
        proof {
            let l = Phylo::<Tip>::Leaf(Tip {});
            assert(one@ =~= seq![l]);
            assert(kappa(l) == 1);
            assert forall|x: Shape| #[trigger] one@.contains(x) implies shape_ok(x, 1, binary_only)
                && canonical(x) by {
                assert(one@[0] == x);
            }
        }
        r.push(one);
        r
    }

    /// An empty cache: only the levels of 0 and 1 leaves are known.
    pub fn new() -> (r: Self)
        ensures
            r.wf(),
            r.levels(true).len() == 2,
            r.levels(false).len() == 2,
    {
        ShapeCache { binary: Self::base(true), general: Self::base(false) }
    }

    fn extend(levels: &mut Vec<Vec<Shape>>, n: usize, binary_only: bool)
        requires
            base_levels(old(levels)@, binary_only),
        ensures
            base_levels(final(levels)@, binary_only),
            final(levels)@.len() > n,
            final(levels)@.len() >= old(levels)@.len(),
            forall|k: int| 0 <= k < old(levels)@.len() ==> #[trigger] final(levels)@[k] == old(levels)@[k],
    {
        while levels.len() <= n
            invariant
                base_levels(levels@, binary_only),
                levels@.len() >= old(levels)@.len(),
                forall|k: int| 0 <= k < old(levels)@.len() ==> #[trigger] levels@[k] == old(levels)@[k],
            decreases n + 1 - levels@.len(),
        {
            let last = levels.len() - 1;
            let next = next_level(&levels[last], binary_only);
            proof {
                assert(all_ok(levels@[last as int]@, last as int, binary_only));
                assert(all_canonical(levels@[last as int]@));
                assert(grows_from(next@, levels@[last as int]@, binary_only));
                assert(descends(next@, levels@[last as int]@, binary_only));
            }
            levels.push(next);
            proof {
                assert(levels@[last + 1] == next);
            }
        }
    }

    /// Levels do not depend on how a cache got them: wherever two caches both
    /// hold the level of `k` leaves, every shape of the one is covered by the
    /// other (they are the same set of shapes, up to isomorphism).
    pub proof fn lemma_levels_agree(&self, other: &ShapeCache, binary_only: bool, k: int)
        requires
            self.wf(),
            other.wf(),
            1 <= k < self.levels(binary_only).len(),
            k < other.levels(binary_only).len(),
        ensures
            forall|x: Shape| #[trigger] self.levels(binary_only)[k]@.contains(x) ==> covers(
                other.levels(binary_only)[k]@,
                x,
            ),
        decreases k,
    {
        let a = self.levels(binary_only);
        let b = other.levels(binary_only);
        assert(base_levels(a, binary_only));
        assert(base_levels(b, binary_only));
        if k == 1 {
            assert forall|x: Shape| #[trigger] a[1]@.contains(x) implies covers(b[1]@, x) by {
                assert(a[1]@[0] == x);
                assert(iso(b[1]@[0], x));
            }
        } else {
            self.lemma_levels_agree(other, binary_only, k - 1);
            assert(descends(a[k]@, a[k - 1]@, binary_only));
            assert(grows_from(b[k]@, b[k - 1]@, binary_only));
            assert forall|x: Shape| #[trigger] a[k]@.contains(x) implies covers(b[k]@, x) by {
                let y = choose|y: Shape| a[k - 1]@.contains(y) && #[trigger] from_one_leaf_more(
                    x,
                    y,
                    binary_only,
                );
                let (p, st) = choose|p: Seq<int>, st: Seq<Shape>| #[trigger] one_leaf_more(
                    x,
                    y,
                    binary_only,
                    p,
                    st,
                );
                assert(covers(b[k - 1]@, y));
                let j = choose|j: int| 0 <= j < b[k - 1]@.len() && iso(#[trigger] b[k - 1]@[j], y);
                lemma_iso_equivalence(b[k - 1]@[j], y, b[k - 1]@[j]);
                lemma_one_leaf_more_iso(x, y, b[k - 1]@[j], binary_only, p, st);
                assert(b[k - 1]@.contains(b[k - 1]@[j]));
            }
        }
    }

    /// Every binary shape of the level of `k` leaves is covered by the general
    /// level of `k` leaves.
    pub proof fn lemma_binary_in_general(&self, k: int)
        requires
            self.wf(),
            1 <= k < self.levels(true).len(),
            k < self.levels(false).len(),
        ensures
            forall|x: Shape| #[trigger] self.levels(true)[k]@.contains(x) ==> covers(
                self.levels(false)[k]@,
                x,
            ),
        decreases k,
    {
        let a = self.levels(true);
        let b = self.levels(false);
        assert(base_levels(a, true));
        assert(base_levels(b, false));
        if k == 1 {
            assert forall|x: Shape| #[trigger] a[1]@.contains(x) implies covers(b[1]@, x) by {
                assert(a[1]@[0] == x);
                assert(iso(b[1]@[0], x));
            }
        } else {
            self.lemma_binary_in_general(k - 1);
            assert(descends(a[k]@, a[k - 1]@, true));
            assert(grows_from(b[k]@, b[k - 1]@, false));
            assert forall|x: Shape| #[trigger] a[k]@.contains(x) implies covers(b[k]@, x) by {
                let y = choose|y: Shape| a[k - 1]@.contains(y) && #[trigger] from_one_leaf_more(x, y, true);
                let (p, st) = choose|p: Seq<int>, st: Seq<Shape>| #[trigger] one_leaf_more(x, y, true, p, st);
                lemma_one_leaf_more_general(x, y, p, st);
                assert(covers(b[k - 1]@, y));
                let j = choose|j: int| 0 <= j < b[k - 1]@.len() && iso(#[trigger] b[k - 1]@[j], y);
                lemma_iso_equivalence(b[k - 1]@[j], y, b[k - 1]@[j]);
                lemma_one_leaf_more_iso(x, y, b[k - 1]@[j], false, p, st);
                assert(b[k - 1]@.contains(b[k - 1]@[j]));
            }
        }
    }

    /// Every binary shape of the general level of `k` leaves is covered by the
    /// binary level of `k` leaves.
    pub proof fn lemma_general_binary_in_binary(&self, k: int)
        requires
            self.wf(),
            1 <= k < self.levels(true).len(),
            k < self.levels(false).len(),
        ensures
            forall|x: Shape| #[trigger] self.levels(false)[k]@.contains(x) && is_binary(x) ==> covers(
                self.levels(true)[k]@,
                x,
            ),
        decreases k,
    {
        let a = self.levels(false);
        let b = self.levels(true);
        assert(base_levels(a, false));
        assert(base_levels(b, true));
        if k == 1 {
            assert forall|x: Shape| #[trigger] a[1]@.contains(x) && is_binary(x) implies covers(b[1]@, x) by {
                assert(a[1]@[0] == x);
                assert(iso(b[1]@[0], x));
            }
        } else {
            self.lemma_general_binary_in_binary(k - 1);
            assert(descends(a[k]@, a[k - 1]@, false));
            assert(grows_from(b[k]@, b[k - 1]@, true));
            assert(all_canonical(a[k - 1]@));
            assert forall|x: Shape| #[trigger] a[k]@.contains(x) && is_binary(x) implies covers(b[k]@, x) by {
                let y = choose|y: Shape| a[k - 1]@.contains(y) && #[trigger] from_one_leaf_more(x, y, false);
                let (p, st) = choose|p: Seq<int>, st: Seq<Shape>| #[trigger] one_leaf_more(x, y, false, p, st);
                lemma_one_leaf_more_binary(x, y, p, st);
                assert(covers(b[k - 1]@, y));
                let j = choose|j: int| 0 <= j < b[k - 1]@.len() && iso(#[trigger] b[k - 1]@[j], y);
                lemma_iso_equivalence(b[k - 1]@[j], y, b[k - 1]@[j]);
                lemma_one_leaf_more_iso(x, y, b[k - 1]@[j], true, p, st);
                assert(b[k - 1]@.contains(b[k - 1]@[j]));
            }
        }
    }

    /// Every shape built from the single leaf by `k - 1` insertions of one
    /// leaf each is covered by the level of `k` leaves, wherever that level
    /// has been computed.
    pub proof fn lemma_levels_cover_chains(
        &self,
        binary_only: bool,
        ys: Seq<Shape>,
        paths: Seq<Seq<int>>,
        steps: Seq<Seq<Shape>>,
    )
        requires
            self.wf(),
            insertion_chain(ys, paths, steps, binary_only),
            ys.len() < self.levels(binary_only).len(),
        ensures
            covers(self.levels(binary_only)[ys.len() as int]@, ys.last()),
        decreases ys.len(),
    {
        let lv = self.levels(binary_only);
        assert(base_levels(lv, binary_only));
        let k = ys.len() as int;
        if k == 1 {
            assert(lv[1]@[0] is Leaf);
            assert(iso(lv[1]@[0], ys[0]));
        } else {
            let init = ys.drop_last();
            assert(insertion_chain(init, paths, steps, binary_only)) by {
                assert forall|m: int| 0 <= m < init.len() - 1 implies one_leaf_more(
                    #[trigger] init[m + 1],
                    init[m],
                    binary_only,
                    paths[m],
                    steps[m],
                ) by {
                    assert(one_leaf_more(ys[m + 1], ys[m], binary_only, paths[m], steps[m]));
                }
            }
            self.lemma_levels_cover_chains(binary_only, init, paths, steps);
            let prev = lv[k - 1]@;
            let j = choose|j: int| 0 <= j < prev.len() && iso(#[trigger] prev[j], ys[k - 2]);
            let m = k - 2;
            assert(one_leaf_more(ys[m + 1], ys[m], binary_only, paths[m], steps[m]));
            assert(ys[m + 1] == ys.last());
            lemma_iso_equivalence(prev[j], ys[k - 2], prev[j]);
            lemma_one_leaf_more_iso(ys[m + 1], ys[m], prev[j], binary_only, paths[m], steps[m]);
            assert(prev.contains(prev[j]));
            assert(grows_from(lv[k]@, lv[k - 1]@, binary_only));
        }
    }

    /// All shapes with `n` leaves (binary ones only, if `binary_only`), in
    /// canonical order. Levels up to `n` are computed at most once and kept.
    pub fn all_shapes(&mut self, n: usize, binary_only: bool) -> (r: Vec<Shape>)
        requires
            old(self).wf(),
        ensures
            final(self).wf(),
            sorted_set(r@),
            final(self).levels(binary_only).len() > n,
            iso_seq(r@, final(self).levels(binary_only)[n as int]@),
            forall|k: int| 0 <= k < old(self).levels(binary_only).len() ==>
                #[trigger] final(self).levels(binary_only)[k] == old(self).levels(binary_only)[k],
            final(self).levels(!binary_only) == old(self).levels(!binary_only),
            n == 0 ==> r@.len() == 0,
            n == 1 ==> r@.len() == 1 && r@[0] is Leaf,
            forall|i: int| 0 <= i < r@.len() ==> shape_ok(#[trigger] r@[i], n as int, binary_only),
            forall|i: int| 0 <= i < r@.len() ==> canonical(#[trigger] r@[i]),
            n >= 2 ==> grows_from(r@, final(self).levels(binary_only)[n - 1]@, binary_only),
    {
        if binary_only {
            Self::extend(&mut self.binary, n, true);
            let r = copy_all(self.binary[n].as_slice());
            proof {
                assert(sorted_set(self.binary@[n as int]@));
                lemma_sorted_iso(r@, self.binary@[n as int]@);
                lemma_level_copy(r@, self.binary@[n as int]@, n as int, true);
                if n >= 2 {
                    assert(grows_from(self.binary@[n as int]@, self.binary@[n - 1]@, true));
                    lemma_grows_copy(r@, self.binary@[n as int]@, self.binary@[n - 1]@, true);
                }
            }
            r
        } else {
            Self::extend(&mut self.general, n, false);
            let r = copy_all(self.general[n].as_slice());
            proof {
                assert(sorted_set(self.general@[n as int]@));
                lemma_sorted_iso(r@, self.general@[n as int]@);
                lemma_level_copy(r@, self.general@[n as int]@, n as int, false);
                if n >= 2 {
                    assert(grows_from(self.general@[n as int]@, self.general@[n - 1]@, false));
                    lemma_grows_copy(r@, self.general@[n as int]@, self.general@[n - 1]@, false);
                }
            }
            r
        }
    }
}

proof fn lemma_grows_copy(a: Seq<Shape>, b: Seq<Shape>, prev: Seq<Shape>, binary_only: bool)
    requires
        iso_seq(a, b),
        grows_from(b, prev, binary_only),
    ensures
        grows_from(a, prev, binary_only),
{
    assert forall|x: Shape, y: Shape, p: Seq<int>, st: Seq<Shape>|
        prev.contains(y) && #[trigger] one_leaf_more(x, y, binary_only, p, st) implies covers(a, x) by {
        let j = choose|j: int| 0 <= j < b.len() && iso(#[trigger] b[j], x);
        lemma_iso_equivalence(b[j], a[j], x);
        lemma_iso_equivalence(a[j], b[j], x);
    }
}

proof fn lemma_level_copy(a: Seq<Shape>, b: Seq<Shape>, k: int, binary_only: bool)
    requires
        iso_seq(a, b),
        all_ok(b, k, binary_only),
        all_canonical(b),
    ensures
        forall|i: int| 0 <= i < a.len() ==> shape_ok(#[trigger] a[i], k, binary_only),
        forall|i: int| 0 <= i < a.len() ==> canonical(#[trigger] a[i]),
{
    lemma_iso_seq(a, b);
    assert forall|i: int| 0 <= i < a.len() implies shape_ok(#[trigger] a[i], k, binary_only)
        && canonical(a[i]) by {
        assert(b.contains(b[i]));
        lemma_iso_canonical(a[i], b[i]);
    }
}

/// A sequence isomorphic position by position to a sorted set is a sorted set.
proof fn lemma_sorted_iso(a: Seq<Shape>, b: Seq<Shape>)
    requires
        iso_seq(a, b),
        sorted_set(b),
    ensures
        sorted_set(a),
{
    assert forall|i: int, j: int| 0 <= i < j < a.len() implies cmp_shape(
        #[trigger] a[i],
        #[trigger] a[j],
    ) == Ordering::Less by {
        crate::order::lemma_cmp_equal_iff_iso(a[i], b[i]);
        crate::order::lemma_cmp_equal_iff_iso(a[j], b[j]);
        crate::order::lemma_cmp_congruent(a[i], b[i], b[j]);
        lemma_cmp_antisymmetric(a[i], b[j]);
        lemma_cmp_antisymmetric(a[j], b[j]);
        crate::order::lemma_cmp_congruent(a[j], b[j], a[i]);
        lemma_cmp_antisymmetric(a[i], a[j]);
    }
}

} // verus!
