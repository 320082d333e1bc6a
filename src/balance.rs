use vstd::prelude::*;
use crate::phylo::{
    Phylo, sum, kappa, kappas, iso, is_binary, no_empty_nodes, leaf_depths, leaf_depths_of,
    lemma_sum_take, lemma_sum_bounds, lemma_sum_nonneg, lemma_kappa_pos, lemma_child_decreases,
};
use crate::util::{choose2, binom2, fact};
use vstd::arithmetic::power::{pow, lemma_pow0, lemma_pow1, lemma_pow_adds, lemma_pow_positive};

verus! {

/// Product of a sequence of integers.
pub open spec fn prod(s: Seq<int>) -> int
    decreases s.len(),
{
    if s.len() == 0 {
        1
    } else {
        prod(s.drop_last()) * s.last()
    }
}

/// Sackin index: the sum of the depths of all leaves. At an internal node it
/// is the children's indices added up plus the node's leaf count.
pub open spec fn sackin<T>(t: Phylo<T>) -> int
    decreases t,
{
    match t {
        Phylo::Leaf(_) => 0,
        Phylo::Node(ts) => sum(sackins(ts@)) + kappa(t),
    }
}

pub open spec fn sackins<T>(ts: Seq<Phylo<T>>) -> Seq<int>
    decreases ts,
{
    Seq::new(ts.len(), |i: int| if 0 <= i < ts.len() { sackin(ts[i]) } else { 0 })
}

/// Colless index of a binary tree: the sum over internal nodes of the
/// difference between the leaf counts of the two children.
pub open spec fn colless<T>(t: Phylo<T>) -> int
    decreases t,
{
    match t {
        Phylo::Leaf(_) => 0,
        Phylo::Node(ts) => if ts@.len() == 2 {
            let d = kappa(ts@[0]) - kappa(ts@[1]);
            (if d >= 0 { d } else { -d }) + colless(ts@[0]) + colless(ts@[1])
        } else {
            0
        },
    }
}

/// Cophenetic value of a subtree as seen from its parent: every internal
/// node adds the number of leaf pairs below it.
pub open spec fn coph_partial<T>(t: Phylo<T>) -> int
    decreases t,
{
    match t {
        Phylo::Leaf(_) => 0,
        Phylo::Node(ts) => choose2(kappa(t)) + sum(coph_partials(ts@)),
    }
}

pub open spec fn coph_partials<T>(ts: Seq<Phylo<T>>) -> Seq<int>
    decreases ts,
{
    Seq::new(ts.len(), |i: int| if 0 <= i < ts.len() { coph_partial(ts[i]) } else { 0 })
}

/// The cophenetic contributions strictly below the root: the children's
/// cophenetic values added up (0 for a leaf).
pub open spec fn coph_below<T>(t: Phylo<T>) -> int {
    match t {
        Phylo::Leaf(_) => 0,
        Phylo::Node(ts) => sum(coph_partials(ts@)),
    }
}

/// Cophenetic index: the sum over all internal nodes, the root included, of
/// the number of leaf pairs below the node; that is, the sum over all leaf
/// pairs of the depth of their most recent common ancestor, the root standing
/// at depth 1.
pub open spec fn cophenetic<T>(t: Phylo<T>) -> int {
    coph_partial(t)
}

/// A node is symmetric when all its children are isomorphic to the first one;
/// a leaf is symmetric.
pub open spec fn is_sym<T>(t: Phylo<T>) -> bool {
    match t {
        Phylo::Leaf(_) => true,
        Phylo::Node(ts) => forall|i: int| 1 <= i < ts@.len() ==> #[trigger] iso(ts@[i], ts@[0]),
    }
}

/// Number of symmetric internal nodes.
pub open spec fn sym_count<T>(t: Phylo<T>) -> int
    decreases t,
{
    match t {
        Phylo::Leaf(_) => 0,
        Phylo::Node(ts) => (if is_sym(t) { 1int } else { 0int }) + sum(sym_counts(ts@)),
    }
}

pub open spec fn sym_counts<T>(ts: Seq<Phylo<T>>) -> Seq<int>
    decreases ts,
{
    Seq::new(ts.len(), |i: int| if 0 <= i < ts.len() { sym_count(ts[i]) } else { 0 })
}

/// Start of the run of consecutive isomorphic children that holds child `i`:
/// a child joins the run of its predecessor when it is isomorphic to that
/// run's first child.
pub open spec fn run_start<T>(ts: Seq<Phylo<T>>, i: int) -> int
    decreases i,
{
    if i <= 0 {
        0
    } else if iso(ts[run_start(ts, i - 1)], ts[i]) {
        run_start(ts, i - 1)
    } else {
        i
    }
}

/// Number of automorphisms of the tree's shape. A run of `L` consecutive
/// isomorphic children with `A` automorphisms each contributes `A^L * L!`;
/// this is the product, over the children, of the child's own count times
/// its position within its run.
pub open spec fn aut<T>(t: Phylo<T>) -> int
    decreases t,
{
    match t {
        Phylo::Leaf(_) => 1,
        Phylo::Node(ts) => prod(aut_factors(ts@)),
    }
}

pub open spec fn aut_factors<T>(ts: Seq<Phylo<T>>) -> Seq<int>
    decreases ts,
{
    Seq::new(
        ts.len(),
        |i: int|
            if 0 <= i < ts.len() {
                aut(ts[i]) * (i - run_start(ts, i) + 1)
            } else {
                1
            },
    )
}

/// Quartet index of a binary tree with the weights of the two binary
/// quartet shapes set to 0 (caterpillar) and 1 (balanced).
pub open spec fn binary_qi<T>(t: Phylo<T>) -> int
    decreases t,
{
    match t {
        Phylo::Leaf(_) => 0,
        Phylo::Node(ts) => if ts@.len() == 2 && kappa(t) >= 4 {
            binary_qi(ts@[0]) + binary_qi(ts@[1]) + choose2(kappa(ts@[0])) * choose2(
                kappa(ts@[1]),
            )
        } else {
            0
        },
    }
}

pub proof fn lemma_not_sym<T>(ts: Vec<Phylo<T>>, i: int)
    requires
        1 <= i < ts@.len(),
        !iso(ts@[i], ts@[0]),
    ensures
        !is_sym(Phylo::Node(ts)),
{
    let t = Phylo::<T>::Node(ts);
    assert(t->Node_0 == ts);
    assert(is_sym(t) ==> iso(ts@[i], ts@[0]));
}

pub proof fn lemma_binary_qi_node<T>(ts: Vec<Phylo<T>>)
    requires
        ts@.len() == 2,
    ensures
        binary_qi(Phylo::Node(ts)) == if kappa(Phylo::Node(ts)) >= 4 {
            binary_qi(ts@[0]) + binary_qi(ts@[1]) + choose2(kappa(ts@[0])) * choose2(
                kappa(ts@[1]),
            )
        } else {
            0
        },
{
    let t = Phylo::<T>::Node(ts);
    assert(t->Node_0 == ts);
}

pub proof fn lemma_binary_qi_leaf<T>(x: T)
    ensures
        binary_qi(Phylo::Leaf(x)) == 0,
{
}

pub proof fn lemma_prod_take(s: Seq<int>, i: int)
    requires
        0 <= i < s.len(),
    ensures
        prod(s.take(i + 1)) == prod(s.take(i)) * s[i],
{
    assert(s.take(i + 1).drop_last() =~= s.take(i));
}

/// With every factor at least 1, prefix products and single factors are at
/// most the whole product, and all of them are at least 1.
pub proof fn lemma_prod_bounds(s: Seq<int>, i: int)
    requires
        forall|j: int| 0 <= j < s.len() ==> s[j] >= 1,
        0 <= i <= s.len(),
    ensures
        1 <= prod(s.take(i)) <= prod(s),
        i < s.len() ==> s[i] <= prod(s),
    decreases s.len() - i,
{
    lemma_prod_pos(s.take(i));
    if i < s.len() {
        lemma_prod_take(s, i);
        lemma_prod_bounds(s, i + 1);
        let a = prod(s.take(i));
        let b = s[i];
        assert(a <= a * b && b <= a * b) by (nonlinear_arith)
            requires
                a >= 1,
                b >= 1,
        ;
    } else {
        assert(s.take(i) =~= s);
    }
}

pub proof fn lemma_prod_pos(s: Seq<int>)
    requires
        forall|j: int| 0 <= j < s.len() ==> s[j] >= 1,
    ensures
        prod(s) >= 1,
    decreases s.len(),
{
    if s.len() > 0 {
        lemma_prod_pos(s.drop_last());
        let a = prod(s.drop_last());
        let b = s.last();
        assert(a * b >= 1) by (nonlinear_arith)
            requires
                a >= 1,
                b >= 1,
        ;
    }
}

pub proof fn lemma_run_start_bounds<T>(ts: Seq<Phylo<T>>, i: int)
    requires
        0 <= i,
    ensures
        0 <= run_start(ts, i) <= i,
    decreases i,
{
    if i > 0 {
        lemma_run_start_bounds(ts, i - 1);
    }
}

pub proof fn lemma_aut_pos<T>(t: Phylo<T>)
    ensures
        aut(t) >= 1,
    decreases t,
{
    if let Phylo::Node(ts) = t {
        lemma_aut_factors_pos(ts@);
        lemma_prod_pos(aut_factors(ts@));
    }
}

pub proof fn lemma_aut_factors_pos<T>(ts: Seq<Phylo<T>>)
    ensures
        forall|j: int| 0 <= j < ts.len() ==> #[trigger] aut_factors(ts)[j] >= 1,
    decreases ts,
{
    assert forall|j: int| 0 <= j < ts.len() implies #[trigger] aut_factors(ts)[j] >= 1 by {
        lemma_aut_pos(ts[j]);
        lemma_run_start_bounds(ts, j);
        let a = aut(ts[j]);
        let p = j - run_start(ts, j) + 1;
        assert(a * p >= 1) by (nonlinear_arith)
            requires
                a >= 1,
                p >= 1,
        ;
    }
}

pub proof fn lemma_sackin_nonneg<T>(t: Phylo<T>)
    ensures
        sackin(t) >= 0,
        t is Node ==> kappa(t) <= sackin(t),
    decreases t,
{
    lemma_kappa_pos(t);
    if let Phylo::Node(ts) = t {
        assert forall|j: int| 0 <= j < ts@.len() implies #[trigger] sackins(ts@)[j] >= 0 by {
            lemma_sackin_nonneg(ts@[j]);
        }
        lemma_sum_nonneg(sackins(ts@));
    }
}

pub proof fn lemma_kappas_pos<T>(ts: Seq<Phylo<T>>)
    ensures
        forall|j: int| 0 <= j < ts.len() ==> #[trigger] kappas(ts)[j] >= 0,
{
    assert forall|j: int| 0 <= j < ts.len() implies #[trigger] kappas(ts)[j] >= 0 by {
        lemma_kappa_pos(ts[j]);
    }
}

pub proof fn lemma_coph_nonneg<T>(t: Phylo<T>)
    ensures
        coph_partial(t) >= 0,
        choose2(kappa(t)) <= coph_partial(t),
        coph_below(t) >= 0,
    decreases t,
{
    if let Phylo::Node(ts) = t {
        assert forall|j: int| 0 <= j < ts@.len() implies #[trigger] coph_partials(ts@)[j] >= 0 by {
            lemma_coph_nonneg(ts@[j]);
        }
        lemma_sum_nonneg(coph_partials(ts@));
        lemma_choose2_nonneg(kappa(t));
    }
}

pub proof fn lemma_choose2_nonneg(k: int)
    ensures
        choose2(k) >= 0,
        k >= 3 ==> k <= choose2(k),
{
    if k >= 2 {
        assert(k * (k - 1) >= 0) by (nonlinear_arith)
            requires
                k >= 2,
        ;
    }
    if k >= 3 {
        assert(k * (k - 1) >= 2 * k) by (nonlinear_arith)
            requires
                k >= 3,
        ;
    }
}

pub proof fn lemma_sym_nonneg<T>(t: Phylo<T>)
    ensures
        sym_count(t) >= 0,
    decreases t,
{
    if let Phylo::Node(ts) = t {
        assert forall|j: int| 0 <= j < ts@.len() implies #[trigger] sym_counts(ts@)[j] >= 0 by {
            lemma_sym_nonneg(ts@[j]);
        }
        lemma_sum_nonneg(sym_counts(ts@));
    }
}

pub proof fn lemma_colless_nonneg<T>(t: Phylo<T>)
    ensures
        colless(t) >= 0,
    decreases t,
{
    if let Phylo::Node(ts) = t {
        if ts@.len() == 2 {
            lemma_colless_nonneg(ts@[0]);
            lemma_colless_nonneg(ts@[1]);
        }
    }
}

pub proof fn lemma_binary_qi_nonneg<T>(t: Phylo<T>)
    ensures
        binary_qi(t) >= 0,
    decreases t,
{
    if let Phylo::Node(ts) = t {
        if ts@.len() == 2 {
            lemma_binary_qi_nonneg(ts@[0]);
            lemma_binary_qi_nonneg(ts@[1]);
            lemma_kappa_pos(ts@[0]);
            lemma_kappa_pos(ts@[1]);
            lemma_choose2_nonneg(kappa(ts@[0]));
            lemma_choose2_nonneg(kappa(ts@[1]));
            let a = choose2(kappa(ts@[0]));
            let b = choose2(kappa(ts@[1]));
            assert(a * b >= 0) by (nonlinear_arith)
                requires
                    a >= 0,
                    b >= 0,
            ;
        }
    }
}

fn choose2_wide(k: u32) -> (r: u64)
    ensures
        r == choose2(k as int),
{
    if k < 2 {
        0
    } else {
        assert((k as u64) * (k as u64 - 1) <= u64::MAX) by (nonlinear_arith)
            requires
                k <= u32::MAX,
                k >= 2,
        ;
        (k as u64) * (k as u64 - 1) / 2
    }
}

/// A complete balanced binary tree of depth `d`: a leaf for depth 0, else
/// two complete balanced binary trees of depth `d - 1` under one root.
pub open spec fn is_complete<T>(t: Phylo<T>, d: nat) -> bool
    decreases t,
{
    match t {
        Phylo::Leaf(_) => d == 0,
        Phylo::Node(ts) => d > 0 && ts@.len() == 2 && is_complete(ts@[0], (d - 1) as nat)
            && is_complete(ts@[1], (d - 1) as nat),
    }
}

proof fn lemma_complete_iso<T>(a: Phylo<T>, b: Phylo<T>, d: nat)
    requires
        is_complete(a, d),
        is_complete(b, d),
    ensures
        iso(a, b),
    decreases a,
{
    if let (Phylo::Node(xs), Phylo::Node(ys)) = (a, b) {
        lemma_child_decreases(a, 0);
        lemma_child_decreases(a, 1);
        lemma_complete_iso(xs@[0], ys@[0], (d - 1) as nat);
        lemma_complete_iso(xs@[1], ys@[1], (d - 1) as nat);
        assert forall|i: int| 0 <= i < xs@.len() implies iso(#[trigger] xs@[i], ys@[i]) by {
            if i == 0 {
            } else {
                assert(i == 1);
            }
        }
        crate::shape::lemma_iso_node(xs, ys);
    }
}

/// A complete balanced binary tree of depth `d`, with `2^d` leaves, has
/// `2^(2^d - 1)` automorphisms.
pub proof fn lemma_complete_automorphisms<T>(t: Phylo<T>, d: nat)
    requires
        is_complete(t, d),
    ensures
        pow(2, d) >= 1,
        aut(t) == pow(2, (pow(2, d) - 1) as nat),
    decreases t,
{
    lemma_pow_positive(2, d);
    if let Phylo::Node(ts) = t {
        let e = (d - 1) as nat;
        let a = ts@[0];
        let b = ts@[1];
        lemma_child_decreases(t, 0);
        lemma_child_decreases(t, 1);
        lemma_complete_automorphisms(a, e);
        lemma_complete_automorphisms(b, e);
        lemma_complete_iso(a, b, e);
        let fs = aut_factors(ts@);
        assert(run_start(ts@, 0) == 0);
        assert(run_start(ts@, 1) == 0);
        assert(fs[0] == aut(a) * (0 - run_start(ts@, 0) + 1));
        assert(fs[0] == aut(a));
        assert(fs[1] == aut(b) * 2);
        assert(fs.drop_last().drop_last() =~= Seq::<int>::empty());
        assert(prod(fs.drop_last().drop_last()) == 1);
        assert(fs.drop_last().last() == fs[0]);
        assert(prod(fs.drop_last()) == fs[0]);
        assert(fs.last() == fs[1]);
        assert(aut(t) == aut(a) * (aut(b) * 2));
        let p = pow(2, e);
        lemma_pow_positive(2, e);
        let h = (p - 1) as nat;
        lemma_pow_adds(2, 1, e);
        lemma_pow1(2);
        assert(pow(2, d) == 2 * p);
        lemma_pow_adds(2, h, h);
        lemma_pow_adds(2, h + h, 1);
        assert((pow(2, d) - 1) as nat == h + h + 1);
        assert(aut(a) * (aut(b) * 2) == pow(2, h) * pow(2, h) * 2) by (nonlinear_arith)
            requires
                aut(a) == pow(2, h),
                aut(b) == pow(2, h),
        ;
    } else {
        lemma_pow0(2);
    }
}

proof fn lemma_sum_flatten(parts: Seq<Seq<int>>, sums: Seq<int>)
    requires
        sums.len() == parts.len(),
        forall|i: int| 0 <= i < parts.len() ==> #[trigger] sums[i] == sum(parts[i]),
    ensures
        sum(parts.flatten()) == sum(sums),
    decreases parts.len(),
{
    if parts.len() > 0 {
        let init = parts.drop_last();
        lemma_sum_flatten(init, sums.drop_last());
        assert(parts =~= init.push(parts.last()));
        init.lemma_flatten_push(parts.last());
        crate::generator::lemma_sum_concat(init.flatten(), parts.last());
    }
}

proof fn lemma_sum_linear(s: Seq<int>, a: Seq<int>, b: Seq<int>, c: int)
    requires
        s.len() == a.len() == b.len(),
        forall|i: int| 0 <= i < s.len() ==> #[trigger] s[i] == a[i] + c * b[i],
    ensures
        sum(s) == sum(a) + c * sum(b),
    decreases s.len(),
{
    if s.len() > 0 {
        lemma_sum_linear(s.drop_last(), a.drop_last(), b.drop_last(), c);
        let x = sum(b.drop_last());
        assert(c * (x + b.last()) == c * x + c * b.last()) by (nonlinear_arith);
    }
}

/// The leaf depths of `t`, its root standing at depth `d`, add up to its
/// Sackin index plus `d` for each leaf.
proof fn lemma_leaf_depths_sum<T>(t: Phylo<T>, d: int)
    ensures
        sum(leaf_depths(t, d)) == sackin(t) + d * kappa(t),
    decreases t,
{
    match t {
        Phylo::Leaf(_) => {
            let one = seq![d];
            assert(one.drop_last() =~= Seq::<int>::empty());
            assert(sum(one.drop_last()) == 0);
            assert(one.last() == d);
            assert(sum(one) == d);
            assert(leaf_depths(t, d) == one);
            assert(kappa(t) == 1);
            assert(d * kappa(t) == d) by (nonlinear_arith)
                requires
                    kappa(t) == 1,
            ;
        },
        Phylo::Node(ts) => {
            let parts = leaf_depths_of(ts@, d + 1);
            let sums = Seq::new(ts@.len(), |i: int| sum(parts[i]));
            assert forall|i: int| 0 <= i < ts@.len() implies #[trigger] sums[i] == sackins(ts@)[i]
                + (d + 1) * kappas(ts@)[i] by {
                lemma_child_decreases(t, i);
                lemma_leaf_depths_sum(ts@[i], d + 1);
            }
            lemma_sum_flatten(parts, sums);
            lemma_sum_linear(sums, sackins(ts@), kappas(ts@), d + 1);
            let k = sum(kappas(ts@));
            assert((d + 1) * k == k + d * k) by (nonlinear_arith);
        },
    }
}

/// The Sackin index is the sum of the depths of all leaves.
pub proof fn lemma_sackin_is_sum_of_depths<T>(t: Phylo<T>)
    ensures
        sackin(t) == sum(leaf_depths(t, 0)),
{
    lemma_leaf_depths_sum(t, 0);
}

/// Number of pairs of items that fall in two different groups, for groups of
/// the given sizes.
pub open spec fn pairs_across(ks: Seq<int>) -> int
    decreases ks.len(),
{
    if ks.len() == 0 {
        0
    } else {
        pairs_across(ks.drop_last()) + ks.last() * sum(ks.drop_last())
    }
}

/// The sum, over all unordered pairs of leaves of `t`, of the depth of their
/// most recent common ancestor, the root of `t` standing at depth `d`. A pair
/// split between two children of the root meets at the root; a pair inside
/// one child is counted in that child, one level deeper.
pub open spec fn lca_depth_sum<T>(t: Phylo<T>, d: int) -> int
    decreases t,
{
    match t {
        Phylo::Leaf(_) => 0,
        Phylo::Node(ts) => d * pairs_across(kappas(ts@)) + sum(lca_depth_sums(ts@, d + 1)),
    }
}

pub open spec fn lca_depth_sums<T>(ts: Seq<Phylo<T>>, d: int) -> Seq<int>
    decreases ts,
{
    Seq::new(ts.len(), |i: int| if 0 <= i < ts.len() { lca_depth_sum(ts[i], d) } else { 0 })
}

proof fn lemma_choose2_sum(ks: Seq<int>)
    requires
        forall|i: int| 0 <= i < ks.len() ==> ks[i] >= 0,
    ensures
        choose2(sum(ks)) == pairs_across(ks) + sum(ks.map_values(|k: int| choose2(k))),
    decreases ks.len(),
{
    if ks.len() > 0 {
        let init = ks.drop_last();
        lemma_choose2_sum(init);
        lemma_sum_nonneg(init);
        crate::util::lemma_choose2_add(sum(init), ks.last());
        assert(ks.map_values(|k: int| choose2(k)).drop_last() =~= init.map_values(
            |k: int| choose2(k),
        ));
        assert(sum(init) * ks.last() == ks.last() * sum(init)) by (nonlinear_arith);
    }
}

proof fn lemma_coph_partial_split<T>(t: Phylo<T>)
    ensures
        coph_partial(t) == choose2(kappa(t)) + coph_below(t),
{
    if t is Leaf {
        lemma_kappa_pos(t);
    }
}

/// The pair-depth sum of `t` with its root at depth `d` is the cophenetic
/// value below its root plus `d` for each pair of leaves.
proof fn lemma_lca_depth_sum<T>(t: Phylo<T>, d: int)
    ensures
        lca_depth_sum(t, d) == coph_below(t) + d * choose2(kappa(t)),
    decreases t,
{
    if let Phylo::Node(ts) = t {
        let ks = kappas(ts@);
        let cs = ks.map_values(|k: int| choose2(k));
        let cophs = Seq::new(ts@.len(), |i: int| coph_below(ts@[i]));
        assert forall|i: int| 0 <= i < ts@.len() implies #[trigger] lca_depth_sums(ts@, d + 1)[i]
            == cophs[i] + (d + 1) * cs[i] && coph_partials(ts@)[i] == cophs[i] + 1 * cs[i] by {
            lemma_child_decreases(t, i);
            lemma_lca_depth_sum(ts@[i], d + 1);
            lemma_coph_partial_split(ts@[i]);
        }
        lemma_sum_linear(lca_depth_sums(ts@, d + 1), cophs, cs, d + 1);
        lemma_sum_linear(coph_partials(ts@), cophs, cs, 1);
        lemma_kappas_pos(ts@);
        lemma_choose2_sum(ks);
        let p = pairs_across(ks);
        let a = sum(cophs);
        let b = sum(cs);
        assert(d * p + (a + (d + 1) * b) == (a + 1 * b) + d * (p + b)) by (nonlinear_arith);
    }
}

/// The cophenetic index is the sum, over all unordered pairs of leaves, of the
/// depth of their most recent common ancestor, the root standing at depth 1.
pub proof fn lemma_cophenetic_is_sum_of_lca_depths<T>(t: Phylo<T>)
    ensures
        cophenetic(t) == lca_depth_sum(t, 1),
{
    lemma_lca_depth_sum(t, 1);
    lemma_coph_partial_split(t);
}

proof fn lemma_run_prefix<T>(ts: Seq<Phylo<T>>, a: int, i: int)
    requires
        0 <= i <= ts.len(),
        a >= 1,
        forall|j: int| 1 <= j < ts.len() ==> iso(ts[0], #[trigger] ts[j]),
        forall|j: int| 0 <= j < ts.len() ==> aut(#[trigger] ts[j]) == a,
    ensures
        prod(aut_factors(ts).take(i)) == pow(a, i as nat) * fact(i),
        forall|j: int| 0 <= j < i ==> run_start(ts, j) == 0,
    decreases i,
{
    if i == 0 {
        assert(aut_factors(ts).take(0) =~= Seq::<int>::empty());
        lemma_pow0(a);
    } else {
        lemma_run_prefix(ts, a, i - 1);
        let fs = aut_factors(ts);
        lemma_prod_take(fs, i - 1);
        assert(run_start(ts, i - 1) == 0) by {
            if i - 1 > 0 {
                assert(run_start(ts, i - 2) == 0);
            }
        }
        assert(fs[i - 1] == a * i);
        lemma_pow_adds(a, (i - 1) as nat, 1);
        lemma_pow1(a);
        let p = pow(a, (i - 1) as nat);
        let f = fact(i - 1);
        assert(fact(i) == i * f);
        assert(p * f * (a * i) == (p * a) * (i * f)) by (nonlinear_arith);
    }
}

/// A node whose `L` children are all isomorphic, each with `A`
/// automorphisms, has `A^L * L!` automorphisms: the children's own ones, and
/// every permutation of the children.
pub proof fn lemma_automorphisms_of_one_run<T>(ts: Vec<Phylo<T>>, a: int)
    requires
        forall|j: int| 1 <= j < ts@.len() ==> iso(ts@[0], #[trigger] ts@[j]),
        forall|j: int| 0 <= j < ts@.len() ==> aut(#[trigger] ts@[j]) == a,
    ensures
        aut(Phylo::Node(ts)) == pow(a, ts@.len()) * fact(ts@.len() as int),
{
    let t = Phylo::<T>::Node(ts);
    assert(t->Node_0 == ts);
    if ts@.len() > 0 {
        lemma_aut_pos(ts@[0]);
    } else {
        lemma_pow0(a);
    }
    if ts@.len() > 0 {
        lemma_run_prefix(ts@, a, ts@.len() as int);
    }
    assert(aut_factors(ts@).take(ts@.len() as int) =~= aut_factors(ts@));
}

impl<T> Phylo<T> {
    /// Sackin index and leaf count together.
    fn sackin_kappa(&self) -> (r: (u32, u32))
        requires
            sackin(*self) <= u32::MAX,
        ensures
            r.0 == sackin(*self),
            r.1 == kappa(*self),
        decreases self,
    {
        proof {
            lemma_sackin_nonneg(*self);
        }
        match self {
            Phylo::Leaf(_) => (0, 1),
            Phylo::Node(ts) => {
                let ghost ss = sackins(ts@);
                let ghost ks = kappas(ts@);
                proof {
                    assert forall|j: int| 0 <= j < ss.len() implies ss[j] >= 0 by {
                        lemma_sackin_nonneg(ts@[j]);
                    }
                    lemma_kappas_pos(ts@);
                }
                let mut s: u32 = 0;
                let mut k: u32 = 0;
                let mut i: usize = 0;
                while i < ts.len()
                    invariant
                        *self == Phylo::Node(*ts),
                        i <= ts@.len(),
                        ss == sackins(ts@),
                        ks == kappas(ts@),
                        forall|j: int| 0 <= j < ss.len() ==> ss[j] >= 0,
                        forall|j: int| 0 <= j < ks.len() ==> ks[j] >= 0,
                        sum(ss) + sum(ks) <= u32::MAX,
                        s == sum(ss.take(i as int)),
                        k == sum(ks.take(i as int)),
                    decreases ts@.len() - i,
                {
                    proof {
                        lemma_child_decreases(*self, i as int);
                        lemma_sum_bounds(ss, i as int);
                        lemma_sum_bounds(ks, i as int);
                        lemma_sum_take(ss, i as int);
                        lemma_sum_take(ks, i as int);
                    }
                    let (s1, k1) = ts[i].sackin_kappa();
                    s = s + s1;
                    k = k + k1;
                    i = i + 1;
                }
                proof {
                    assert(ss.take(i as int) =~= ss);
                    assert(ks.take(i as int) =~= ks);
                }
                (s + k, k)
            },
        }
    }

    /// Sackin index: the sum of the depths of all leaves.
    pub fn sackin_index(&self) -> (r: u32)
        requires
            sackin(*self) <= u32::MAX,
        ensures
            r == sackin(*self),
    {
        self.sackin_kappa().0
    }

    fn colless_kappa(&self) -> (r: (u32, u32))
        requires
            is_binary(*self),
            colless(*self) <= u32::MAX,
            kappa(*self) <= u32::MAX,
        ensures
            r.0 == colless(*self),
            r.1 == kappa(*self),
        decreases self,
    {
        match self {
            Phylo::Leaf(_) => (0, 1),
            Phylo::Node(ts) => {
                proof {
                    lemma_child_decreases(*self, 0);
                    lemma_child_decreases(*self, 1);
                    lemma_colless_nonneg(ts@[0]);
                    lemma_colless_nonneg(ts@[1]);
                    lemma_kappa_pos(ts@[0]);
                    lemma_kappa_pos(ts@[1]);
                    lemma_sum_take(kappas(ts@), 0);
                    lemma_sum_take(kappas(ts@), 1);
                    assert(kappas(ts@).take(2) =~= kappas(ts@));
                    assert(kappas(ts@).take(0).len() == 0);
                }
                let (c0, k0) = ts[0].colless_kappa();
                let (c1, k1) = ts[1].colless_kappa();
                let d = if k0 >= k1 {
                    k0 - k1
                } else {
                    k1 - k0
                };
                (d + c0 + c1, k0 + k1)
            },
        }
    }

    /// Colless index of a binary tree.
    pub fn binary_colless_index(&self) -> (r: u32)
        requires
            is_binary(*self),
            colless(*self) <= u32::MAX,
            kappa(*self) <= u32::MAX,
        ensures
            r == colless(*self),
    {
        self.colless_kappa().0
    }

    fn coph_kappa(&self) -> (r: (u32, u32))
        requires
            coph_partial(*self) <= u32::MAX,
        ensures
            r.0 == coph_partial(*self),
            r.1 == kappa(*self),
        decreases self,
    {
        match self {
            Phylo::Leaf(_) => (0, 1),
            Phylo::Node(ts) => {
                let ghost cs = coph_partials(ts@);
                let ghost ks = kappas(ts@);
                proof {
                    lemma_coph_nonneg(*self);
                    lemma_kappa_pos(*self);
                    lemma_choose2_nonneg(kappa(*self));
                    assert forall|j: int| 0 <= j < cs.len() implies cs[j] >= 0 by {
                        lemma_coph_nonneg(ts@[j]);
                    }
                    lemma_kappas_pos(ts@);
                }
                let mut c: u32 = 0;
                let mut k: u32 = 0;
                let mut i: usize = 0;
                while i < ts.len()
                    invariant
                        *self == Phylo::Node(*ts),
                        i <= ts@.len(),
                        cs == coph_partials(ts@),
                        ks == kappas(ts@),
                        forall|j: int| 0 <= j < cs.len() ==> cs[j] >= 0,
                        forall|j: int| 0 <= j < ks.len() ==> ks[j] >= 0,
                        sum(cs) <= u32::MAX,
                        sum(ks) <= u32::MAX,
                        c == sum(cs.take(i as int)),
                        k == sum(ks.take(i as int)),
                    decreases ts@.len() - i,
                {
                    proof {
                        lemma_child_decreases(*self, i as int);
                        lemma_sum_bounds(cs, i as int);
                        lemma_sum_bounds(ks, i as int);
                        lemma_sum_take(cs, i as int);
                        lemma_sum_take(ks, i as int);
                    }
                    let (c1, k1) = ts[i].coph_kappa();
                    c = c + c1;
                    k = k + k1;
                    i = i + 1;
                }
                proof {
                    assert(cs.take(i as int) =~= cs);
                    assert(ks.take(i as int) =~= ks);
                }
                (binom2(k) + c, k)
            },
        }
    }

    /// Cophenetic index: the sum over all leaf pairs of the depth of their
    /// most recent common ancestor, the root standing at depth 1.
    pub fn cophenetic_index(&self) -> (r: u32)
        requires
            cophenetic(*self) <= u32::MAX,
        ensures
            r == cophenetic(*self),
    {
        self.coph_kappa().0
    }

    /// Whether all children are isomorphic to the first one (true for a leaf).
    #[verifier::spinoff_prover]
    pub fn is_symmetric(&self) -> (r: bool)
        requires
            *self is Node ==> self->Node_0@.len() > 0,
        ensures
            r == is_sym(*self),
    {
        match self {
            Phylo::Leaf(_) => true,
            Phylo::Node(ts) => {
                let t0 = &ts[0];
                let mut i: usize = 1;
                while i < ts.len()
                    invariant
                        *self == Phylo::Node(*ts),
                        1 <= i <= ts@.len(),
                        *t0 == ts@[0],
                        forall|j: int| 1 <= j < i ==> #[trigger] iso(ts@[j], ts@[0]),
                    decreases ts@.len() - i,
                {
                    let b = ts[i].isomorphic(t0);
                    if !b {
                        proof {
                            lemma_not_sym(*ts, i as int);
                        }
                        return false;
                    }
                    i = i + 1;
                }
                true
            },
        }
    }

    /// Number of symmetric internal nodes.
    pub fn count_symmetries(&self) -> (r: u32)
        requires
            no_empty_nodes(*self),
            sym_count(*self) <= u32::MAX,
        ensures
            r == sym_count(*self),
        decreases self,
    {
        match self {
            Phylo::Leaf(_) => 0,
            Phylo::Node(ts) => {
                let ghost cs = sym_counts(ts@);
                proof {
                    assert forall|j: int| 0 <= j < cs.len() implies cs[j] >= 0 by {
                        lemma_sym_nonneg(ts@[j]);
                    }
                }
                let mut c: u32 = if self.is_symmetric() {
                    1
                } else {
                    0
                };
                let ghost c0 = c as int;
                let mut i: usize = 0;
                while i < ts.len()
                    invariant
                        *self == Phylo::Node(*ts),
                        no_empty_nodes(*self),
                        i <= ts@.len(),
                        cs == sym_counts(ts@),
                        forall|j: int| 0 <= j < cs.len() ==> cs[j] >= 0,
                        c0 + sum(cs) <= u32::MAX,
                        0 <= c0,
                        c == c0 + sum(cs.take(i as int)),
                    decreases ts@.len() - i,
                {
                    proof {
                        lemma_child_decreases(*self, i as int);
                        lemma_sum_bounds(cs, i as int);
                        lemma_sum_take(cs, i as int);
                    }
                    let c1 = ts[i].count_symmetries();
                    c = c + c1;
                    i = i + 1;
                }
                proof {
                    assert(cs.take(i as int) =~= cs);
                }
                c
            },
        }
    }

    /// Number of automorphisms of the tree's shape.
    pub fn count_automorphisms(&self) -> (r: u32)
        requires
            aut(*self) <= u32::MAX,
        ensures
            r == aut(*self),
        decreases self,
    {
        match self {
            Phylo::Leaf(_) => 1,
            Phylo::Node(ts) => {
                let ghost fs = aut_factors(ts@);
                proof {
                    lemma_aut_factors_pos(ts@);
                }
                let mut a: u32 = 1;
                let mut start: usize = 0;
                let mut i: usize = 0;
                while i < ts.len()
                    invariant
                        *self == Phylo::Node(*ts),
                        i <= ts@.len(),
                        fs == aut_factors(ts@),
                        forall|j: int| 0 <= j < fs.len() ==> fs[j] >= 1,
                        prod(fs) <= u32::MAX,
                        a == prod(fs.take(i as int)),
                        i > 0 ==> start == run_start(ts@, i - 1),
                        start <= i,
                        i > 0 ==> start < i,
                    decreases ts@.len() - i,
                {
                    proof {
                        lemma_child_decreases(*self, i as int);
                        lemma_prod_bounds(fs, i as int);
                        lemma_prod_bounds(fs, i + 1);
                        lemma_prod_take(fs, i as int);
                        lemma_aut_pos(ts@[i as int]);
                        lemma_run_start_bounds(ts@, i as int);
                        let x = aut(ts@[i as int]);
                        let y = i - run_start(ts@, i as int) + 1;
                        assert(x <= x * y) by (nonlinear_arith)
                            requires
                                x >= 1,
                                y >= 1,
                        ;
                    }
                    if i > 0 && !ts[start].isomorphic(&ts[i]) {
                        start = i;
                    }
                    assert(start == run_start(ts@, i as int));
                    let c = ts[i].count_automorphisms();
                    let pos: u64 = (i - start + 1) as u64;
                    assert(fs[i as int] == c * pos);
                    assert(c * pos <= u32::MAX && pos <= u32::MAX) by (nonlinear_arith)
                        requires
                            c * pos == fs[i as int],
                            fs[i as int] <= prod(fs),
                            prod(fs) <= u32::MAX,
                            c >= 1,
                            pos >= 1,
                    ;
                    let f = c * (pos as u32);
                    assert(a * f <= u32::MAX) by (nonlinear_arith)
                        requires
                            a * f == prod(fs.take(i + 1)),
                            prod(fs.take(i + 1)) <= prod(fs),
                            prod(fs) <= u32::MAX,
                    ;
                    a = a * f;
                    i = i + 1;
                }
                proof {
                    assert(fs.take(i as int) =~= fs);
                }
                a
            },
        }
    }

    #[verifier::spinoff_prover]
    fn binary_qi_kappa(&self) -> (r: (u32, u32))
        requires
            is_binary(*self),
            binary_qi(*self) <= u32::MAX,
            kappa(*self) <= u32::MAX,
        ensures
            r.0 == binary_qi(*self),
            r.1 == kappa(*self),
        decreases self,
    {
        match self {
            Phylo::Leaf(x) => {
                proof {
                    lemma_binary_qi_leaf(*x);
                }
                (0, 1)
            },
            Phylo::Node(ts) => {
                proof {
                    lemma_child_decreases(*self, 0);
                    lemma_child_decreases(*self, 1);
                    lemma_binary_qi_nonneg(ts@[0]);
                    lemma_binary_qi_nonneg(ts@[1]);
                    lemma_kappa_pos(ts@[0]);
                    lemma_kappa_pos(ts@[1]);
                    lemma_sum_take(kappas(ts@), 0);
                    lemma_sum_take(kappas(ts@), 1);
                    assert(kappas(ts@).take(2) =~= kappas(ts@));
                    assert(kappas(ts@).take(0).len() == 0);
                }
                proof {
                    lemma_binary_qi_node(*ts);
                }
                let (q0, k0) = ts[0].binary_qi_kappa();
                let (q1, k1) = ts[1].binary_qi_kappa();
                let k = k0 + k1;
                if k < 4 {
                    (0, k)
                } else {
                    let b0 = choose2_wide(k0);
                    let b1 = choose2_wide(k1);
                    proof {
                        lemma_choose2_nonneg(k0 as int);
                        lemma_choose2_nonneg(k1 as int);
                        assert(b0 == choose2(k0 as int));
                        assert(b1 == choose2(k1 as int));
                    }
                    let p: u64 = if b0 == 0 || b1 == 0 {
                        0
                    } else {
                        assert(b0 * b1 <= u32::MAX) by (nonlinear_arith)
                            requires
                                b0 * b1 + q0 + q1 <= u32::MAX,
                                q0 >= 0,
                                q1 >= 0,
                        ;
                        b0 * b1
                    };
                    ((q0 as u64 + q1 as u64 + p) as u32, k)
                }
            },
        }
    }

    /// Quartet index of a binary tree, counting the balanced quartets.
    pub fn binary_quartet_index(&self) -> (r: u32)
        requires
            is_binary(*self),
            binary_qi(*self) <= u32::MAX,
            kappa(*self) <= u32::MAX,
        ensures
            r == binary_qi(*self),
    {
        self.binary_qi_kappa().0
    }
}

} // verus!
