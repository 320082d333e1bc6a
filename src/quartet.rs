use vstd::prelude::*;
use crate::phylo::{Phylo, sum, kappa, kappas, is_binary, lemma_child_decreases};
use crate::balance::binary_qi;
use crate::shape::Shape;
use crate::generator::{canonical, lemma_canonical_node, lemma_kappa_node, total};
use crate::phylo::cmp_shape;
use std::cmp::Ordering;
use crate::util::choose2;

verus! {

/// Sums over the children of a node, each grouped by the largest child index
/// it involves. With `k` the leaf counts, `c` their `choose2`, `t` the
/// triplet counts and `q` the quartet counts of the children:
/// `e1..e4` are the sums of products of `k` over all unordered 1-, 2-, 3- and
/// 4-sets of children; `c1` the sum of `c`; `m` the sum over pairs `{i, j}` of
/// `c_i k_j + c_j k_i`; `s1` the sum over triples of
/// `c_i k_j k_l + c_j k_i k_l + c_l k_i k_j`; `s2` the sum over pairs of
/// `k_i t_j + k_j t_i`; `s3` the sum over pairs of `c_i c_j`; `t1` the sum of
/// `t`; `q1` the sum of `q`.
pub struct QiSums {
    pub e1: int,
    pub e2: int,
    pub e3: int,
    pub e4: int,
    pub c1: int,
    pub m: int,
    pub s1: int,
    pub s2: int,
    pub s3: int,
    pub t1: int,
    pub q1: int,
}

/// The sums of `QiSums` over child records `(kappa, triplets, quartets)`.
pub open spec fn qi_sums(rs: Seq<(int, int, int)>) -> QiSums
    decreases rs.len(),
{
    if rs.len() == 0 {
        QiSums { e1: 0, e2: 0, e3: 0, e4: 0, c1: 0, m: 0, s1: 0, s2: 0, s3: 0, t1: 0, q1: 0 }
    } else {
        let a = qi_sums(rs.drop_last());
        let x = rs.last().0;
        let tr = rs.last().1;
        let q = rs.last().2;
        let c = choose2(x);
        QiSums {
            e1: a.e1 + x,
            e2: a.e2 + x * a.e1,
            e3: a.e3 + x * a.e2,
            e4: a.e4 + x * a.e3,
            c1: a.c1 + c,
            m: a.m + c * a.e1 + x * a.c1,
            s1: a.s1 + c * a.e2 + x * a.m,
            s2: a.s2 + x * a.t1 + tr * a.e1,
            s3: a.s3 + c * a.c1,
            t1: a.t1 + tr,
            q1: a.q1 + q,
        }
    }
}

pub open spec fn is_cherry<T>(t: Phylo<T>) -> bool {
    t is Node && t->Node_0@.len() == 2 && t->Node_0@[0] is Leaf && t->Node_0@[1] is Leaf
}

pub open spec fn is_star3<T>(t: Phylo<T>) -> bool {
    t is Node && t->Node_0@.len() == 3 && t->Node_0@[0] is Leaf && t->Node_0@[1] is Leaf
        && t->Node_0@[2] is Leaf
}

/// Which of the five four-leaf shapes `t` is, in canonical child order:
/// 0 for `(*,(*,(*,*)))`, 1 for `(*,*,(*,*))`, 2 for `(*,(*,*,*))`,
/// 3 for `((*,*),(*,*))`, 4 for `(*,*,*,*)`; -1 for none of them.
pub open spec fn quartet_kind<T>(t: Phylo<T>) -> int {
    if !(t is Node) {
        -1
    } else {
        let ts = t->Node_0@;
        if ts.len() == 2 && ts[0] is Leaf && ts[1] is Node && ts[1]->Node_0@.len() == 2
            && ts[1]->Node_0@[0] is Leaf && is_cherry(ts[1]->Node_0@[1]) {
            0
        } else if ts.len() == 3 && ts[0] is Leaf && ts[1] is Leaf && is_cherry(ts[2]) {
            1
        } else if ts.len() == 2 && ts[0] is Leaf && is_star3(ts[1]) {
            2
        } else if ts.len() == 2 && is_cherry(ts[0]) && is_cherry(ts[1]) {
            3
        } else if ts.len() == 4 && ts[0] is Leaf && ts[1] is Leaf && ts[2] is Leaf && ts[3] is Leaf {
            4
        } else {
            -1
        }
    }
}

/// The record `(kappa, triplets, quartets)` of a tree under the score vector
/// `vs`: its leaf count, its number of three-leaf sets that induce a star,
/// and the sum over its four-leaf sets of the score of the induced shape.
pub open spec fn qi<T>(t: Phylo<T>, vs: Seq<u32>) -> (int, int, int)
    decreases t,
{
    match t {
        Phylo::Leaf(_) => (1, 0, 0),
        Phylo::Node(ts) => {
            let a = qi_sums(qi_recs(ts@, vs));
            (a.e1, node_triplets(a), node_quartets(t, a, vs))
        },
    }
}

pub open spec fn qi_recs<T>(ts: Seq<Phylo<T>>, vs: Seq<u32>) -> Seq<(int, int, int)>
    decreases ts,
{
    Seq::new(ts.len(), |i: int| if 0 <= i < ts.len() { qi(ts[i], vs) } else { (0, 0, 0) })
}

pub open spec fn node_triplets(a: QiSums) -> int {
    if a.e1 < 3 {
        0
    } else {
        a.t1 + a.e3
    }
}

pub open spec fn weighted(a: QiSums, vs: Seq<u32>) -> int {
    a.q1 + vs[1] * a.s1 + vs[2] * a.s2 + vs[3] * a.s3 + vs[4] * a.e4
}

pub open spec fn node_quartets<T>(t: Phylo<T>, a: QiSums, vs: Seq<u32>) -> int {
    if a.e1 < 4 {
        0
    } else if a.e1 == 4 {
        vs[quartet_kind(t)] as int
    } else {
        weighted(a, vs)
    }
}

/// The default scores: the quartet shapes weigh 0, 1, 2, 3 and 4.
pub open spec fn default_scores() -> Seq<u32> {
    seq![0u32, 1u32, 2u32, 3u32, 4u32]
}

pub open spec fn fits(x: int) -> bool {
    0 <= x <= u32::MAX
}

/// All sums of a node fit in 32 bits, and so does every term of its quartet
/// count.
pub open spec fn sums_fit(a: QiSums, vs: Seq<u32>) -> bool {
    &&& fits(a.e1) && fits(a.e2) && fits(a.e3) && fits(a.e4) && fits(a.c1)
    &&& fits(a.m) && fits(a.s1) && fits(a.s2) && fits(a.s3) && fits(a.t1)
    &&& fits(a.q1) && fits(a.t1 + a.e3)
    &&& a.e1 > 4 ==> fits(weighted(a, vs))
}

/// The quartet index of `t` under `vs` can be computed in 32-bit arithmetic,
/// and every four-leaf subtree is one of the five quartet shapes in
/// canonical order.
pub open spec fn qi_computable<T>(t: Phylo<T>, vs: Seq<u32>) -> bool
    decreases t,
{
    match t {
        Phylo::Leaf(_) => true,
        Phylo::Node(ts) => {
            let a = qi_sums(qi_recs(ts@, vs));
            &&& sums_fit(a, vs)
            &&& a.e1 == 4 ==> 0 <= quartet_kind(t) < 5
            &&& forall|i: int| 0 <= i < ts@.len() ==> qi_computable(#[trigger] ts@[i], vs)
        },
    }
}

/// The partial sums over a prefix are at most the sums over the whole
/// sequence, field by field, when all records are non-negative.
proof fn lemma_sums_prefix(rs: Seq<(int, int, int)>, i: int)
    requires
        0 <= i <= rs.len(),
        forall|j: int| 0 <= j < rs.len() ==> (#[trigger] rs[j]).0 >= 0 && rs[j].1 >= 0 && rs[j].2 >= 0,
    ensures
        sums_le(qi_sums(rs.take(i)), qi_sums(rs)),
        sums_nonneg(qi_sums(rs)),
    decreases rs.len() - i,
{
    lemma_sums_nonneg(rs);
    if i < rs.len() {
        lemma_sums_prefix(rs, i + 1);
        assert(rs.take(i + 1).drop_last() =~= rs.take(i));
        lemma_sums_nonneg(rs.take(i));
        lemma_sums_step(qi_sums(rs.take(i)), rs[i]);
    } else {
        assert(rs.take(i) =~= rs);
    }
}

pub open spec fn sums_nonneg(a: QiSums) -> bool {
    a.e1 >= 0 && a.e2 >= 0 && a.e3 >= 0 && a.e4 >= 0 && a.c1 >= 0 && a.m >= 0 && a.s1 >= 0
        && a.s2 >= 0 && a.s3 >= 0 && a.t1 >= 0 && a.q1 >= 0
}

pub open spec fn sums_le(a: QiSums, b: QiSums) -> bool {
    a.e1 <= b.e1 && a.e2 <= b.e2 && a.e3 <= b.e3 && a.e4 <= b.e4 && a.c1 <= b.c1 && a.m <= b.m
        && a.s1 <= b.s1 && a.s2 <= b.s2 && a.s3 <= b.s3 && a.t1 <= b.t1 && a.q1 <= b.q1
}

/// One step adds non-negative terms only.
proof fn lemma_sums_step(a: QiSums, r: (int, int, int))
    requires
        sums_nonneg(a),
        r.0 >= 0,
        r.1 >= 0,
    ensures
        choose2(r.0) >= 0,
        r.0 * a.e1 >= 0,
        r.0 * a.e2 >= 0,
        r.0 * a.e3 >= 0,
        choose2(r.0) * a.e1 >= 0,
        r.0 * a.c1 >= 0,
        choose2(r.0) * a.e2 >= 0,
        r.0 * a.m >= 0,
        r.0 * a.t1 >= 0,
        r.1 * a.e1 >= 0,
        choose2(r.0) * a.c1 >= 0,
{
    crate::balance::lemma_choose2_nonneg(r.0);
    let x = r.0;
    let c = choose2(r.0);
    let tr = r.1;
    assert(x * a.e1 >= 0 && x * a.e2 >= 0 && x * a.e3 >= 0 && x * a.c1 >= 0 && x * a.m >= 0
        && x * a.t1 >= 0) by (nonlinear_arith)
        requires
            x >= 0,
            sums_nonneg(a),
    ;
    assert(c * a.e1 >= 0 && c * a.e2 >= 0 && c * a.c1 >= 0 && tr * a.e1 >= 0) by (nonlinear_arith)
        requires
            c >= 0,
            tr >= 0,
            sums_nonneg(a),
    ;
}

proof fn lemma_sums_nonneg(rs: Seq<(int, int, int)>)
    requires
        forall|j: int| 0 <= j < rs.len() ==> (#[trigger] rs[j]).0 >= 0 && rs[j].1 >= 0 && rs[j].2 >= 0,
    ensures
        sums_nonneg(qi_sums(rs)),
    decreases rs.len(),
{
    if rs.len() > 0 {
        lemma_sums_nonneg(rs.drop_last());
        lemma_sums_step(qi_sums(rs.drop_last()), rs.last());
    }
}

/// The record of a subtree, as the fold over the tree carries it.
#[derive(Clone, Copy)]
pub struct QI {
    pub quartets: u32,
    pub triplets: u32,
    pub kappa: u32,
}

impl QI {
    pub open spec fn view_rec(self) -> (int, int, int) {
        (self.kappa as int, self.triplets as int, self.quartets as int)
    }

    /// The record of a leaf.
    pub fn leaf() -> (r: QI)
        ensures
            r.view_rec() == (1int, 0int, 0int),
    {
        QI { quartets: 0, triplets: 0, kappa: 1 }
    }
}

/// The sums of `QiSums`, in 64-bit words.
struct Sums {
    e1: u64,
    e2: u64,
    e3: u64,
    e4: u64,
    c1: u64,
    m: u64,
    s1: u64,
    s2: u64,
    s3: u64,
    t1: u64,
    q1: u64,
}

impl Sums {
    spec fn view_sums(self) -> QiSums {
        QiSums {
            e1: self.e1 as int,
            e2: self.e2 as int,
            e3: self.e3 as int,
            e4: self.e4 as int,
            c1: self.c1 as int,
            m: self.m as int,
            s1: self.s1 as int,
            s2: self.s2 as int,
            s3: self.s3 as int,
            t1: self.t1 as int,
            q1: self.q1 as int,
        }
    }
}

fn choose2_u64(k: u64) -> (r: u64)
    requires
        k <= u32::MAX,
    ensures
        r == choose2(k as int),
{
    if k < 2 {
        0
    } else {
        assert(k * (k - 1) <= u64::MAX) by (nonlinear_arith)
            requires
                k <= u32::MAX,
                k >= 2,
        ;
        k * (k - 1) / 2
    }
}

/// `a + x * y` where the result is known to fit in 32 bits.
fn add_mul(a: u64, x: u64, y: u64, bound: Ghost<int>) -> (r: u64)
    requires
        x <= u32::MAX,
        y <= u32::MAX,
        a + x * y <= bound@,
        bound@ <= u32::MAX,
        a >= 0,
    ensures
        r == a + x * y,
{
    assert(x * y <= u64::MAX) by (nonlinear_arith)
        requires
            x <= u32::MAX,
            y <= u32::MAX,
    ;
    assert(0 <= x * y) by (nonlinear_arith)
        requires
            x >= 0,
            y >= 0,
    ;
    a + x * y
}

/// The sums over the children's records.
fn sum_records(recs: &Vec<QI>, vs: Ghost<Seq<u32>>) -> (r: Sums)
    requires
        sums_fit(qi_sums(recs@.map_values(|q: QI| q.view_rec())), vs@),
    ensures
        r.view_sums() == qi_sums(recs@.map_values(|q: QI| q.view_rec())),
{
    let ghost rs = recs@.map_values(|q: QI| q.view_rec());
    let ghost full = qi_sums(rs);
    proof {
        assert forall|j: int| 0 <= j < rs.len() implies (#[trigger] rs[j]).0 >= 0 && rs[j].1 >= 0
            && rs[j].2 >= 0 by {}
        lemma_sums_prefix(rs, 0);
        assert(rs.take(0) =~= Seq::<(int, int, int)>::empty());
    }
    let mut a = Sums { e1: 0, e2: 0, e3: 0, e4: 0, c1: 0, m: 0, s1: 0, s2: 0, s3: 0, t1: 0, q1: 0 };
    let mut i: usize = 0;
    while i < recs.len()
        invariant
            i <= recs@.len(),
            rs == recs@.map_values(|q: QI| q.view_rec()),
            full == qi_sums(rs),
            sums_fit(full, vs@),
            forall|j: int| 0 <= j < rs.len() ==> (#[trigger] rs[j]).0 >= 0 && rs[j].1 >= 0 && rs[j].2 >= 0,
            a.view_sums() == qi_sums(rs.take(i as int)),
        decreases recs@.len() - i,
    {
        proof {
            lemma_sums_prefix(rs, i as int);
            lemma_sums_prefix(rs, i + 1);
            lemma_sums_nonneg(rs.take(i as int));
            assert(rs.take(i + 1).drop_last() =~= rs.take(i as int));
            assert(rs.take(i + 1).last() == rs[i as int]);
            lemma_sums_step(qi_sums(rs.take(i as int)), rs[i as int]);
        }
        let ghost nx = qi_sums(rs.take(i + 1));
        let x = recs[i].kappa as u64;
        let tr = recs[i].triplets as u64;
        let q = recs[i].quartets as u64;
        let c = choose2_u64(x);
        let e1 = a.e1 + x;
        let e2 = add_mul(a.e2, x, a.e1, Ghost(full.e2));
        let e3 = add_mul(a.e3, x, a.e2, Ghost(full.e3));
        let e4 = add_mul(a.e4, x, a.e3, Ghost(full.e4));
        let c1 = a.c1 + c;
        let m0 = add_mul(a.m, c, a.e1, Ghost(full.m));
        let m = add_mul(m0, x, a.c1, Ghost(full.m));
        let s10 = add_mul(a.s1, c, a.e2, Ghost(full.s1));
        let s1 = add_mul(s10, x, a.m, Ghost(full.s1));
        let s20 = add_mul(a.s2, x, a.t1, Ghost(full.s2));
        let s2 = add_mul(s20, tr, a.e1, Ghost(full.s2));
        let s3 = add_mul(a.s3, c, a.c1, Ghost(full.s3));
        let t1 = a.t1 + tr;
        let q1 = a.q1 + q;
        a = Sums { e1, e2, e3, e4, c1, m, s1, s2, s3, t1, q1 };
        i = i + 1;
    }
    proof {
        assert(rs.take(i as int) =~= rs);
    }
    a
}

fn is_leaf_pair<T>(t: &Phylo<T>) -> (r: bool)
    ensures
        r == is_cherry(*t),
{
    match t {
        Phylo::Leaf(_) => false,
        Phylo::Node(ts) => ts.len() == 2 && ts[0].is_leaf() && ts[1].is_leaf(),
    }
}

fn is_leaf_triple<T>(t: &Phylo<T>) -> (r: bool)
    ensures
        r == is_star3(*t),
{
    match t {
        Phylo::Leaf(_) => false,
        Phylo::Node(ts) => ts.len() == 3 && ts[0].is_leaf() && ts[1].is_leaf() && ts[2].is_leaf(),
    }
}

/// Whether `t` is a leaf beside a cherry, `(*,(*,*))`, under its root's
/// second child.
fn is_leaf_and_cherry<T>(t: &Phylo<T>) -> (r: bool)
    ensures
        r == (t is Node && t->Node_0@.len() == 2 && t->Node_0@[0] is Leaf && is_cherry(
            t->Node_0@[1],
        )),
{
    match t {
        Phylo::Leaf(_) => false,
        Phylo::Node(ts) => ts.len() == 2 && ts[0].is_leaf() && is_leaf_pair(&ts[1]),
    }
}

/// Which of the five four-leaf shapes `t` is (-1 for none).
fn find_quartet_kind<T>(t: &Phylo<T>) -> (r: i32)
    ensures
        r == quartet_kind(*t),
{
    match t {
        Phylo::Leaf(_) => -1,
        Phylo::Node(ts) => {
            let n = ts.len();
            if n == 2 && ts[0].is_leaf() && is_leaf_and_cherry(&ts[1]) {
                0
            } else if n == 3 && ts[0].is_leaf() && ts[1].is_leaf() && is_leaf_pair(&ts[2]) {
                1
            } else if n == 2 && ts[0].is_leaf() && is_leaf_triple(&ts[1]) {
                2
            } else if n == 2 && is_leaf_pair(&ts[0]) && is_leaf_pair(&ts[1]) {
                3
            } else if n == 4 && ts[0].is_leaf() && ts[1].is_leaf() && ts[2].is_leaf()
                && ts[3].is_leaf() {
                4
            } else {
                -1
            }
        },
    }
}

/// The scores in force: the given ones, or the default ones.
pub open spec fn scores_of(quartet_values: Option<&[u32; 5]>) -> Seq<u32> {
    match quartet_values {
        Some(v) => v@,
        None => default_scores(),
    }
}

impl QI {
    fn compute_triplets(a: &Sums, vs: Ghost<Seq<u32>>) -> (r: u32)
        requires
            sums_fit(a.view_sums(), vs@),
        ensures
            r == node_triplets(a.view_sums()),
    {
        if a.e1 < 3 {
            0
        } else {
            (a.t1 + a.e3) as u32
        }
    }

    fn compute_quartets<T>(t: &Phylo<T>, a: &Sums, quartet_values: &[u32; 5]) -> (r: u32)
        requires
            sums_fit(a.view_sums(), quartet_values@),
            a.e1 == 4 ==> 0 <= quartet_kind(*t) < 5,
        ensures
            r == node_quartets(*t, a.view_sums(), quartet_values@),
    {
        if a.e1 < 4 {
            0
        } else if a.e1 == 4 {
            let k = find_quartet_kind(t);
            quartet_values[k as usize]
        } else {
            let ghost vs = quartet_values@;
            let ghost w = weighted(a.view_sums(), vs);
            let v1 = quartet_values[1] as u64;
            let v2 = quartet_values[2] as u64;
            let v3 = quartet_values[3] as u64;
            let v4 = quartet_values[4] as u64;
            assert(v1 * a.s1 >= 0 && v2 * a.s2 >= 0 && v3 * a.s3 >= 0 && v4 * a.e4 >= 0)
                by (nonlinear_arith)
                requires
                    v1 >= 0,
                    v2 >= 0,
                    v3 >= 0,
                    v4 >= 0,
                    a.s1 >= 0,
                    a.s2 >= 0,
                    a.s3 >= 0,
                    a.e4 >= 0,
            ;
            let r1 = add_mul(a.q1, v1, a.s1, Ghost(w));
            let r2 = add_mul(r1, v2, a.s2, Ghost(w));
            let r3 = add_mul(r2, v3, a.s3, Ghost(w));
            let r4 = add_mul(r3, v4, a.e4, Ghost(w));
            r4 as u32
        }
    }

    /// The record of an internal node from those of its children.
    fn from_rec<T>(t: &Phylo<T>, qi_rec: &Vec<QI>, quartet_values: &[u32; 5]) -> (r: QI)
        requires
            sums_fit(qi_sums(qi_rec@.map_values(|q: QI| q.view_rec())), quartet_values@),
            qi_sums(qi_rec@.map_values(|q: QI| q.view_rec())).e1 == 4 ==> 0 <= quartet_kind(*t)
                < 5,
        ensures
            ({
                let a = qi_sums(qi_rec@.map_values(|q: QI| q.view_rec()));
                r.view_rec() == (a.e1, node_triplets(a), node_quartets(*t, a, quartet_values@))
            }),
    {
        let a = sum_records(qi_rec, Ghost(quartet_values@));
        let triplets = Self::compute_triplets(&a, Ghost(quartet_values@));
        let quartets = Self::compute_quartets(t, &a, quartet_values);
        QI { quartets, triplets, kappa: a.e1 as u32 }
    }
}

impl<T> Phylo<T> {
    fn qi_rec(&self, quartet_values: &[u32; 5]) -> (r: QI)
        requires
            qi_computable(*self, quartet_values@),
        ensures
            r.view_rec() == qi(*self, quartet_values@),
        decreases self,
    {
        match self {
            Phylo::Leaf(_) => QI::leaf(),
            Phylo::Node(ts) => {
                let ghost vs = quartet_values@;
                let ghost want = qi_recs(ts@, vs);
                let mut recs: Vec<QI> = Vec::new();
                let mut i: usize = 0;
                while i < ts.len()
                    invariant
                        *self == Phylo::Node(*ts),
                        vs == quartet_values@,
                        want == qi_recs(ts@, vs),
                        qi_computable(*self, vs),
                        i <= ts@.len(),
                        recs@.map_values(|q: QI| q.view_rec()) == want.take(i as int),
                    decreases ts@.len() - i,
                {
                    proof {
                        lemma_child_decreases(*self, i as int);
                    }
                    let c = ts[i].qi_rec(quartet_values);
                    let ghost before = recs@;
                    recs.push(c);
                    proof {
                        assert(want[i as int] == qi(ts@[i as int], vs));
                        assert(recs@.map_values(|q: QI| q.view_rec()) =~= before.map_values(
                            |q: QI| q.view_rec(),
                        ).push(c.view_rec()));
                        assert(want.take(i + 1) =~= want.take(i as int).push(want[i as int]));
                    }
                    i = i + 1;
                }
                proof {
                    assert(want.take(i as int) =~= want);
                }
                QI::from_rec(self, &recs, quartet_values)
            },
        }
    }

    /// Quartet index: the sum over all four-leaf sets of the score of the
    /// shape they induce, with the default scores 0, 1, 2, 3, 4 when none are
    /// given.
    pub fn quartet_index(&self, quartet_values: Option<&[u32; 5]>) -> (r: u32)
        requires
            qi_computable(*self, scores_of(quartet_values)),
        ensures
            r == qi(*self, scores_of(quartet_values)).2,
    {
        let default_values: [u32; 5] = [0, 1, 2, 3, 4];
        proof {
            assert(default_values@ =~= default_scores());
        }
        let vs = match quartet_values {
            Some(v) => v,
            None => &default_values,
        };
        let r = self.qi_rec(vs);
        r.quartets
    }
}

/// The scores 0, 0, 0, 1, 1: on a binary tree they count the four-leaf sets
/// that induce the balanced shape `((*,*),(*,*))`.
pub open spec fn binary_scores() -> Seq<u32> {
    seq![0u32, 0u32, 0u32, 1u32, 1u32]
}

/// Every subtree with four leaves is one of the five quartet shapes in
/// canonical child order.
pub open spec fn quartet_shapes_known<T>(t: Phylo<T>) -> bool
    decreases t,
{
    match t {
        Phylo::Leaf(_) => true,
        Phylo::Node(ts) => {
            &&& kappa(t) == 4 ==> 0 <= quartet_kind(t) < 5
            &&& forall|i: int| 0 <= i < ts@.len() ==> quartet_shapes_known(#[trigger] ts@[i])
        },
    }
}

/// On a binary tree whose four-leaf subtrees are in canonical order, the
/// general quartet index with the scores 0, 0, 0, 1, 1 equals the binary
/// quartet index.
#[verifier::spinoff_prover]
#[verifier::rlimit(40)]
pub proof fn lemma_quartet_index_binary<T>(t: Phylo<T>)
    requires
        is_binary(t),
        quartet_shapes_known(t),
    ensures
        qi(t, binary_scores()).0 == kappa(t),
        qi(t, binary_scores()).2 == binary_qi(t),
    decreases t,
{
    if let Phylo::Node(ts) = t {
        let vs = binary_scores();
        let a = ts@[0];
        let b = ts@[1];
        lemma_child_decreases(t, 0);
        lemma_child_decreases(t, 1);
        lemma_quartet_index_binary(a);
        lemma_quartet_index_binary(b);
        let rs = qi_recs(ts@, vs);
        assert(rs[0] == qi(a, vs));
        assert(rs[1] == qi(b, vs));
        let r1 = rs.drop_last();
        assert(r1.drop_last() =~= Seq::<(int, int, int)>::empty());
        assert(r1.last() == rs[0]);
        assert(rs.last() == rs[1]);
        let z = qi_sums(r1.drop_last());
        assert(z.e1 == 0 && z.e2 == 0 && z.e3 == 0 && z.m == 0 && z.c1 == 0 && z.t1 == 0
            && z.q1 == 0 && z.s1 == 0 && z.s3 == 0 && z.e4 == 0 && z.s2 == 0);
        let s0 = qi_sums(r1);
        let ka = kappa(a);
        let kb = kappa(b);
        let ca = choose2(ka);
        let cb = choose2(kb);
        assert(s0.e1 == ka);
        assert(r1.last().0 == ka);
        assert(s0.e2 == z.e2 + ka * z.e1);
        assert(s0.m == z.m + ca * z.e1 + ka * z.c1);
        assert(s0.e3 == z.e3 + ka * z.e2);
        assert(s0.c1 == z.c1 + ca);
        assert(s0.q1 == z.q1 + qi(a, vs).2);
        assert(ka * z.e1 == 0 && ca * z.e1 == 0 && ka * z.c1 == 0 && ka * z.e2 == 0)
            by (nonlinear_arith)
            requires
                z.e1 == 0,
                z.c1 == 0,
                z.e2 == 0,
        ;
        assert(s0.e2 == 0 && s0.m == 0 && s0.e3 == 0 && s0.c1 == ca && s0.q1 == qi(a, vs).2);
        let s = qi_sums(rs);
        assert(s.e1 == ka + kb);
        assert(s.e4 == s0.e4 + kb * s0.e3);
        assert(s.s1 == s0.s1 + cb * s0.e2 + kb * s0.m);
        assert(s.s3 == s0.s3 + cb * s0.c1);
        assert(s.q1 == s0.q1 + qi(b, vs).2);
        assert(s0.e4 == z.e4 + ka * z.e3);
        assert(s0.s1 == z.s1 + ca * z.e2 + ka * z.m);
        assert(s0.s3 == z.s3 + ca * z.c1);
        assert(ka * z.e3 == 0 && ca * z.e2 == 0 && ka * z.m == 0 && ca * z.c1 == 0)
            by (nonlinear_arith)
            requires
                z.e3 == 0,
                z.e2 == 0,
                z.m == 0,
                z.c1 == 0,
        ;
        assert(kb * s0.e3 == 0 && cb * s0.e2 == 0 && kb * s0.m == 0) by (nonlinear_arith)
            requires
                s0.e3 == 0,
                s0.e2 == 0,
                s0.m == 0,
        ;
        assert(s.e4 == 0 && s.s1 == 0 && s.s3 == cb * ca && s.q1 == qi(a, vs).2 + qi(b, vs).2);
        let ks = kappas(ts@);
        assert(ks.drop_last().drop_last() =~= Seq::<int>::empty());
        assert(ks.drop_last().last() == ks[0]);
        assert(ks.last() == ks[1]);
        assert(sum(ks.drop_last().drop_last()) == 0);
        assert(sum(ks.drop_last()) == ks[0]);
        assert(sum(ks) == ks[0] + ks[1]);
        assert(kappa(t) == kappa(a) + kappa(b));
        assert(weighted(s, vs) == s.q1 + s.s3) by (nonlinear_arith)
            requires
                vs[1] == 0,
                vs[2] == 0,
                vs[3] == 1,
                vs[4] == 1,
                s.e4 == 0,
                weighted(s, vs) == s.q1 + vs[1] * s.s1 + vs[2] * s.s2 + vs[3] * s.s3 + vs[4] * s.e4,
        ;
        assert(choose2(kappa(b)) * choose2(kappa(a)) == choose2(kappa(a)) * choose2(kappa(b)))
            by (nonlinear_arith);
        crate::balance::lemma_binary_qi_node(ts);
        assert(qi(t, vs) == (s.e1, node_triplets(s), node_quartets(t, s, vs)));
        crate::phylo::lemma_kappa_pos(a);
        crate::phylo::lemma_kappa_pos(b);
        if kappa(t) == 4 {
            assert(binary_qi(a) == 0) by {
                if let Phylo::Node(us) = a {
                    assert(is_binary(a));
                    assert(us@.len() == 2);
                    crate::balance::lemma_binary_qi_node(us);
                }
            }
            assert(binary_qi(b) == 0) by {
                if let Phylo::Node(us) = b {
                    assert(is_binary(b));
                    assert(us@.len() == 2);
                    crate::balance::lemma_binary_qi_node(us);
                }
            }
            let k = quartet_kind(t);
            assert(t->Node_0 == ts);
            assert(vs[0] == 0u32 && vs[3] == 1u32);
            if k == 0 {
                assert(a is Leaf);
                assert(ka == 1);
                assert(ca == 0);
                assert(ca * cb == 0);
                assert(qi(t, vs).2 == 0);
                assert(binary_qi(t) == 0);
            } else if k == 3 {
                assert(is_cherry(a) && is_cherry(b));
                let sa = kappas(a->Node_0@);
                assert(sa.drop_last().drop_last() =~= Seq::<int>::empty());
                assert(sum(sa.drop_last()) == sa[0]);
                assert(ka == 2);
                let sb = kappas(b->Node_0@);
                assert(sb.drop_last().drop_last() =~= Seq::<int>::empty());
                assert(sum(sb.drop_last()) == sb[0]);
                assert(kb == 2);
                crate::util::lemma_choose2_two();
                assert(ca == 1 && cb == 1);
                assert(ca * cb == 1) by (nonlinear_arith)
                    requires
                        ca == 1,
                        cb == 1,
                ;
                assert(qi(t, vs).2 == 1);
                assert(binary_qi(t) == 1);
            } else {
                assert(is_binary(b));
                if k == 2 {
                    assert(is_star3(b));
                    if let Phylo::Node(us) = b {
                        crate::generator::lemma_kappa_node(us);
                        assert(us@.len() == 3);
                    }
                }
                assert(false);
            }
        } else if kappa(t) < 4 {
            assert(qi(t, vs).2 == 0);
            assert(binary_qi(t) == 0);
        } else {
            assert(qi(t, vs).2 == s.q1 + s.s3);
            assert(binary_qi(t) == binary_qi(a) + binary_qi(b) + ca * cb);
        }
    }
}

/// A binary shape with at most three leaves whose children are in canonical
/// order is a leaf, the cherry, or a leaf beside a cherry.
proof fn lemma_small_binary(t: Shape)
    requires
        is_binary(t),
        canonical(t),
        kappa(t) <= 3,
    ensures
        kappa(t) >= 1,
        kappa(t) == 1 ==> t is Leaf,
        kappa(t) == 2 ==> is_cherry(t),
        kappa(t) == 3 ==> t is Node && t->Node_0@.len() == 2 && t->Node_0@[0] is Leaf
            && is_cherry(t->Node_0@[1]),
    decreases t,
{
    if let Phylo::Node(ts) = t {
        lemma_kappa_node(ts);
        lemma_canonical_node(ts);
        lemma_binary_pair(ts);
        let a = ts@[0];
        let b = ts@[1];
        lemma_child_decreases(t, 0);
        lemma_child_decreases(t, 1);
        crate::phylo::lemma_kappa_pos(a);
        crate::phylo::lemma_kappa_pos(b);
        lemma_kappa_at_least_one(a);
        lemma_kappa_at_least_one(b);
        lemma_small_binary(a);
        lemma_small_binary(b);
        if kappa(t) == 3 {
            if kappa(a) == 2 {
                assert(cmp_shape(a, b) != Ordering::Greater);
            }
        }
    }
}

proof fn lemma_binary_pair(ts: Vec<Shape>)
    requires
        is_binary(Phylo::Node(ts)),
    ensures
        ts@.len() == 2,
        is_binary(ts@[0]) && is_binary(ts@[1]),
        total(ts@) == kappa(ts@[0]) + kappa(ts@[1]),
{
    lemma_kappa_node(ts);
    let ks = kappas(ts@);
    assert(ks.drop_last().drop_last() =~= Seq::<int>::empty());
    assert(sum(ks.drop_last().drop_last()) == 0);
    assert(ks.drop_last().last() == ks[0]);
    assert(sum(ks.drop_last()) == ks[0]);
    assert(ks.last() == ks[1]);
}

proof fn lemma_kappa_at_least_one(t: Shape)
    requires
        is_binary(t),
    ensures
        kappa(t) >= 1,
    decreases t,
{
    if let Phylo::Node(ts) = t {
        lemma_binary_pair(ts);
        lemma_kappa_node(ts);
        lemma_child_decreases(t, 0);
        lemma_child_decreases(t, 1);
        lemma_kappa_at_least_one(ts@[0]);
        lemma_kappa_at_least_one(ts@[1]);
    }
}

/// In a binary shape with its children in canonical order, every subtree
/// with four leaves is one of the five quartet shapes.
pub proof fn lemma_canonical_binary_quartets_known(t: Shape)
    requires
        is_binary(t),
        canonical(t),
    ensures
        quartet_shapes_known(t),
    decreases t,
{
    if let Phylo::Node(ts) = t {
        lemma_binary_pair(ts);
        lemma_kappa_node(ts);
        lemma_canonical_node(ts);
        let a = ts@[0];
        let b = ts@[1];
        lemma_child_decreases(t, 0);
        lemma_child_decreases(t, 1);
        lemma_canonical_binary_quartets_known(a);
        lemma_canonical_binary_quartets_known(b);
        lemma_kappa_at_least_one(a);
        lemma_kappa_at_least_one(b);
        if kappa(t) == 4 {
            lemma_small_binary(a);
            lemma_small_binary(b);
            if kappa(a) == 3 {
                assert(cmp_shape(a, b) != Ordering::Greater);
            }
            assert(t->Node_0 == ts);
            assert(0 <= quartet_kind(t) < 5);
        }
        assert forall|i: int| 0 <= i < ts@.len() implies quartet_shapes_known(#[trigger] ts@[i]) by {
            if i == 0 {
            } else {
                assert(i == 1);
            }
        }
        assert(t->Node_0 == ts);
    }
}

/// On every binary shape with its children in canonical order (every shape
/// the binary generator returns), the general quartet index with the scores
/// 0, 0, 0, 1, 1 equals the binary quartet index.
pub proof fn lemma_quartet_index_binary_shapes(t: Shape)
    requires
        is_binary(t),
        canonical(t),
    ensures
        qi(t, binary_scores()).2 == binary_qi(t),
{
    lemma_canonical_binary_quartets_known(t);
    lemma_quartet_index_binary(t);
}

} // verus!
