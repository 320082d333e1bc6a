use vstd::prelude::*;

verus! {

/// n choose 2, that is n(n-1)/2 (0 for n < 2).
pub open spec fn choose2(n: int) -> int {
    if n < 2 {
        0
    } else {
        n * (n - 1) / 2
    }
}

/// n! (1 for n <= 0).
pub open spec fn fact(n: int) -> int
    decreases n,
{
    if n <= 0 {
        1
    } else {
        n * fact(n - 1)
    }
}

/// Splitting a set in two: its pairs are those of each part plus those across.
pub proof fn lemma_choose2_add(a: int, b: int)
    requires
        a >= 0,
        b >= 0,
    ensures
        choose2(a + b) == choose2(a) + choose2(b) + a * b,
{
    lemma_choose2_double(a);
    lemma_choose2_double(b);
    lemma_choose2_double(a + b);
    assert((a + b) * (a + b - 1) == a * (a - 1) + b * (b - 1) + 2 * (a * b)) by (nonlinear_arith);
}

/// Twice n choose 2 is n(n-1).
pub proof fn lemma_choose2_double(n: int)
    requires
        n >= 0,
    ensures
        2 * choose2(n) == n * (n - 1),
    decreases n,
{
    if n >= 2 {
        lemma_choose2_double(n - 1);
        if n - 1 >= 2 {
            assert(n * (n - 1) == (n - 1) * (n - 2) + 2 * (n - 1)) by (nonlinear_arith);
            assert(n * (n - 1) / 2 == (n - 1) * (n - 2) / 2 + (n - 1));
        } else {
            assert(n == 2);
        }
    } else if n == 1 {
        assert(n * (n - 1) == 0) by (nonlinear_arith)
            requires
                n == 1,
        ;
    }
}

pub proof fn lemma_choose2_two()
    ensures
        choose2(2) == 1,
{
}

pub proof fn lemma_fact_pos(n: int)
    ensures
        fact(n) >= 1,
    decreases n,
{
    if n > 0 {
        lemma_fact_pos(n - 1);
        assert(n * fact(n - 1) >= 1) by (nonlinear_arith)
            requires
                n >= 1,
                fact(n - 1) >= 1,
        ;
    }
}

/// Factorials grow: m! <= n! for m <= n.
pub proof fn lemma_fact_monotone(m: int, n: int)
    requires
        0 <= m <= n,
    ensures
        fact(m) <= fact(n),
    decreases n - m,
{
    if m < n {
        lemma_fact_monotone(m, n - 1);
        lemma_fact_pos(n - 1);
        assert(fact(n - 1) <= n * fact(n - 1)) by (nonlinear_arith)
            requires
                n >= 1,
                fact(n - 1) >= 1,
        ;
    }
}

/// n choose 2, computed exactly.
pub fn binom2(n: u32) -> (r: u32)
    requires
        choose2(n as int) <= u32::MAX,
    ensures
        r == choose2(n as int),
{
    if n < 2 {
        0
    } else {
        let m: u64 = n as u64;
        assert(m * (m - 1) <= 0xffff_ffff_ffff_ffff) by (nonlinear_arith)
            requires
                m <= 0xffff_ffff,
        ;
        let p: u64 = m * (m - 1) / 2;
        p as u32
    }
}

/// n!, computed exactly.
pub fn factorial(n: u32) -> (r: u32)
    requires
        fact(n as int) <= u32::MAX,
    ensures
        r == fact(n as int),
{
    let mut acc: u32 = 1;
    let mut i: u32 = 0;
    while i < n
        invariant
            i <= n,
            acc == fact(i as int),
            fact(n as int) <= u32::MAX,
        decreases n - i,
    {
        proof {
            lemma_fact_monotone(i + 1, n as int);
            assert(fact(i + 1) == (i + 1) * fact(i as int));
        }
        i = i + 1;
        acc = acc * i;
    }
    acc
}

} // verus!
