//! Squared Euclidean distance over fixed-point coordinate vectors.
//!
//! The mathematical model is `sqd`: the sum of squared per-coordinate
//! differences, as unbounded integers. The executable computation carries
//! the sum in a `u128`, which is proved wide enough for every pair of
//! `i32` vectors whose length fits in a machine word.

use vstd::prelude::*;

verus! {

/// The smaller of two integers.
pub open spec fn min_int(a: int, b: int) -> int {
    if a < b {
        a
    } else {
        b
    }
}

/// The square of an integer.
pub open spec fn sq(x: int) -> int {
    x * x
}

/// Sum of squared differences over the first `n` coordinates.
pub open spec fn sqd_prefix(a: Seq<i32>, b: Seq<i32>, n: int) -> int
    decreases n,
{
    if n <= 0 {
        0
    } else {
        sqd_prefix(a, b, n - 1) + sq(a[n - 1] - b[n - 1])
    }
}

/// Squared Euclidean distance between `a` and `b`, summed over the
/// coordinates of `a`.
pub open spec fn sqd(a: Seq<i32>, b: Seq<i32>) -> int {
    sqd_prefix(a, b, a.len() as int)
}

pub proof fn lemma_sq_nonneg(x: int)
    ensures
        sq(x) >= 0,
{
    assert(x * x >= 0) by (nonlinear_arith);
}

/// Squares of differences of `i32` values are below `2^64`.
pub proof fn lemma_sq_diff_bound(x: int)
    requires
        -0xffff_ffff <= x <= 0xffff_ffff,
    ensures
        sq(x) <= 18446744065119617025,
{
    assert(x * x <= 18446744065119617025) by (nonlinear_arith)
        requires
            -0xffff_ffff <= x <= 0xffff_ffff,
    ;
}

pub proof fn lemma_sqd_prefix_nonneg(a: Seq<i32>, b: Seq<i32>, n: int)
    ensures
        sqd_prefix(a, b, n) >= 0,
    decreases n,
{
    if n > 0 {
        lemma_sqd_prefix_nonneg(a, b, n - 1);
        lemma_sq_nonneg(a[n - 1] - b[n - 1]);
    }
}

/// The whole sum is at least any single term: distances can be bounded
/// from below by one coordinate, which justifies subtree pruning.
pub proof fn lemma_sqd_prefix_term(a: Seq<i32>, b: Seq<i32>, i: int, n: int)
    requires
        0 <= i < n,
    ensures
        sqd_prefix(a, b, n) >= sq(a[i] - b[i]),
    decreases n,
{
    if i == n - 1 {
        lemma_sqd_prefix_nonneg(a, b, n - 1);
    } else {
        lemma_sqd_prefix_term(a, b, i, n - 1);
        lemma_sq_nonneg(a[n - 1] - b[n - 1]);
    }
}

pub proof fn lemma_sqd_prefix_upper(a: Seq<i32>, b: Seq<i32>, n: int)
    requires
        n >= 0,
    ensures
        sqd_prefix(a, b, n) <= n * 18446744065119617025,
    decreases n,
{
    if n > 0 {
        lemma_sqd_prefix_upper(a, b, n - 1);
        lemma_sq_diff_bound(a[n - 1] - b[n - 1]);
    }
}

/// Moving the second point away from the first, along a line, does not
/// shrink the squared gap: with `s` between `t` and `c`, the gap to `c`
/// is at least the gap to `s`.
pub proof fn lemma_sq_between(t: int, s: int, c: int)
    requires
        (t <= s && s <= c) || (c <= s && s <= t),
    ensures
        sq(t - c) >= sq(t - s),
{
    assert((t - c) * (t - c) >= (t - s) * (t - s)) by (nonlinear_arith)
        requires
            (t <= s && s <= c) || (c <= s && s <= t),
    ;
}

/// Squared distance between two vectors of equal dimension.
pub fn sq_dist(a: &Vec<i32>, b: &Vec<i32>) -> (r: u128)
    requires
        a@.len() == b@.len(),
    ensures
        r as int == sqd(a@, b@),
{
    let n = a.len();
    let mut acc: u128 = 0;
    let mut i: usize = 0;
    while i < n
        invariant
            n == a@.len(),
            a@.len() == b@.len(),
            i <= n,
            acc as int == sqd_prefix(a@, b@, i as int),
        decreases n - i,
    {
        let d: i128 = a[i] as i128 - b[i] as i128;
        proof {
            lemma_sq_diff_bound(d as int);
            lemma_sq_nonneg(d as int);
            lemma_sqd_prefix_nonneg(a@, b@, i as int);
            lemma_sqd_prefix_upper(a@, b@, i as int);
            assert((i as int) * 18446744065119617025 <= 18446744073709551615i128
                * 18446744065119617025);
        }
        let term: i128 = d * d;
        acc = acc + (term as u128);
        i = i + 1;
    }
    acc
}

/// Squared gap between two single coordinates.
pub fn plane_sq(a: i32, b: i32) -> (r: u128)
    ensures
        r as int == sq(a as int - b as int),
{
    let d: i128 = a as i128 - b as i128;
    proof {
        lemma_sq_nonneg(d as int);
        lemma_sq_diff_bound(d as int);
    }
    (d * d) as u128
}

} // verus!
