//! Similarity metrics between two sparse rating vectors: cosine, extended
//! Jaccard and Pearson correlation, as fixed-point integers in millionths.
use crate::sparse::{
    covariance, covariance_seq, dot, dot_seq, is_root, isqrt, lemma_cauchy_schwarz,
    lemma_dot_bound_small, lemma_dot_self_nonneg, lemma_dot_symmetric, lemma_isqrt_square,
    lemma_quadratic_nonneg, lemma_sorted_len, scaled, scaled_by_ratio, sqrt_floor, Rating, SparseVector,
    INDEX_SPACE,
};
use vstd::arithmetic::div_mod::{lemma_div_by_multiple, lemma_div_is_ordered};
use vstd::prelude::*;

verus! {

/// A similarity of exactly one, in millionths.
pub const SIM_ONE: i64 = 1_000_000;

/// Division of `x` by a positive `d`, rounded toward zero.
pub open spec fn trunc_div(x: int, d: int) -> int {
    if x >= 0 {
        x / d
    } else {
        -((-x) / d)
    }
}

/// Up to this product of squared norms (2^87), the cosine's denominator
/// `|a| |b|` is taken in millionths, as the square root of
/// `dot(a,a) * dot(b,b) * 10^12` rounded down; above it, in whole units.
pub const FINE_ROOT_LIMIT: u128 = 0x80_0000_0000_0000_0000_0000;

/// Cosine similarity `dot(a,b) / (|a| |b|)` in millionths, rounded toward
/// zero; zero when either vector has norm zero. The norm product `|a| |b|`
/// is rounded down to a millionth (to a unit for products of squared norms
/// above `FINE_ROOT_LIMIT`), so the result may exceed the exact cosine by
/// a few millionths when the norms are small.
pub open spec fn cosine_seq(a: Seq<(u32, Rating)>, b: Seq<(u32, Rating)>) -> int {
    let n = dot_seq(a, a) * dot_seq(b, b);
    if n <= 0 {
        0
    } else if n <= FINE_ROOT_LIMIT {
        trunc_div(
            dot_seq(a, b) * SIM_ONE * SIM_ONE,
            isqrt((n * SIM_ONE * SIM_ONE) as nat) as int,
        )
    } else {
        trunc_div(dot_seq(a, b) * SIM_ONE, isqrt(n as nat) as int)
    }
}

/// Extended Jaccard similarity `dot(a,b) / (dot(a,a) + dot(b,b) - dot(a,b))`
/// in millionths; zero when the denominator is zero.
pub open spec fn jaccard_seq(a: Seq<(u32, Rating)>, b: Seq<(u32, Rating)>) -> int {
    let d = dot_seq(a, b);
    let den = dot_seq(a, a) + dot_seq(b, b) - d;
    if den > 0 {
        trunc_div(d * SIM_ONE, den)
    } else {
        0
    }
}

/// Limits `x` to the range of a correlation, `[-1, 1]` in millionths.
pub open spec fn clamp_unit(x: int) -> int {
    if x > SIM_ONE {
        SIM_ONE as int
    } else if x < -SIM_ONE {
        -SIM_ONE
    } else {
        x
    }
}

/// Square root of `caa * cbb`, rounded down; when the product does not fit
/// in 128 bits, the product of the two rounded square roots.
pub open spec fn pearson_root(caa: int, cbb: int) -> int {
    if caa * cbb <= u128::MAX {
        isqrt((caa * cbb) as nat) as int
    } else {
        (isqrt(caa as nat) * isqrt(cbb as nat)) as int
    }
}

/// Pearson correlation of `a` and `b` seen as `n`-dimensional vectors, in
/// millionths and limited to `[-1, 1]`; zero when either has no variance.
pub open spec fn pearson_seq(a: Seq<(u32, Rating)>, b: Seq<(u32, Rating)>, n: int) -> int {
    let caa = covariance_seq(a, a, n);
    let cbb = covariance_seq(b, b, n);
    if caa > 0 && cbb > 0 {
        clamp_unit(trunc_div(covariance_seq(a, b, n) * SIM_ONE, pearson_root(caa, cbb)))
    } else {
        0
    }
}

/// The similarity metrics a recommender can be built with.
#[derive(Clone, Copy, Debug, PartialEq, Eq, Structural)]
pub enum Metric {
    Cosine,
    Jaccard,
    Pearson,
}

/// The similarity that `m` gives two vectors over a space of `n` dimensions.
pub open spec fn metric_seq(m: Metric, a: Seq<(u32, Rating)>, b: Seq<(u32, Rating)>, n: int) -> int {
    match m {
        Metric::Cosine => cosine_seq(a, b),
        Metric::Jaccard => jaccard_seq(a, b),
        Metric::Pearson => pearson_seq(a, b, n),
    }
}

proof fn lemma_abs_le_root(d: int, n: nat, r: nat)
    requires
        d * d <= n,
        is_root(n, r),
    ensures
        -r <= d <= r,
{
    if d > r {
        assert(d * d >= (r + 1) * (r + 1)) by (nonlinear_arith)
            requires
                d >= r + 1,
                r >= 0,
        ;
    } else if d < -r {
        assert(d * d >= (r + 1) * (r + 1)) by (nonlinear_arith)
            requires
                -d >= r + 1,
                r >= 0,
        ;
    }
}

proof fn lemma_trunc_div_unit(d: int, r: int)
    requires
        r > 0,
        -r <= d <= r,
    ensures
        -SIM_ONE <= trunc_div(d * SIM_ONE, r) <= SIM_ONE,
{
    let s = SIM_ONE as int;
    if d >= 0 {
        assert(0 <= d * s <= r * s) by (nonlinear_arith)
            requires
                0 <= d <= r,
                s > 0,
        ;
        lemma_div_is_ordered(d * s, s * r, r);
        lemma_div_by_multiple(s, r);
        assert(s * r == r * s) by (nonlinear_arith);
        assert(0 <= (d * s) / r) by (nonlinear_arith)
            requires
                d * s >= 0,
                r > 0,
        ;
    } else {
        assert(0 < -(d * s) <= r * s) by (nonlinear_arith)
            requires
                -r <= d < 0,
                s > 0,
        ;
        lemma_div_is_ordered(-(d * s), s * r, r);
        lemma_div_by_multiple(s, r);
        assert(s * r == r * s) by (nonlinear_arith);
        assert(0 <= (-(d * s)) / r) by (nonlinear_arith)
            requires
                -(d * s) >= 0,
                r > 0,
        ;
    }
}

/// Divides `x` by a positive `d`, rounding toward zero.
pub fn div_toward_zero(x: i128, d: i128) -> (r: i128)
    requires
        d > 0,
        x > i128::MIN,
    ensures
        r == trunc_div(x as int, d as int),
{
    if x >= 0 {
        ((x as u128) / (d as u128)) as i128
    } else {
        -((((-x) as u128) / (d as u128)) as i128)
    }
}

/// Computes the cosine similarity between two sparse vectors, in millionths.
/// It returns 0 if one of the vectors has null norm.
pub fn cosine(a: &SparseVector, b: &SparseVector) -> (r: i64)
    requires
        a.wf(),
        b.wf(),
    ensures
        r == cosine_seq(a.seq(), b.seq()),
        -SIM_ONE <= r <= SIM_ONE,
{
    let aa = dot(a, a);
    let bb = dot(b, b);
    let ab = dot(a, b);
    proof {
        lemma_sorted_len(a.seq());
        lemma_sorted_len(b.seq());
        lemma_dot_bound_small(a.seq(), a.seq());
        lemma_dot_bound_small(b.seq(), b.seq());
        lemma_dot_bound_small(a.seq(), b.seq());
        lemma_dot_self_nonneg(a.seq());
        lemma_dot_self_nonneg(b.seq());
        let x = aa as int;
        let y = bb as int;
        assert(0 <= x * y <= 0x4000_0000_0000_0000 * 0x4000_0000_0000_0000) by (nonlinear_arith)
            requires
                0 <= x <= 0x4000_0000_0000_0000,
                0 <= y <= 0x4000_0000_0000_0000,
        ;
    }
    let n = (aa as u128) * (bb as u128);
    if n > 0 && n <= FINE_ROOT_LIMIT {
        let scaled_n = n * 1_000_000_000_000u128;
        let root = sqrt_floor(scaled_n);
        assert(-0x4000_0000_0000_0000 <= ab <= 0x4000_0000_0000_0000);
        let dd = ab * 1_000_000i128;
        proof {
            let s = SIM_ONE as int;
            let ni = n as int;
            let di = ab as int;
            assert(scaled_n == ni * s * s);
            assert(scaled_n > 0) by (nonlinear_arith)
                requires
                    scaled_n == ni * s * s,
                    ni > 0,
                    s > 0,
            ;
            crate::sparse::lemma_isqrt_pos(scaled_n as nat);
            lemma_cauchy_schwarz(a.seq(), b.seq());
            assert((di * s) * (di * s) <= ni * s * s) by (nonlinear_arith)
                requires
                    di * di <= ni,
                    s > 0,
            ;
            lemma_abs_le_root(di * s, scaled_n as nat, root as nat);
            lemma_trunc_div_unit(di * s, root as int);
        }
        let q = div_toward_zero(dd * 1_000_000i128, root as i128);
        q as i64
    } else if n > 0 {
        let root = sqrt_floor(n);
        proof {
            crate::sparse::lemma_isqrt_pos(n as nat);
            lemma_cauchy_schwarz(a.seq(), b.seq());
            lemma_abs_le_root(ab as int, n as nat, root as nat);
            lemma_trunc_div_unit(ab as int, root as int);
        }
        let q = div_toward_zero(ab * (SIM_ONE as i128), root as i128);
        q as i64
    } else {
        0
    }
}

/// Computes the extended Jaccard similarity between two sparse vectors, in
/// millionths. It returns 0 when the denominator is zero.
pub fn jaccard(a: &SparseVector, b: &SparseVector) -> (r: i64)
    requires
        a.wf(),
        b.wf(),
    ensures
        r == jaccard_seq(a.seq(), b.seq()),
        -SIM_ONE <= r <= SIM_ONE,
{
    let aa = dot(a, a);
    let bb = dot(b, b);
    let ab = dot(a, b);
    proof {
        lemma_sorted_len(a.seq());
        lemma_sorted_len(b.seq());
        lemma_dot_bound_small(a.seq(), a.seq());
        lemma_dot_bound_small(b.seq(), b.seq());
        lemma_dot_bound_small(a.seq(), b.seq());
        lemma_dot_self_nonneg(a.seq());
        lemma_dot_self_nonneg(b.seq());
        lemma_quadratic_nonneg(a.seq(), b.seq(), 1, 1);
        assert(1 * 1 * dot_seq(a.seq(), a.seq()) == aa);
        assert(2 * 1 * 1 * dot_seq(a.seq(), b.seq()) == 2 * ab);
        assert(1 * 1 * dot_seq(b.seq(), b.seq()) == bb);
    }
    let den = aa + bb - ab;
    if den > 0 {
        proof {
            lemma_trunc_div_unit(ab as int, den as int);
        }
        let q = div_toward_zero(ab * (SIM_ONE as i128), den);
        q as i64
    } else {
        0
    }
}

proof fn lemma_root_small(x: int, r: nat)
    requires
        0 <= x <= 0x8000_0000_0000_0000_0000_0000int,
        r * r <= x,
    ensures
        r <= 0x1_0000_0000_0000,
{
    if r > 0x1_0000_0000_0000 {
        assert(r * r > 0x1_0000_0000_0000 * 0x1_0000_0000_0000) by (nonlinear_arith)
            requires
                r > 0x1_0000_0000_0000,
        ;
    }
}

/// Computes the Pearson correlation between two sparse vectors seen as
/// `n`-dimensional vectors, in millionths. It returns 0 when either vector
/// has no variance.
pub fn pearson(a: &SparseVector, b: &SparseVector, n: usize) -> (r: i64)
    requires
        a.wf(),
        b.wf(),
        n <= INDEX_SPACE,
    ensures
        r == pearson_seq(a.seq(), b.seq(), n as int),
        -SIM_ONE <= r <= SIM_ONE,
{
    let caa = covariance(a, a, n);
    let cbb = covariance(b, b, n);
    let cab = covariance(a, b, n);
    if caa > 0 && cbb > 0 {
        let ghost p = caa * cbb;
        assert(p >= 1) by (nonlinear_arith)
            requires
                caa >= 1,
                cbb >= 1,
                p == caa * cbb,
        ;
        let root: u128;
        if let Some(prod) = (caa as u128).checked_mul(cbb as u128) {
            root = sqrt_floor(prod);
            proof {
                assert(prod as int == p);
                crate::sparse::lemma_isqrt_pos(prod as nat);
                assert(root > 0);
            }
        } else {
            let ra = sqrt_floor(caa as u128);
            let rb = sqrt_floor(cbb as u128);
            proof {
                crate::sparse::lemma_isqrt_pos(caa as nat);
                crate::sparse::lemma_isqrt_pos(cbb as nat);
                lemma_root_small(caa as int, ra as nat);
                lemma_root_small(cbb as int, rb as nat);
                assert(0 < ra * rb <= 0x1_0000_0000_0000 * 0x1_0000_0000_0000) by (nonlinear_arith)
                    requires
                        0 < ra <= 0x1_0000_0000_0000,
                        0 < rb <= 0x1_0000_0000_0000,
                ;
            }
            root = ra * rb;
            assert(root > 0);
        }
        assert(0 < root <= 0x1_0000_0000_0000_0000_0000_0000int);
        assert(root as int == pearson_root(caa as int, cbb as int));
        assert(-0x8000_0000_0000_0000_0000_0000_0000_0000 < cab * 1_000_000 < 0x8000_0000_0000_0000_0000_0000_0000_0000);
        let q = div_toward_zero(cab * (SIM_ONE as i128), root as i128);
        if q > SIM_ONE as i128 {
            SIM_ONE
        } else if q < -(SIM_ONE as i128) {
            -SIM_ONE
        } else {
            q as i64
        }
    } else {
        0
    }
}

/// Computes the similarity that `m` gives two vectors over a space of `n`
/// dimensions.
pub fn similarity(m: Metric, a: &SparseVector, b: &SparseVector, n: usize) -> (r: i64)
    requires
        a.wf(),
        b.wf(),
        n <= INDEX_SPACE,
    ensures
        r == metric_seq(m, a.seq(), b.seq(), n as int),
        -SIM_ONE <= r <= SIM_ONE,
{
    match m {
        Metric::Cosine => cosine(a, b),
        Metric::Jaccard => jaccard(a, b),
        Metric::Pearson => pearson(a, b, n),
    }
}

/// Cosine similarity is symmetric.
pub proof fn lemma_cosine_symmetric(a: Seq<(u32, Rating)>, b: Seq<(u32, Rating)>)
    ensures
        cosine_seq(a, b) == cosine_seq(b, a),
{
    lemma_dot_symmetric(a, b);
    assert(dot_seq(a, a) * dot_seq(b, b) == dot_seq(b, b) * dot_seq(a, a)) by (nonlinear_arith);
}

/// Every metric is symmetric in its two vectors.
pub proof fn lemma_metric_symmetric(
    m: Metric,
    a: Seq<(u32, Rating)>,
    b: Seq<(u32, Rating)>,
    n: int,
)
    ensures
        metric_seq(m, a, b, n) == metric_seq(m, b, a, n),
{
    lemma_dot_symmetric(a, b);
    match m {
        Metric::Cosine => lemma_cosine_symmetric(a, b),
        Metric::Jaccard => {},
        Metric::Pearson => {
            let caa = covariance_seq(a, a, n);
            let cbb = covariance_seq(b, b, n);
            let sa = crate::sparse::sum_seq(a);
            let sb = crate::sparse::sum_seq(b);
            assert(sa * sb == sb * sa) by (nonlinear_arith);
            assert(covariance_seq(a, b, n) == covariance_seq(b, a, n));
            assert(caa * cbb == cbb * caa) by (nonlinear_arith);
            assert(isqrt(caa as nat) * isqrt(cbb as nat) == isqrt(cbb as nat) * isqrt(caa as nat))
                by (nonlinear_arith);
            assert(pearson_root(caa, cbb) == pearson_root(cbb, caa));
        },
    }
}

/// Cosine similarity with the empty vector is zero.
pub proof fn lemma_cosine_empty(a: Seq<(u32, Rating)>, b: Seq<(u32, Rating)>)
    requires
        b.len() == 0,
    ensures
        cosine_seq(a, b) == 0,
        cosine_seq(b, a) == 0,
{
    assert(dot_seq(b, b) == 0);
    assert(dot_seq(a, a) * dot_seq(b, b) == 0);
    assert(dot_seq(b, b) * dot_seq(a, a) == 0);
}

/// Vectors whose squared dot product equals the product of their squared
/// norms, with a non-zero dot product (parallel vectors), have cosine one,
/// or minus one when the dot product is negative.
pub proof fn lemma_cosine_parallel(a: Seq<(u32, Rating)>, b: Seq<(u32, Rating)>)
    requires
        dot_seq(a, a) * dot_seq(b, b) == dot_seq(a, b) * dot_seq(a, b),
        dot_seq(a, b) != 0,
    ensures
        cosine_seq(a, b) == (if dot_seq(a, b) > 0 {
            SIM_ONE as int
        } else {
            -SIM_ONE
        }),
{
    let d = dot_seq(a, b);
    let n = dot_seq(a, a) * dot_seq(b, b);
    let s = SIM_ONE as int;
    let m = if d > 0 {
        d
    } else {
        -d
    };
    assert(n == m * m) by (nonlinear_arith)
        requires
            n == d * d,
            m == d || m == -d,
    ;
    assert(n > 0) by (nonlinear_arith)
        requires
            n == m * m,
            m > 0,
    ;
    if n <= FINE_ROOT_LIMIT {
        let r = m * s;
        assert(n * s * s == r * r) by (nonlinear_arith)
            requires
                n == m * m,
                r == m * s,
        ;
        assert(r > 0) by (nonlinear_arith)
            requires
                r == m * s,
                m > 0,
                s > 0,
        ;
        lemma_isqrt_square(r as nat);
        lemma_div_by_multiple(s, r);
        if d > 0 {
            assert(d * s * s == s * r) by (nonlinear_arith)
                requires
                    r == d * s,
            ;
            assert(d * s * s >= 0) by (nonlinear_arith)
                requires
                    d > 0,
                    s > 0,
            ;
        } else {
            assert(-(d * s * s) == s * r) by (nonlinear_arith)
                requires
                    r == -d * s,
            ;
            assert(d * s * s < 0) by (nonlinear_arith)
                requires
                    d < 0,
                    s > 0,
            ;
        }
    } else {
        lemma_isqrt_square(m as nat);
        lemma_div_by_multiple(s, m);
        if d > 0 {
            assert(d * s == s * m) by (nonlinear_arith)
                requires
                    m == d,
            ;
            assert(d * s >= 0) by (nonlinear_arith)
                requires
                    d > 0,
                    s > 0,
            ;
        } else {
            assert(-(d * s) == s * m) by (nonlinear_arith)
                requires
                    m == -d,
            ;
            assert(d * s < 0) by (nonlinear_arith)
                requires
                    d < 0,
                    s > 0,
            ;
        }
    }
}

/// Cosine similarity of a non-zero vector with `(c / d)` times itself is one
/// when the factor is positive and minus one when it is negative.
pub proof fn lemma_cosine_ratio(a: Seq<(u32, Rating)>, b: Seq<(u32, Rating)>, c: int, d: int)
    requires
        scaled_by_ratio(a, b, c, d),
        c != 0,
        d != 0,
        dot_seq(a, a) > 0,
    ensures
        cosine_seq(a, b) == (if c * d > 0 {
            SIM_ONE as int
        } else {
            -SIM_ONE
        }),
{
    crate::sparse::lemma_dot_ratio(a, b, c, d);
    let x = dot_seq(a, a);
    let y = dot_seq(b, b);
    let p = dot_seq(a, b);
    assert(d * d * (x * y) == d * d * (p * p)) by (nonlinear_arith)
        requires
            d * p == c * x,
            d * d * y == c * c * x,
    ;
    assert(x * y == p * p) by (nonlinear_arith)
        requires
            d * d * (x * y) == d * d * (p * p),
            d != 0,
    ;
    assert(p != 0 && (p > 0) == (c * d > 0)) by (nonlinear_arith)
        requires
            d * p == c * x,
            x > 0,
            c != 0,
            d != 0,
    ;
    lemma_cosine_parallel(a, b);
}

/// Cosine similarity of a non-zero vector with a multiple `c * a` of itself
/// is one when `c` is positive and minus one when `c` is negative; in
/// particular a non-zero vector has similarity one with itself and minus one
/// with its negation.
pub proof fn lemma_cosine_scaled(a: Seq<(u32, Rating)>, b: Seq<(u32, Rating)>, c: int)
    requires
        scaled(a, b, c),
        c != 0,
        dot_seq(a, a) > 0,
    ensures
        cosine_seq(a, b) == (if c > 0 {
            SIM_ONE as int
        } else {
            -SIM_ONE
        }),
{
    assert(scaled_by_ratio(a, b, c, 1));
    lemma_cosine_ratio(a, b, c, 1);
}

/// Cosine similarity of a non-zero vector with itself is one.
pub proof fn lemma_cosine_self(a: Seq<(u32, Rating)>)
    requires
        dot_seq(a, a) > 0,
    ensures
        cosine_seq(a, a) == SIM_ONE,
{
    assert(scaled(a, a, 1));
    lemma_cosine_scaled(a, a, 1);
}

/// Cosine similarity of two orthogonal vectors is zero.
pub proof fn lemma_cosine_orthogonal(a: Seq<(u32, Rating)>, b: Seq<(u32, Rating)>)
    requires
        dot_seq(a, b) == 0,
    ensures
        cosine_seq(a, b) == 0,
{
    let n = dot_seq(a, a) * dot_seq(b, b);
    if n > 0 && n <= FINE_ROOT_LIMIT {
        let s = SIM_ONE as int;
        assert(n * s * s > 0) by (nonlinear_arith)
            requires
                n > 0,
                s > 0,
        ;
        crate::sparse::lemma_isqrt_pos((n * s * s) as nat);
        let r = isqrt((n * s * s) as nat) as int;
        assert(0int * s * s == 0);
        assert(0int / r == 0) by (nonlinear_arith)
            requires
                r > 0,
        ;
    } else if n > 0 {
        crate::sparse::lemma_isqrt_pos(n as nat);
        let r = isqrt(n as nat) as int;
        assert(0int * SIM_ONE == 0);
        assert(0int / r == 0) by (nonlinear_arith)
            requires
                r > 0,
        ;
    }
}

} // verus!
