//! Sparse vectors of ratings: sorted lists of `(index, value)` pairs, with
//! the dot product, norm, sum and covariance used by the similarity metrics.
use vstd::prelude::*;

verus! {

/// A rating: a 16-bit integer in units chosen by the caller (ratings read
/// from text are in hundredths, so from -327.68 to 327.67). The width keeps
/// the product of two squared norms, which the cosine takes the root of,
/// within 128 bits for vectors of up to 2^32 entries.
pub type Rating = i16;

/// Number of distinct `u32` indices.
pub const INDEX_SPACE: u64 = 0x1_0000_0000;

/// Indices strictly increasing along the sequence.
pub open spec fn keys_sorted(s: Seq<(u32, Rating)>) -> bool {
    forall|i: int, j: int| 0 <= i < j < s.len() ==> s[i].0 < s[j].0
}

pub open spec fn has_key(s: Seq<(u32, Rating)>, k: u32) -> bool {
    exists|i: int| 0 <= i < s.len() && s[i].0 == k
}

pub open spec fn value_of(s: Seq<(u32, Rating)>, k: u32) -> Rating {
    s[choose|i: int| 0 <= i < s.len() && s[i].0 == k].1
}

/// The mapping from index to value that a list of entries describes.
pub open spec fn to_map(s: Seq<(u32, Rating)>) -> Map<u32, Rating> {
    Map::new(|k: u32| has_key(s, k), |k: u32| value_of(s, k))
}

/// Dot product of two sorted entry lists: the sum of `a[k] * b[k]` over the
/// indices `k` present in both.
pub open spec fn dot_seq(a: Seq<(u32, Rating)>, b: Seq<(u32, Rating)>) -> int
    decreases a.len() + b.len(),
{
    if a.len() == 0 || b.len() == 0 {
        0
    } else if a[0].0 < b[0].0 {
        dot_seq(a.drop_first(), b)
    } else if b[0].0 < a[0].0 {
        dot_seq(a, b.drop_first())
    } else {
        a[0].1 * b[0].1 + dot_seq(a.drop_first(), b.drop_first())
    }
}

/// Sum of the values of an entry list.
pub open spec fn sum_seq(a: Seq<(u32, Rating)>) -> int
    decreases a.len(),
{
    if a.len() == 0 {
        0
    } else {
        a[0].1 + sum_seq(a.drop_first())
    }
}

/// `n` times the covariance of `a` and `b` seen as `n`-dimensional vectors,
/// times `n` again: `n * dot(a, b) - sum(a) * sum(b)`.
pub open spec fn covariance_seq(a: Seq<(u32, Rating)>, b: Seq<(u32, Rating)>, n: int) -> int {
    n * dot_seq(a, b) - sum_seq(a) * sum_seq(b)
}

/// `b` has the indices of `a`, each value multiplied by `c`.
pub open spec fn scaled(a: Seq<(u32, Rating)>, b: Seq<(u32, Rating)>, c: int) -> bool {
    a.len() == b.len() && forall|i: int| 0 <= i < a.len() ==> b[i].0 == a[i].0 && b[i].1 == c
        * a[i].1
}

/// `r` is the largest integer whose square does not exceed `x`.
pub open spec fn is_root(x: nat, r: nat) -> bool {
    r * r <= x < (r + 1) * (r + 1)
}

/// Largest integer whose square does not exceed `x`.
pub open spec fn isqrt(x: nat) -> nat {
    choose|r: nat| is_root(x, r)
}

proof fn lemma_square_monotone(a: nat, b: nat)
    requires
        a <= b,
    ensures
        a * a <= b * b,
{
    assert(a * a <= b * b) by (nonlinear_arith)
        requires
            a <= b,
    ;
}

/// The integer square root is the one value that brackets `x`.
pub proof fn lemma_isqrt_unique(x: nat, r: nat)
    requires
        r * r <= x < (r + 1) * (r + 1),
    ensures
        isqrt(x) == r,
{
    assert(is_root(x, r));
    let s = isqrt(x);
    assert(s * s <= x < (s + 1) * (s + 1));
    if s < r {
        lemma_square_monotone((s + 1) as nat, r);
    } else if r < s {
        lemma_square_monotone((r + 1) as nat, s);
    }
}

/// Every natural number has an integer square root.
pub proof fn lemma_isqrt(x: nat)
    ensures
        is_root(x, isqrt(x)),
    decreases x,
{
    if x == 0 {
        assert(is_root(0, 0)) by (nonlinear_arith);
    } else {
        lemma_isqrt((x - 1) as nat);
        let r = isqrt((x - 1) as nat);
        if (r + 1) * (r + 1) <= x {
            assert((r + 2) * (r + 2) == (r + 1) * (r + 1) + 2 * r + 3) by (nonlinear_arith);
            assert(is_root(x, r + 1));
        } else {
            assert(is_root(x, r));
        }
    }
}

/// The integer square root of a positive number is positive.
pub proof fn lemma_isqrt_pos(x: nat)
    requires
        x > 0,
    ensures
        isqrt(x) > 0,
{
    lemma_isqrt(x);
    let r = isqrt(x);
    assert(r > 0) by (nonlinear_arith)
        requires
            x < (r + 1) * (r + 1),
            x > 0,
            r >= 0,
    ;
}

/// The integer square root of a perfect square.
pub proof fn lemma_isqrt_square(r: nat)
    ensures
        isqrt(r * r) == r,
{
    assert(r * r < (r + 1) * (r + 1)) by (nonlinear_arith);
    lemma_isqrt_unique(r * r, r);
}

/// A sorted list of `u32` indices has at most 2^32 entries.
pub proof fn lemma_sorted_len(s: Seq<(u32, Rating)>)
    requires
        keys_sorted(s),
    ensures
        s.len() <= INDEX_SPACE,
{
    if s.len() > 0 {
        lemma_key_at_least_index(s, s.len() - 1);
    }
}

proof fn lemma_key_at_least_index(s: Seq<(u32, Rating)>, i: int)
    requires
        keys_sorted(s),
        0 <= i < s.len(),
    ensures
        s[i].0 >= i,
    decreases i,
{
    if i > 0 {
        lemma_key_at_least_index(s, i - 1);
    }
}

/// Every product of two ratings is at most 2^30 in magnitude.
pub proof fn lemma_product_bound(x: Rating, y: Rating)
    ensures
        -0x4000_0000 <= x * y <= 0x4000_0000,
{
    assert(-0x4000_0000 <= x * y <= 0x4000_0000) by (nonlinear_arith)
        requires
            -0x8000 <= x < 0x8000,
            -0x8000 <= y < 0x8000,
    ;
}

/// The dot product grows by at most 2^30 per entry of `a`.
pub proof fn lemma_dot_bound(a: Seq<(u32, Rating)>, b: Seq<(u32, Rating)>)
    ensures
        -0x4000_0000 * a.len() <= dot_seq(a, b) <= 0x4000_0000 * a.len(),
    decreases a.len() + b.len(),
{
    if a.len() == 0 || b.len() == 0 {
    } else if a[0].0 < b[0].0 {
        lemma_dot_bound(a.drop_first(), b);
    } else if b[0].0 < a[0].0 {
        lemma_dot_bound(a, b.drop_first());
    } else {
        lemma_dot_bound(a.drop_first(), b.drop_first());
        lemma_product_bound(a[0].1, b[0].1);
    }
}

/// A dot product whose first operand has at most 2^32 entries is at most
/// 2^62 in magnitude.
pub proof fn lemma_dot_bound_small(a: Seq<(u32, Rating)>, b: Seq<(u32, Rating)>)
    requires
        a.len() <= INDEX_SPACE,
    ensures
        -0x4000_0000_0000_0000 <= dot_seq(a, b) <= 0x4000_0000_0000_0000,
{
    lemma_dot_bound(a, b);
    let n = a.len() as int;
    assert(0x4000_0000 * n <= 0x4000_0000_0000_0000) by (nonlinear_arith)
        requires
            0 <= n <= 0x1_0000_0000,
    ;
}

/// The sum grows by at most 2^15 per entry.
pub proof fn lemma_sum_bound(a: Seq<(u32, Rating)>)
    ensures
        -0x8000 * a.len() <= sum_seq(a) <= 0x8000 * a.len(),
    decreases a.len(),
{
    if a.len() > 0 {
        lemma_sum_bound(a.drop_first());
    }
}

/// The dot product does not depend on the order of its operands.
pub proof fn lemma_dot_symmetric(a: Seq<(u32, Rating)>, b: Seq<(u32, Rating)>)
    ensures
        dot_seq(a, b) == dot_seq(b, a),
    decreases a.len() + b.len(),
{
    if a.len() == 0 || b.len() == 0 {
    } else if a[0].0 < b[0].0 {
        lemma_dot_symmetric(a.drop_first(), b);
    } else if b[0].0 < a[0].0 {
        lemma_dot_symmetric(a, b.drop_first());
    } else {
        lemma_dot_symmetric(a.drop_first(), b.drop_first());
        assert(a[0].1 * b[0].1 == b[0].1 * a[0].1) by (nonlinear_arith);
    }
}

/// `b` has the indices of `a`, each value `c / d` times the value in `a`.
pub open spec fn scaled_by_ratio(a: Seq<(u32, Rating)>, b: Seq<(u32, Rating)>, c: int, d: int) -> bool {
    a.len() == b.len() && forall|i: int|
        0 <= i < a.len() ==> b[i].0 == a[i].0 && d * b[i].1 == c * a[i].1
}

/// When `b` is `a` scaled by `c / d`, `d * dot(a, b)` is `c * dot(a, a)` and
/// `d * d * dot(b, b)` is `c * c * dot(a, a)`.
pub proof fn lemma_dot_ratio(a: Seq<(u32, Rating)>, b: Seq<(u32, Rating)>, c: int, d: int)
    requires
        scaled_by_ratio(a, b, c, d),
    ensures
        d * dot_seq(a, b) == c * dot_seq(a, a),
        d * d * dot_seq(b, b) == c * c * dot_seq(a, a),
    decreases a.len(),
{
    if a.len() > 0 {
        let a1 = a.drop_first();
        let b1 = b.drop_first();
        assert(scaled_by_ratio(a1, b1, c, d)) by {
            assert forall|i: int| 0 <= i < a1.len() implies b1[i].0 == a1[i].0 && d * b1[i].1 == c
                * a1[i].1 by {
                assert(a1[i] == a[i + 1]);
                assert(b1[i] == b[i + 1]);
            }
        }
        lemma_dot_ratio(a1, b1, c, d);
        let x = a[0].1 as int;
        let y = b[0].1 as int;
        let ab = dot_seq(a1, b1);
        let aa = dot_seq(a1, a1);
        let bb = dot_seq(b1, b1);
        assert(d * (x * y + ab) == c * (x * x + aa)) by (nonlinear_arith)
            requires
                d * y == c * x,
                d * ab == c * aa,
        ;
        assert(d * d * (y * y + bb) == c * c * (x * x + aa)) by (nonlinear_arith)
            requires
                d * y == c * x,
                d * d * bb == c * c * aa,
        ;
    }
}

/// When `b` is `a` scaled by `c`, `dot(a, b)` is `c * dot(a, a)` and
/// `dot(b, b)` is `c * c * dot(a, a)`.
pub proof fn lemma_dot_scaled(a: Seq<(u32, Rating)>, b: Seq<(u32, Rating)>, c: int)
    requires
        scaled(a, b, c),
    ensures
        dot_seq(a, b) == c * dot_seq(a, a),
        dot_seq(b, b) == c * c * dot_seq(a, a),
    decreases a.len(),
{
    if a.len() > 0 {
        let a1 = a.drop_first();
        let b1 = b.drop_first();
        assert(scaled(a1, b1, c)) by {
            assert forall|i: int| 0 <= i < a1.len() implies b1[i].0 == a1[i].0 && b1[i].1 == c
                * a1[i].1 by {
                assert(a1[i] == a[i + 1]);
                assert(b1[i] == b[i + 1]);
            }
        }
        lemma_dot_scaled(a1, b1, c);
        let x = a[0].1 as int;
        let d = dot_seq(a1, a1);
        assert(x * (c * x) + c * d == c * (x * x + d)) by (nonlinear_arith);
        assert((c * x) * (c * x) + c * c * d == c * c * (x * x + d)) by (nonlinear_arith);
    }
}

/// The dot product of a list with itself is never negative.
pub proof fn lemma_dot_self_nonneg(a: Seq<(u32, Rating)>)
    ensures
        dot_seq(a, a) >= 0,
    decreases a.len(),
{
    if a.len() > 0 {
        lemma_dot_self_nonneg(a.drop_first());
        let x = a[0].1 as int;
        assert(x * x >= 0) by (nonlinear_arith);
    }
}

/// `x² dot(a,a) - 2xy dot(a,b) + y² dot(b,b)` is a sum of squares.
pub proof fn lemma_quadratic_nonneg(a: Seq<(u32, Rating)>, b: Seq<(u32, Rating)>, x: int, y: int)
    ensures
        x * x * dot_seq(a, a) - 2 * x * y * dot_seq(a, b) + y * y * dot_seq(b, b) >= 0,
    decreases a.len() + b.len(),
{
    lemma_dot_self_nonneg(a);
    lemma_dot_self_nonneg(b);
    let aa = dot_seq(a, a);
    let bb = dot_seq(b, b);
    if a.len() == 0 {
        assert(y * y * bb >= 0) by (nonlinear_arith)
            requires
                bb >= 0,
        ;
    } else if b.len() == 0 {
        assert(x * x * aa >= 0) by (nonlinear_arith)
            requires
                aa >= 0,
        ;
    } else {
        let a1 = a.drop_first();
        let b1 = b.drop_first();
        let u = a[0].1 as int;
        let v = b[0].1 as int;
        assert(aa == u * u + dot_seq(a1, a1));
        assert(bb == v * v + dot_seq(b1, b1));
        if a[0].0 < b[0].0 {
            lemma_quadratic_nonneg(a1, b, x, y);
            let q = x * x * dot_seq(a1, a1) - 2 * x * y * dot_seq(a1, b) + y * y * bb;
            assert(x * x * (u * u + dot_seq(a1, a1)) == x * x * u * u + x * x * dot_seq(a1, a1))
                by (nonlinear_arith);
            assert(x * x * u * u >= 0) by (nonlinear_arith);
        } else if b[0].0 < a[0].0 {
            lemma_quadratic_nonneg(a, b1, x, y);
            assert(y * y * (v * v + dot_seq(b1, b1)) == y * y * v * v + y * y * dot_seq(b1, b1))
                by (nonlinear_arith);
            assert(y * y * v * v >= 0) by (nonlinear_arith);
        } else {
            lemma_quadratic_nonneg(a1, b1, x, y);
            let p = dot_seq(a1, a1);
            let r = dot_seq(b1, b1);
            let m = dot_seq(a1, b1);
            assert(dot_seq(a, b) == u * v + m);
            assert(x * x * (u * u + p) == x * x * u * u + x * x * p) by (nonlinear_arith);
            assert(2 * x * y * (u * v + m) == 2 * x * y * u * v + 2 * x * y * m)
                by (nonlinear_arith);
            assert(y * y * (v * v + r) == y * y * v * v + y * y * r) by (nonlinear_arith);
            let s1 = x * u;
            let s2 = y * v;
            assert((s1 - s2) * (s1 - s2) == s1 * s1 - 2 * (s1 * s2) + s2 * s2) by (nonlinear_arith);
            assert(s1 * s1 == x * x * u * u) by (nonlinear_arith)
                requires
                    s1 == x * u,
            ;
            assert(s2 * s2 == y * y * v * v) by (nonlinear_arith)
                requires
                    s2 == y * v,
            ;
            assert(2 * (s1 * s2) == 2 * x * y * u * v) by (nonlinear_arith)
                requires
                    s1 == x * u,
                    s2 == y * v,
            ;
            assert((x * u - y * v) * (x * u - y * v) >= 0) by (nonlinear_arith);
        }
    }
}

/// Cauchy-Schwarz: `dot(a,b)² <= dot(a,a) * dot(b,b)`.
pub proof fn lemma_cauchy_schwarz(a: Seq<(u32, Rating)>, b: Seq<(u32, Rating)>)
    ensures
        dot_seq(a, b) * dot_seq(a, b) <= dot_seq(a, a) * dot_seq(b, b),
{
    let aa = dot_seq(a, a);
    let bb = dot_seq(b, b);
    let d = dot_seq(a, b);
    lemma_dot_self_nonneg(a);
    lemma_dot_self_nonneg(b);
    if bb > 0 {
        lemma_quadratic_nonneg(a, b, bb, d);
        assert(d * d <= aa * bb) by (nonlinear_arith)
            requires
                bb * bb * aa - 2 * bb * d * d + d * d * bb >= 0,
                bb > 0,
        ;
    } else {
        let y = d * (aa + 1);
        lemma_quadratic_nonneg(a, b, 1, y);
        assert(y * y * bb == 0) by (nonlinear_arith)
            requires
                bb == 0,
        ;
        assert(d == 0) by (nonlinear_arith)
            requires
                aa - 2 * y * d >= 0,
                y == d * (aa + 1),
                aa >= 0,
        ;
    }
}

/// Entry `i` of a sorted list is in the mapping it describes.
pub proof fn lemma_map_at(s: Seq<(u32, Rating)>, i: int)
    requires
        keys_sorted(s),
        0 <= i < s.len(),
    ensures
        to_map(s).contains_key(s[i].0),
        to_map(s)[s[i].0] == s[i].1,
{
    let k = s[i].0;
    assert(has_key(s, k));
    let j = choose|j: int| 0 <= j < s.len() && s[j].0 == k;
    assert(j == i);
}

/// The mapping that inserting the pairs of `s` in order gives: a later pair
/// replaces an earlier one at the same index.
pub open spec fn map_of_pairs(s: Seq<(u32, Rating)>) -> Map<u32, Rating>
    decreases s.len(),
{
    if s.len() == 0 {
        Map::empty()
    } else {
        map_of_pairs(s.drop_last()).insert(s.last().0, s.last().1)
    }
}

/// The sorted entry list that describes `m`.
pub open spec fn entries_of(m: Map<u32, Rating>) -> Seq<(u32, Rating)> {
    choose|s: Seq<(u32, Rating)>| keys_sorted(s) && to_map(s) == m
}

proof fn lemma_to_map_tail(s: Seq<(u32, Rating)>)
    requires
        keys_sorted(s),
        s.len() > 0,
    ensures
        to_map(s.drop_first()) == to_map(s).remove(s[0].0),
{
    let t = s.drop_first();
    assert(keys_sorted(t));
    assert forall|k: u32| #[trigger] has_key(t, k) == (has_key(s, k) && k != s[0].0) by {
        if has_key(t, k) {
            let j = choose|j: int| 0 <= j < t.len() && t[j].0 == k;
            assert(s[j + 1].0 == k);
        }
        if has_key(s, k) && k != s[0].0 {
            let j = choose|j: int| 0 <= j < s.len() && s[j].0 == k;
            assert(t[j - 1].0 == k);
        }
    }
    assert forall|k: u32| #[trigger] has_key(t, k) implies to_map(t)[k] == to_map(s)[k] by {
        let j = choose|j: int| 0 <= j < t.len() && t[j].0 == k;
        lemma_map_at(t, j);
        lemma_map_at(s, j + 1);
    }
    assert(to_map(t) =~= to_map(s).remove(s[0].0));
}

/// Two sorted entry lists that describe the same mapping are equal.
pub proof fn lemma_sorted_unique(s1: Seq<(u32, Rating)>, s2: Seq<(u32, Rating)>)
    requires
        keys_sorted(s1),
        keys_sorted(s2),
        to_map(s1) == to_map(s2),
    ensures
        s1 == s2,
    decreases s1.len(),
{
    if s1.len() == 0 || s2.len() == 0 {
        if s1.len() > 0 {
            lemma_map_at(s1, 0);
        }
        if s2.len() > 0 {
            lemma_map_at(s2, 0);
        }
        assert(s1 =~= s2);
    } else {
        lemma_map_at(s1, 0);
        lemma_map_at(s2, 0);
        let k1 = s1[0].0;
        let k2 = s2[0].0;
        assert(has_key(s2, k1));
        assert(has_key(s1, k2));
        let j2 = choose|j: int| 0 <= j < s2.len() && s2[j].0 == k1;
        let j1 = choose|j: int| 0 <= j < s1.len() && s1[j].0 == k2;
        assert(k1 >= k2) by {
            if j2 > 0 {
                assert(s2[0].0 < s2[j2].0);
            }
        }
        assert(k2 >= k1) by {
            if j1 > 0 {
                assert(s1[0].0 < s1[j1].0);
            }
        }
        lemma_to_map_tail(s1);
        lemma_to_map_tail(s2);
        lemma_sorted_unique(s1.drop_first(), s2.drop_first());
        assert(s1 =~= seq![s1[0]] + s1.drop_first());
        assert(s2 =~= seq![s2[0]] + s2.drop_first());
    }
}

/// The canonical entry list of the mapping of a sorted list is that list.
pub proof fn lemma_entries_of(s: Seq<(u32, Rating)>)
    requires
        keys_sorted(s),
    ensures
        entries_of(to_map(s)) == s,
        keys_sorted(entries_of(to_map(s))),
{
    let e = entries_of(to_map(s));
    assert(keys_sorted(e) && to_map(e) == to_map(s));
    lemma_sorted_unique(e, s);
}

/// A sparse vector: values at `u32` indices, every other index holding zero.
/// The entries are kept sorted by index, each index at most once.
pub struct SparseVector {
    entries: Vec<(u32, Rating)>,
}

impl View for SparseVector {
    type V = Map<u32, Rating>;

    closed spec fn view(&self) -> Map<u32, Rating> {
        to_map(self.entries@)
    }
}

impl SparseVector {
    /// The entries, sorted by index.
    pub closed spec fn seq(&self) -> Seq<(u32, Rating)> {
        self.entries@
    }

    pub open spec fn wf(&self) -> bool {
        keys_sorted(self.seq())
    }

    pub broadcast proof fn lemma_view(&self)
        ensures
            #[trigger] self@ == to_map(self.seq()),
    {
    }

    /// The vector with no entries.
    pub fn new() -> (r: SparseVector)
        ensures
            r.wf(),
            r.seq().len() == 0,
            r@ == Map::<u32, Rating>::empty(),
    {
        let r = SparseVector { entries: Vec::new() };
        assert(to_map(r.entries@) =~= Map::<u32, Rating>::empty());
        r
    }

    /// A copy of this vector.
    pub fn duplicate(&self) -> (r: SparseVector)
        ensures
            r.seq() == self.seq(),
            r@ == self@,
    {
        let mut entries: Vec<(u32, Rating)> = Vec::new();
        let mut j: usize = 0;
        while j < self.entries.len()
            invariant
                j <= self.entries@.len(),
                entries@ == self.entries@.take(j as int),
            decreases self.entries@.len() - j,
        {
            entries.push(self.entries[j]);
            j = j + 1;
            assert(entries@ =~= self.entries@.take(j as int));
        }
        assert(entries@ =~= self.entries@);
        SparseVector { entries }
    }

    /// Builds a vector from `(index, value)` pairs; a later pair replaces an
    /// earlier one at the same index.
    pub fn from_pairs(pairs: &Vec<(u32, Rating)>) -> (r: SparseVector)
        ensures
            r.wf(),
            r@ == map_of_pairs(pairs@),
    {
        let mut r = SparseVector::new();
        let mut j: usize = 0;
        while j < pairs.len()
            invariant
                j <= pairs@.len(),
                r.wf(),
                r@ == map_of_pairs(pairs@.take(j as int)),
            decreases pairs@.len() - j,
        {
            let (k, v) = pairs[j];
            r.insert(k, v);
            assert(pairs@.take(j + 1).drop_last() =~= pairs@.take(j as int));
            j = j + 1;
        }
        assert(pairs@.take(pairs@.len() as int) =~= pairs@);
        r
    }

    /// Number of stored entries.
    pub fn len(&self) -> (r: usize)
        ensures
            r == self.seq().len(),
    {
        self.entries.len()
    }

    /// The stored entries, sorted by index.
    pub fn entries(&self) -> (r: &Vec<(u32, Rating)>)
        ensures
            r@ == self.seq(),
    {
        &self.entries
    }

    /// First position whose index is not below `k`.
    fn position(&self, k: u32) -> (r: usize)
        requires
            self.wf(),
        ensures
            r <= self.seq().len(),
            forall|i: int| 0 <= i < r ==> self.seq()[i].0 < k,
            forall|i: int| r <= i < self.seq().len() ==> self.seq()[i].0 >= k,
    {
        let mut lo: usize = 0;
        let mut hi: usize = self.entries.len();
        while lo < hi
            invariant
                lo <= hi <= self.entries@.len(),
                keys_sorted(self.entries@),
                forall|i: int| 0 <= i < lo ==> self.entries@[i].0 < k,
                forall|i: int| hi <= i < self.entries@.len() ==> self.entries@[i].0 >= k,
            decreases hi - lo,
        {
            let mid = lo + (hi - lo) / 2;
            if self.entries[mid].0 < k {
                lo = mid + 1;
            } else {
                hi = mid;
            }
        }
        lo
    }

    /// The value stored at index `k`, if any.
    pub fn get(&self, k: u32) -> (r: Option<Rating>)
        requires
            self.wf(),
        ensures
            r == (if self@.contains_key(k) {
                Some(self@[k])
            } else {
                None::<Rating>
            }),
    {
        let p = self.position(k);
        if p < self.entries.len() && self.entries[p].0 == k {
            proof {
                lemma_map_at(self.entries@, p as int);
            }
            Some(self.entries[p].1)
        } else {
            assert(!has_key(self.entries@, k));
            None
        }
    }

    /// Sets the value at index `k`, replacing any earlier one.
    pub fn insert(&mut self, k: u32, v: Rating)
        requires
            old(self).wf(),
        ensures
            final(self).wf(),
            final(self)@ == old(self)@.insert(k, v),
    {
        let p = self.position(k);
        let ghost s0 = self.entries@;
        if p < self.entries.len() && self.entries[p].0 == k {
            self.entries[p] = (k, v);
        } else {
            self.entries.insert(p, (k, v));
        }
        let ghost s1 = self.entries@;
        assert(keys_sorted(s1));
        assert forall|key: u32| #[trigger] has_key(s1, key) == (has_key(s0, key) || key == k) by {
            if has_key(s1, key) {
                let j = choose|j: int| 0 <= j < s1.len() && s1[j].0 == key;
                if key != k {
                    if j < p {
                        assert(s0[j].0 == key);
                    } else {
                        assert(s0[j - 1].0 == key || s0[j].0 == key);
                    }
                }
            }
            if has_key(s0, key) && key != k {
                let j = choose|j: int| 0 <= j < s0.len() && s0[j].0 == key;
                if j < p {
                    assert(s1[j].0 == key);
                } else if s1.len() == s0.len() {
                    assert(s1[j].0 == key);
                } else {
                    assert(s1[j + 1].0 == key);
                }
            }
            if key == k {
                assert(s1[p as int].0 == key);
            }
        }
        assert forall|key: u32| #[trigger] has_key(s1, key) implies to_map(s1)[key] == (if key
            == k {
            v
        } else {
            to_map(s0)[key]
        }) by {
            let j = choose|j: int| 0 <= j < s1.len() && s1[j].0 == key;
            lemma_map_at(s1, j);
            if key != k {
                if j < p {
                    assert(s0[j] == s1[j]);
                    lemma_map_at(s0, j);
                } else if s1.len() == s0.len() {
                    assert(s0[j] == s1[j]);
                    lemma_map_at(s0, j);
                } else {
                    assert(s0[j - 1] == s1[j]);
                    lemma_map_at(s0, j - 1);
                }
            } else {
                assert(j == p);
            }
        }
        assert(to_map(s1) =~= to_map(s0).insert(k, v));
    }

    /// Removes the value at index `k`, if there is one.
    pub fn remove(&mut self, k: u32)
        requires
            old(self).wf(),
        ensures
            final(self).wf(),
            final(self)@ == old(self)@.remove(k),
    {
        let p = self.position(k);
        let ghost s0 = self.entries@;
        if p < self.entries.len() && self.entries[p].0 == k {
            self.entries.remove(p);
            let ghost s1 = self.entries@;
            assert(keys_sorted(s1));
            assert forall|key: u32| #[trigger] has_key(s1, key) == (has_key(s0, key) && key != k) by {
                if has_key(s1, key) {
                    let j = choose|j: int| 0 <= j < s1.len() && s1[j].0 == key;
                    if j < p {
                        assert(s0[j].0 == key);
                    } else {
                        assert(s0[j + 1].0 == key);
                    }
                }
                if has_key(s0, key) && key != k {
                    let j = choose|j: int| 0 <= j < s0.len() && s0[j].0 == key;
                    if j < p {
                        assert(s1[j].0 == key);
                    } else {
                        assert(s1[j - 1].0 == key);
                    }
                }
            }
            assert forall|key: u32| #[trigger] has_key(s1, key) implies to_map(s1)[key]
                == to_map(s0)[key] by {
                let j = choose|j: int| 0 <= j < s1.len() && s1[j].0 == key;
                lemma_map_at(s1, j);
                if j < p {
                    lemma_map_at(s0, j);
                } else {
                    lemma_map_at(s0, j + 1);
                }
            }
            assert(to_map(s1) =~= to_map(s0).remove(k));
        } else {
            assert(!has_key(s0, k));
            assert(to_map(s0) =~= to_map(s0).remove(k));
        }
    }
}

/// Largest integer whose square does not exceed `x`.
pub fn sqrt_floor(x: u128) -> (r: u128)
    ensures
        r == isqrt(x as nat),
        r * r <= x < (r + 1) * (r + 1),
        r < 0x1_0000_0000_0000_0000,
{
    let mut lo: u128 = 0;
    let mut hi: u128 = 0x1_0000_0000_0000_0000;
    assert(x < hi * hi) by (nonlinear_arith)
        requires
            hi == 0x1_0000_0000_0000_0000u128,
            x < 0x1_0000_0000_0000_0000_0000_0000_0000_0000int,
    ;
    while hi - lo > 1
        invariant
            lo < hi <= 0x1_0000_0000_0000_0000u128,
            lo * lo <= x,
            x < hi * hi,
        decreases hi - lo,
    {
        let mid = lo + (hi - lo) / 2;
        assert(mid * mid < 0x1_0000_0000_0000_0000_0000_0000_0000_0000int) by (nonlinear_arith)
            requires
                mid < 0x1_0000_0000_0000_0000int,
        ;
        if mid * mid <= x {
            lo = mid;
        } else {
            hi = mid;
        }
    }
    proof {
        lemma_isqrt_unique(x as nat, lo as nat);
    }
    lo
}

/// Computes the dot product of two sparse vectors: the sum of `a[k] * b[k]`
/// over the indices present in both.
pub fn dot(a: &SparseVector, b: &SparseVector) -> (r: i128)
    requires
        a.wf(),
        b.wf(),
    ensures
        r == dot_seq(a.seq(), b.seq()),
{
    let ea = a.entries();
    let eb = b.entries();
    let ghost sa = ea@;
    let ghost sb = eb@;
    proof {
        lemma_sorted_len(sa);
        lemma_dot_bound(sa, sb);
    }
    let mut i: usize = 0;
    let mut j: usize = 0;
    let mut acc: i128 = 0;
    assert(sa.skip(0) =~= sa);
    assert(sb.skip(0) =~= sb);
    while i < ea.len() && j < eb.len()
        invariant
            sa == ea@,
            sb == eb@,
            sa.len() <= INDEX_SPACE,
            -0x4000_0000 * sa.len() <= dot_seq(sa, sb) <= 0x4000_0000 * sa.len(),
            i <= sa.len(),
            j <= sb.len(),
            acc + dot_seq(sa.skip(i as int), sb.skip(j as int)) == dot_seq(sa, sb),
        decreases sa.len() + sb.len() - i - j,
    {
        let ghost ra = sa.skip(i as int);
        let ghost rb = sb.skip(j as int);
        assert(ra[0] == sa[i as int]);
        assert(rb[0] == sb[j as int]);
        assert(ra.drop_first() =~= sa.skip(i + 1));
        assert(rb.drop_first() =~= sb.skip(j + 1));
        proof {
            lemma_dot_bound_small(ra, rb);
            lemma_dot_bound_small(sa, sb);
        }
        let ka = ea[i].0;
        let kb = eb[j].0;
        if ka < kb {
            i = i + 1;
        } else if kb < ka {
            j = j + 1;
        } else {
            proof {
                lemma_product_bound(sa[i as int].1, sb[j as int].1);
                lemma_dot_bound_small(sa.skip(i + 1), sb.skip(j + 1));
            }
            acc = acc + (ea[i].1 as i128) * (eb[j].1 as i128);
            i = i + 1;
            j = j + 1;
        }
    }
    proof {
        assert(sa.skip(i as int).len() == 0 || sb.skip(j as int).len() == 0);
    }
    acc
}

/// Computes the sum of the values of a sparse vector.
pub fn sum(a: &SparseVector) -> (r: i64)
    requires
        a.wf(),
    ensures
        r == sum_seq(a.seq()),
{
    let ea = a.entries();
    let ghost sa = ea@;
    proof {
        lemma_sorted_len(sa);
    }
    let mut i: usize = ea.len();
    let mut acc: i64 = 0;
    while i > 0
        invariant
            sa == ea@,
            sa.len() <= INDEX_SPACE,
            i <= sa.len(),
            acc == sum_seq(sa.skip(i as int)),
        decreases i,
    {
        let ghost rest = sa.skip(i - 1);
        assert(rest.drop_first() =~= sa.skip(i as int));
        proof {
            lemma_sum_bound(sa.skip(i - 1));
        }
        acc = acc + ea[i - 1].1 as i64;
        i = i - 1;
    }
    assert(sa.skip(0) =~= sa);
    acc
}

/// Computes the Euclidean norm of a sparse vector, rounded down.
pub fn norm(a: &SparseVector) -> (r: u64)
    requires
        a.wf(),
    ensures
        r == isqrt(dot_seq(a.seq(), a.seq()) as nat),
{
    proof {
        lemma_dot_self_nonneg(a.seq());
    }
    let d = dot(a, a);
    let r = sqrt_floor(d as u128);
    proof {
        lemma_sorted_len(a.seq());
        lemma_dot_bound(a.seq(), a.seq());
        assert(r * r <= d);
        assert(r < 0x1_0000_0000) by (nonlinear_arith)
            requires
                r * r <= d,
                d <= 0x4000_0000 * 0x1_0000_0000,
        ;
    }
    r as u64
}

/// Computes the covariance of two sparse vectors seen as `n`-dimensional
/// vectors, scaled by `n * n`: `n * dot(a, b) - sum(a) * sum(b)`.
pub fn covariance(a: &SparseVector, b: &SparseVector, n: usize) -> (r: i128)
    requires
        a.wf(),
        b.wf(),
        n <= INDEX_SPACE,
    ensures
        r == covariance_seq(a.seq(), b.seq(), n as int),
        -0x8000_0000_0000_0000_0000_0000int <= r <= 0x8000_0000_0000_0000_0000_0000int,
{
    let d = dot(a, b);
    let sa = sum(a);
    let sb = sum(b);
    proof {
        lemma_sorted_len(a.seq());
        lemma_sorted_len(b.seq());
        lemma_dot_bound(a.seq(), b.seq());
        lemma_sum_bound(a.seq());
        lemma_sum_bound(b.seq());
        let x = n as int;
        let y = d as int;
        assert(-0x4000_0000_0000_0000_0000_0000int <= x * y <= 0x4000_0000_0000_0000_0000_0000int) by (nonlinear_arith)
            requires
                0 <= x <= 0x1_0000_0000,
                -0x4000_0000 * 0x1_0000_0000 <= y <= 0x4000_0000 * 0x1_0000_0000,
        ;
        let u = sa as int;
        let v = sb as int;
        assert(-0x4000_0000_0000_0000_0000_0000int <= u * v <= 0x4000_0000_0000_0000_0000_0000int) by (nonlinear_arith)
            requires
                -0x8000 * 0x1_0000_0000 <= u <= 0x8000 * 0x1_0000_0000,
                -0x8000 * 0x1_0000_0000 <= v <= 0x8000 * 0x1_0000_0000,
        ;
    }
    (n as i128) * d - (sa as i128) * (sb as i128)
}

} // verus!
