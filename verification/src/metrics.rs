//! The measures by which a set of variants is compared with a haplotype.

use vstd::prelude::*;
use crate::similarity::{lemma_square_fits, Similarity};

verus! {

/// Two half-open intervals `[s1, e1)` and `[s2, e2)` share a position.
pub open spec fn intervals_overlap(s1: u64, e1: u64, s2: u64, e2: u64) -> bool {
    s1 < e2 && s2 < e1
}

/// Whether `[s1, e1)` and `[s2, e2)` overlap.
pub fn overlaps(s1: u64, e1: u64, s2: u64, e2: u64) -> (r: bool)
    ensures
        r == intervals_overlap(s1, e1, s2, e2),
{
    s1 < e2 && s2 < e1
}

/// The smaller of two sizes over the larger, and 1 for two empty sizes.
pub open spec fn size_similarity(a: u64, b: u64) -> Similarity {
    if a == 0 && b == 0 {
        Similarity::spec_one()
    } else if a <= b {
        Similarity { num: a, den_sq: (b * b) as u128 }
    } else {
        Similarity { num: b, den_sq: (a * a) as u128 }
    }
}

/// Similarity of two sizes.
pub fn sizesim(size_a: u64, size_b: u64) -> (r: Similarity)
    ensures
        r == size_similarity(size_a, size_b),
        r.wf(),
{
    if size_a == 0 && size_b == 0 {
        return Similarity::one();
    }
    let small: u64 = if size_a <= size_b { size_a } else { size_b };
    let large: u128 = if size_a <= size_b { size_b as u128 } else { size_a as u128 };
    proof {
        lemma_square_fits(size_a);
        lemma_square_fits(size_b);
        assert(small * small <= large * large && 0 < large * large) by (nonlinear_arith)
            requires
                0 <= small <= large,
                0 < large,
        ;
    }
    Similarity { num: small, den_sq: large * large }
}

/// Size similarity is well formed, does not depend on the order of its
/// arguments, and is 1 exactly for equal sizes.
pub proof fn lemma_size_similarity(a: u64, b: u64)
    ensures
        size_similarity(a, b).wf(),
        size_similarity(a, b) == size_similarity(b, a),
        size_similarity(a, b).is_one() <==> a == b,
{
    lemma_square_fits(a);
    lemma_square_fits(b);
    let s = size_similarity(a, b);
    if a == 0 && b == 0 {
        assert(s.sq_num() == 1) by (nonlinear_arith)
            requires
                s.num == 1,
        ;
    } else if a <= b {
        assert(a * a <= b * b && 0 < b * b && (a * a == b * b ==> a == b)) by (nonlinear_arith)
            requires
                0 <= a <= b,
                0 < b,
        ;
    } else {
        assert(b * b < a * a) by (nonlinear_arith)
            requires
                0 <= b < a,
        ;
    }
}

/// The further apart two sizes are, the smaller their similarity: with
/// `a <= b <= c`, the pair `(a, c)` is no more similar than `(b, c)` or `(a, b)`.
pub proof fn lemma_size_similarity_monotone(a: u64, b: u64, c: u64)
    requires
        a <= b <= c,
    ensures
        size_similarity(a, c).value_le(size_similarity(b, c)),
        size_similarity(a, c).value_le(size_similarity(a, b)),
{
    lemma_square_fits(a);
    lemma_square_fits(b);
    lemma_square_fits(c);
    let aa = a * a;
    let bb = b * b;
    let cc = c * c;
    assert(0 <= aa <= bb <= cc) by (nonlinear_arith)
        requires
            0 <= a <= b <= c,
            aa == a * a,
            bb == b * b,
            cc == c * c,
    ;
    if c == 0 {
    } else if b == 0 {
        assert(aa == 0);
        assert(aa * 1 <= 1 * cc && aa * cc <= bb * cc) by (nonlinear_arith)
            requires
                aa == 0,
                0 <= bb,
                0 <= cc,
        ;
    } else {
        assert(aa * cc <= bb * cc && aa * bb <= aa * cc) by (nonlinear_arith)
            requires
                0 <= aa <= bb <= cc,
        ;
    }
}

/// A count as it enters the comparison: counts below the minimum frequency
/// count as zero.
pub open spec fn kept(x: u64, min_frequency: u64) -> int {
    if x < min_frequency {
        0
    } else {
        x as int
    }
}

/// The inner product of the first `n` kept counts of `a` and `b`.
pub open spec fn dot_upto(a: Seq<u64>, b: Seq<u64>, min_frequency: u64, n: int) -> int
    decreases n,
{
    if n <= 0 {
        0
    } else {
        dot_upto(a, b, min_frequency, n - 1) + kept(a[n - 1], min_frequency) * kept(
            b[n - 1],
            min_frequency,
        )
    }
}

/// The number of positions that both profiles have.
pub open spec fn common_len(a: Seq<u64>, b: Seq<u64>) -> int {
    if a.len() <= b.len() {
        a.len() as int
    } else {
        b.len() as int
    }
}

/// The cosine of the angle between two k-mer profiles, after each count below
/// `min_frequency` has been set to zero in its own profile.
///
/// The value is `dot / sqrt(norm_a * norm_b)`, where `norm_a` and `norm_b` are
/// the inner products of each profile with itself. It is 0 where a profile has
/// no count left, and also where a norm does not fit in 64 bits.
pub open spec fn sequence_similarity(a: Seq<u64>, b: Seq<u64>, min_frequency: u64) -> Similarity {
    let n = common_len(a, b);
    let norm_a = dot_upto(a, a, min_frequency, n);
    let norm_b = dot_upto(b, b, min_frequency, n);
    if norm_a == 0 || norm_b == 0 || norm_a > u64::MAX || norm_b > u64::MAX {
        Similarity::spec_zero()
    } else {
        Similarity {
            num: dot_upto(a, b, min_frequency, n) as u64,
            den_sq: (norm_a * norm_b) as u128,
        }
    }
}

/// An inner product of kept counts is not negative and grows with `n`.
pub proof fn lemma_dot_monotone(a: Seq<u64>, b: Seq<u64>, min_frequency: u64, i: int, j: int)
    requires
        i <= j,
    ensures
        0 <= dot_upto(a, b, min_frequency, i) <= dot_upto(a, b, min_frequency, j),
    decreases j,
{
    if j <= 0 {
    } else if i == j {
        lemma_dot_monotone(a, b, min_frequency, i - 1, j - 1);
        let x = kept(a[j - 1], min_frequency);
        let y = kept(b[j - 1], min_frequency);
        assert(0 <= x * y) by (nonlinear_arith)
            requires
                0 <= x,
                0 <= y,
        ;
    } else {
        lemma_dot_monotone(a, b, min_frequency, i, j - 1);
        let x = kept(a[j - 1], min_frequency);
        let y = kept(b[j - 1], min_frequency);
        assert(0 <= x * y) by (nonlinear_arith)
            requires
                0 <= x,
                0 <= y,
        ;
    }
}

proof fn lemma_sum_square(u: int, v: int)
    ensures
        (u + v) * (u + v) >= 4 * (u * v),
{
    assert((u + v) * (u + v) - 4 * (u * v) == (u - v) * (u - v)) by (nonlinear_arith);
    assert((u - v) * (u - v) >= 0) by (nonlinear_arith);
}

proof fn lemma_square_order(s: int, t: int)
    requires
        0 <= s,
        0 <= t,
        t * t <= s * s,
    ensures
        t <= s,
{
    if s < t {
        assert(s * s < t * t) by (nonlinear_arith)
            requires
                0 <= s < t,
        ;
    }
}

proof fn lemma_cauchy_schwarz_step(d: int, a: int, b: int, x: int, y: int)
    requires
        0 <= d,
        0 <= a,
        0 <= b,
        0 <= x,
        0 <= y,
        d * d <= a * b,
    ensures
        (d + x * y) * (d + x * y) <= (a + x * x) * (b + y * y),
{
    let w = x * y;
    let xx = x * x;
    let yy = y * y;
    let u = a * yy;
    let v = b * xx;
    let s = u + v;
    let t = 2 * (d * w);
    let ww = w * w;
    assert(0 <= w && 0 <= xx && 0 <= yy && ww == xx * yy) by (nonlinear_arith)
        requires
            0 <= x,
            0 <= y,
            w == x * y,
            xx == x * x,
            yy == y * y,
            ww == w * w,
    ;
    assert(0 <= u && 0 <= v && 0 <= d * w) by (nonlinear_arith)
        requires
            0 <= a,
            0 <= b,
            0 <= d,
            0 <= w,
            0 <= xx,
            0 <= yy,
            u == a * yy,
            v == b * xx,
    ;
    lemma_sum_square(u, v);
    assert(u * v == (a * b) * ww) by (nonlinear_arith)
        requires
            u == a * yy,
            v == b * xx,
            ww == xx * yy,
    ;
    assert((d * d) * ww <= (a * b) * ww) by (nonlinear_arith)
        requires
            d * d <= a * b,
            0 <= ww,
    ;
    assert(t * t == 4 * ((d * d) * ww)) by (nonlinear_arith)
        requires
            t == 2 * (d * w),
            ww == w * w,
    ;
    lemma_square_order(s, t);
    assert((d + w) * (d + w) == d * d + t + ww) by (nonlinear_arith)
        requires
            t == 2 * (d * w),
            ww == w * w,
    ;
    assert((a + xx) * (b + yy) == a * b + s + ww) by (nonlinear_arith)
        requires
            s == a * yy + b * xx,
            ww == xx * yy,
    ;
}

/// The inequality of Cauchy and Schwarz: the square of an inner product is at
/// most the product of the two norms. It puts the cosine in `[0, 1]`.
pub proof fn lemma_cauchy_schwarz(a: Seq<u64>, b: Seq<u64>, min_frequency: u64, n: int)
    ensures
        0 <= dot_upto(a, b, min_frequency, n),
        0 <= dot_upto(a, a, min_frequency, n),
        0 <= dot_upto(b, b, min_frequency, n),
        dot_upto(a, b, min_frequency, n) * dot_upto(a, b, min_frequency, n) <= dot_upto(
            a,
            a,
            min_frequency,
            n,
        ) * dot_upto(b, b, min_frequency, n),
    decreases n,
{
    if n <= 0 {
        assert(0 * 0 <= 0 * 0) by (nonlinear_arith);
    } else {
        lemma_cauchy_schwarz(a, b, min_frequency, n - 1);
        lemma_cauchy_schwarz_step(
            dot_upto(a, b, min_frequency, n - 1),
            dot_upto(a, a, min_frequency, n - 1),
            dot_upto(b, b, min_frequency, n - 1),
            kept(a[n - 1], min_frequency),
            kept(b[n - 1], min_frequency),
        );
        lemma_dot_monotone(a, b, min_frequency, n, n);
        lemma_dot_monotone(a, a, min_frequency, n, n);
        lemma_dot_monotone(b, b, min_frequency, n, n);
    }
}

proof fn lemma_dot_fits(d: int, a: int, b: int)
    requires
        0 <= d,
        0 <= a <= u64::MAX,
        0 <= b <= u64::MAX,
        d * d <= a * b,
    ensures
        d <= u64::MAX,
        a * b <= u128::MAX,
{
    let m = u64::MAX as int;
    assert(a * b <= m * m) by (nonlinear_arith)
        requires
            0 <= a <= m,
            0 <= b <= m,
    ;
    assert(m * m == 0xFFFF_FFFF_FFFF_FFFE_0000_0000_0000_0001) by (nonlinear_arith)
        requires
            m == 0xFFFF_FFFF_FFFF_FFFF,
    ;
    lemma_square_order(m, d);
}

/// The sequence similarity is well formed.
pub proof fn lemma_sequence_similarity_wf(a: Seq<u64>, b: Seq<u64>, min_frequency: u64)
    ensures
        sequence_similarity(a, b, min_frequency).wf(),
{
    let n = common_len(a, b);
    let d = dot_upto(a, b, min_frequency, n);
    let norm_a = dot_upto(a, a, min_frequency, n);
    let norm_b = dot_upto(b, b, min_frequency, n);
    lemma_cauchy_schwarz(a, b, min_frequency, n);
    if norm_a == 0 || norm_b == 0 || norm_a > u64::MAX || norm_b > u64::MAX {
        assert(Similarity::spec_zero().sq_num() == 0) by (nonlinear_arith)
            requires
                Similarity::spec_zero().num == 0,
        ;
    } else {
        lemma_dot_fits(d, norm_a, norm_b);
        assert(0 < norm_a * norm_b) by (nonlinear_arith)
            requires
                0 < norm_a,
                0 < norm_b,
        ;
    }
}

/// A profile compared with itself has similarity 1, unless nothing of it is
/// kept or its norm does not fit in 64 bits.
pub proof fn lemma_sequence_similarity_self(a: Seq<u64>, min_frequency: u64)
    requires
        0 < dot_upto(a, a, min_frequency, a.len() as int) <= u64::MAX,
    ensures
        sequence_similarity(a, a, min_frequency).is_one(),
{
    let norm = dot_upto(a, a, min_frequency, a.len() as int);
    lemma_dot_fits(norm, norm, norm);
}

/// An inner product does not depend on the order of the two profiles.
pub proof fn lemma_dot_symmetric(a: Seq<u64>, b: Seq<u64>, min_frequency: u64, n: int)
    ensures
        dot_upto(a, b, min_frequency, n) == dot_upto(b, a, min_frequency, n),
    decreases n,
{
    if n > 0 {
        lemma_dot_symmetric(a, b, min_frequency, n - 1);
        let x = kept(a[n - 1], min_frequency);
        let y = kept(b[n - 1], min_frequency);
        assert(x * y == y * x) by (nonlinear_arith);
    }
}

/// The sequence similarity does not depend on the order of the two profiles.
pub proof fn lemma_sequence_similarity_symmetric(a: Seq<u64>, b: Seq<u64>, min_frequency: u64)
    ensures
        sequence_similarity(a, b, min_frequency) == sequence_similarity(b, a, min_frequency),
{
    let n = common_len(a, b);
    lemma_dot_symmetric(a, b, min_frequency, n);
    let norm_a = dot_upto(a, a, min_frequency, n);
    let norm_b = dot_upto(b, b, min_frequency, n);
    assert(norm_a * norm_b == norm_b * norm_a) by (nonlinear_arith);
}

/// The kept counts of `a` are those of `b` times `q / p`.
pub open spec fn proportional(a: Seq<u64>, b: Seq<u64>, min_frequency: u64, p: int, q: int) -> bool {
    &&& 0 < p
    &&& 0 < q
    &&& a.len() == b.len()
    &&& forall|i: int|
        0 <= i < a.len() ==> p * kept(#[trigger] a[i], min_frequency) == q * kept(b[i], min_frequency)
}

proof fn lemma_dot_proportional(a: Seq<u64>, b: Seq<u64>, min_frequency: u64, p: int, q: int, n: int)
    requires
        proportional(a, b, min_frequency, p, q),
        0 <= n <= a.len(),
    ensures
        p * dot_upto(a, b, min_frequency, n) == q * dot_upto(b, b, min_frequency, n),
        q * dot_upto(a, b, min_frequency, n) == p * dot_upto(a, a, min_frequency, n),
    decreases n,
{
    if n > 0 {
        lemma_dot_proportional(a, b, min_frequency, p, q, n - 1);
        let x = kept(a[n - 1], min_frequency);
        let y = kept(b[n - 1], min_frequency);
        let d = dot_upto(a, b, min_frequency, n - 1);
        let na = dot_upto(a, a, min_frequency, n - 1);
        let nb = dot_upto(b, b, min_frequency, n - 1);
        assert(p * x == q * y);
        assert(p * (d + x * y) == q * (nb + y * y)) by (nonlinear_arith)
            requires
                p * d == q * nb,
                p * x == q * y,
        ;
        assert(q * (d + x * y) == p * (na + x * x)) by (nonlinear_arith)
            requires
                q * d == p * na,
                p * x == q * y,
        ;
    }
}

/// Proportional profiles have similarity 1, unless nothing of them is kept or
/// a norm does not fit in 64 bits.
pub proof fn lemma_sequence_similarity_proportional(
    a: Seq<u64>,
    b: Seq<u64>,
    min_frequency: u64,
    p: int,
    q: int,
)
    requires
        proportional(a, b, min_frequency, p, q),
        0 < dot_upto(a, a, min_frequency, a.len() as int) <= u64::MAX,
        0 < dot_upto(b, b, min_frequency, b.len() as int) <= u64::MAX,
    ensures
        sequence_similarity(a, b, min_frequency).is_one(),
{
    let n = a.len() as int;
    let d = dot_upto(a, b, min_frequency, n);
    let na = dot_upto(a, a, min_frequency, n);
    let nb = dot_upto(b, b, min_frequency, n);
    lemma_dot_proportional(a, b, min_frequency, p, q, n);
    lemma_cauchy_schwarz(a, b, min_frequency, n);
    lemma_dot_fits(d, na, nb);
    assert((p * q) * (d * d) == (p * q) * (na * nb)) by (nonlinear_arith)
        requires
            p * d == q * nb,
            q * d == p * na,
    ;
    assert(d * d == na * nb) by (nonlinear_arith)
        requires
            (p * q) * (d * d) == (p * q) * (na * nb),
            0 < p,
            0 < q,
    ;
}

/// The kept counts of `a` times `p` are those of `b` times `q`, at every
/// position that both profiles have.
pub open spec fn scaled_alike(a: Seq<u64>, b: Seq<u64>, min_frequency: u64, p: int, q: int) -> bool {
    &&& 0 < p
    &&& 0 < q
    &&& forall|i: int|
        0 <= i < common_len(a, b) ==> p * kept(#[trigger] a[i], min_frequency) == q * kept(
            b[i],
            min_frequency,
        )
}

/// The kept counts of the two profiles are in proportion.
pub open spec fn in_proportion(a: Seq<u64>, b: Seq<u64>, min_frequency: u64) -> bool {
    exists|p: int, q: int| #[trigger] scaled_alike(a, b, min_frequency, p, q)
}

/// The sum over the first `n` positions of the squares of
/// `norm * b[i] - dot * a[i]`, which is 0 where the profiles are in proportion.
spec fn gap_upto(a: Seq<u64>, b: Seq<u64>, min_frequency: u64, norm: int, dot: int, n: int) -> int
    decreases n,
{
    if n <= 0 {
        0
    } else {
        let t = norm * kept(b[n - 1], min_frequency) - dot * kept(a[n - 1], min_frequency);
        gap_upto(a, b, min_frequency, norm, dot, n - 1) + t * t
    }
}

proof fn lemma_gap_expand(a: Seq<u64>, b: Seq<u64>, min_frequency: u64, norm: int, dot: int, n: int)
    ensures
        0 <= gap_upto(a, b, min_frequency, norm, dot, n),
        gap_upto(a, b, min_frequency, norm, dot, n) == (norm * norm) * dot_upto(
            b,
            b,
            min_frequency,
            n,
        ) - (2 * (norm * dot)) * dot_upto(a, b, min_frequency, n) + (dot * dot) * dot_upto(
            a,
            a,
            min_frequency,
            n,
        ),
    decreases n,
{
    if n <= 0 {
        assert((norm * norm) * 0 - (2 * (norm * dot)) * 0 + (dot * dot) * 0 == 0) by (nonlinear_arith);
    } else {
        lemma_gap_expand(a, b, min_frequency, norm, dot, n - 1);
        let x = kept(a[n - 1], min_frequency);
        let y = kept(b[n - 1], min_frequency);
        let t = norm * y - dot * x;
        let nb = dot_upto(b, b, min_frequency, n - 1);
        let d = dot_upto(a, b, min_frequency, n - 1);
        let na = dot_upto(a, a, min_frequency, n - 1);
        let nn = norm * norm;
        let nd = 2 * (norm * dot);
        let dd = dot * dot;
        assert(0 <= t * t) by (nonlinear_arith);
        let u = norm * y;
        let v = dot * x;
        assert(t * t == u * u - 2 * (u * v) + v * v) by (nonlinear_arith)
            requires
                t == u - v,
        ;
        assert(u * u == nn * (y * y)) by (nonlinear_arith)
            requires
                u == norm * y,
                nn == norm * norm,
        ;
        assert(v * v == dd * (x * x)) by (nonlinear_arith)
            requires
                v == dot * x,
                dd == dot * dot,
        ;
        assert(u * v == (norm * dot) * (x * y)) by (nonlinear_arith)
            requires
                u == norm * y,
                v == dot * x,
        ;
        assert(2 * (u * v) == nd * (x * y)) by (nonlinear_arith)
            requires
                u * v == (norm * dot) * (x * y),
                nd == 2 * (norm * dot),
        ;
        assert(nn * (nb + y * y) == nn * nb + nn * (y * y)) by (nonlinear_arith);
        assert(nd * (d + x * y) == nd * d + nd * (x * y)) by (nonlinear_arith);
        assert(dd * (na + x * x) == dd * na + dd * (x * x)) by (nonlinear_arith);
    }
}

proof fn lemma_gap_zero(
    a: Seq<u64>,
    b: Seq<u64>,
    min_frequency: u64,
    norm: int,
    dot: int,
    n: int,
    i: int,
)
    requires
        gap_upto(a, b, min_frequency, norm, dot, n) == 0,
        0 <= i < n,
    ensures
        norm * kept(b[i], min_frequency) == dot * kept(a[i], min_frequency),
    decreases n,
{
    lemma_gap_expand(a, b, min_frequency, norm, dot, n - 1);
    let t = norm * kept(b[n - 1], min_frequency) - dot * kept(a[n - 1], min_frequency);
    assert(0 <= t * t) by (nonlinear_arith);
    if i == n - 1 {
        assert(t == 0) by (nonlinear_arith)
            requires
                t * t == 0,
        ;
    } else {
        lemma_gap_zero(a, b, min_frequency, norm, dot, n - 1, i);
    }
}

/// The converse of `lemma_sequence_similarity_proportional`: profiles with
/// sequence similarity 1 have their kept counts in proportion.
pub proof fn lemma_similarity_one_is_proportional(a: Seq<u64>, b: Seq<u64>, min_frequency: u64)
    requires
        sequence_similarity(a, b, min_frequency).is_one(),
    ensures
        in_proportion(a, b, min_frequency),
{
    let n = common_len(a, b);
    let d = dot_upto(a, b, min_frequency, n);
    let na = dot_upto(a, a, min_frequency, n);
    let nb = dot_upto(b, b, min_frequency, n);
    let z = Similarity::spec_zero();
    assert(z.sq_num() == 0) by (nonlinear_arith)
        requires
            z.num == 0,
    ;
    lemma_cauchy_schwarz(a, b, min_frequency, n);
    lemma_dot_fits(d, na, nb);
    assert(d * d == na * nb);
    assert(0 < na * nb) by (nonlinear_arith)
        requires
            0 < na,
            0 < nb,
    ;
    assert(0 < d) by (nonlinear_arith)
        requires
            0 <= d,
            0 < d * d,
    ;
    lemma_gap_expand(a, b, min_frequency, na, d, n);
    assert((na * na) * nb - (2 * (na * d)) * d + (d * d) * na == 0) by (nonlinear_arith)
        requires
            d * d == na * nb,
    ;
    assert forall|i: int| 0 <= i < n implies d * kept(#[trigger] a[i], min_frequency) == na * kept(
        b[i],
        min_frequency,
    ) by {
        lemma_gap_zero(a, b, min_frequency, na, d, n, i);
    }
    assert(scaled_alike(a, b, min_frequency, d, na));
}

/// Similarity of two k-mer profiles.
pub fn seqsim(a: &Vec<u64>, b: &Vec<u64>, minkfreq: u64) -> (r: Similarity)
    ensures
        r == sequence_similarity(a@, b@, minkfreq),
        r.wf(),
{
    let n: usize = if a.len() <= b.len() { a.len() } else { b.len() };
    let mut d: u128 = 0;
    let mut norm_a: u128 = 0;
    let mut norm_b: u128 = 0;
    let mut i: usize = 0;
    proof {
        lemma_sequence_similarity_wf(a@, b@, minkfreq);
    }
    while i < n
        invariant
            i <= n,
            n == common_len(a@, b@),
            d == dot_upto(a@, b@, minkfreq, i as int),
            norm_a == dot_upto(a@, a@, minkfreq, i as int),
            norm_b == dot_upto(b@, b@, minkfreq, i as int),
            d <= u64::MAX,
            norm_a <= u64::MAX,
            norm_b <= u64::MAX,
            sequence_similarity(a@, b@, minkfreq).wf(),
        decreases n - i,
    {
        let x: u64 = if a[i] < minkfreq { 0 } else { a[i] };
        let y: u64 = if b[i] < minkfreq { 0 } else { b[i] };
        proof {
            lemma_square_fits(x);
            lemma_square_fits(y);
            assert(0 <= x * y <= 0xFFFF_FFFF_FFFF_FFFF * 0xFFFF_FFFF_FFFF_FFFF)
                by (nonlinear_arith)
                requires
                    0 <= x <= 0xFFFF_FFFF_FFFF_FFFF,
                    0 <= y <= 0xFFFF_FFFF_FFFF_FFFF,
            ;
            assert(x * x <= 0xFFFF_FFFF_FFFF_FFFF * 0xFFFF_FFFF_FFFF_FFFF && y * y
                <= 0xFFFF_FFFF_FFFF_FFFF * 0xFFFF_FFFF_FFFF_FFFF) by (nonlinear_arith)
                requires
                    0 <= x <= 0xFFFF_FFFF_FFFF_FFFF,
                    0 <= y <= 0xFFFF_FFFF_FFFF_FFFF,
            ;
        }
        let wx: u128 = x as u128;
        let wy: u128 = y as u128;
        let next_a: u128 = norm_a + wx * wx;
        let next_b: u128 = norm_b + wy * wy;
        if next_a > u64::MAX as u128 || next_b > u64::MAX as u128 {
            proof {
                lemma_dot_monotone(a@, a@, minkfreq, i + 1, n as int);
                lemma_dot_monotone(b@, b@, minkfreq, i + 1, n as int);
            }
            return Similarity::zero();
        }
        let next_d: u128 = d + wx * wy;
        proof {
            lemma_cauchy_schwarz(a@, b@, minkfreq, i + 1);
            lemma_dot_fits(next_d as int, next_a as int, next_b as int);
        }
        d = next_d;
        norm_a = next_a;
        norm_b = next_b;
        i += 1;
    }
    if norm_a == 0 || norm_b == 0 {
        return Similarity::zero();
    }
    proof {
        lemma_cauchy_schwarz(a@, b@, minkfreq, n as int);
        lemma_dot_fits(d as int, norm_a as int, norm_b as int);
    }
    Similarity { num: d as u64, den_sq: norm_a * norm_b }
}

} // verus!
