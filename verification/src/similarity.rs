//! Exact similarity values.
//!
//! A similarity is a real number between zero and one. Both measures used here
//! (a ratio of sizes, a cosine of k-mer profiles) have a rational square, so a
//! value is held as its numerator and the square of its denominator, and two
//! values are ordered by cross-multiplying their squares. Nothing is rounded.

use vstd::prelude::*;
use crate::wide::mul_wide;

verus! {

/// The number `num / sqrt(den_sq)`.
#[derive(Clone, Copy, Debug)]
pub struct Similarity {
    pub num: u64,
    pub den_sq: u128,
}

impl Similarity {
    /// A well-formed similarity has a positive denominator and lies in `[0, 1]`.
    pub open spec fn wf(self) -> bool {
        self.den_sq > 0 && self.num * self.num <= self.den_sq
    }

    /// Numerator of the squared value.
    pub open spec fn sq_num(self) -> int {
        self.num * self.num
    }

    /// Denominator of the squared value.
    pub open spec fn sq_den(self) -> int {
        self.den_sq as int
    }

    /// The value is 0.
    pub open spec fn is_zero(self) -> bool {
        self.num == 0
    }

    /// The value is 1.
    pub open spec fn is_one(self) -> bool {
        self.sq_num() == self.sq_den()
    }

    /// `self` is strictly smaller than `other`.
    pub open spec fn value_lt(self, other: Similarity) -> bool {
        self.sq_num() * other.sq_den() < other.sq_num() * self.sq_den()
    }

    /// `self` is no larger than `other`.
    pub open spec fn value_le(self, other: Similarity) -> bool {
        self.sq_num() * other.sq_den() <= other.sq_num() * self.sq_den()
    }

    /// `self` and `other` are the same number, whatever their representation.
    pub open spec fn value_eq(self, other: Similarity) -> bool {
        self.sq_num() * other.sq_den() == other.sq_num() * self.sq_den()
    }

    /// The similarity 0.
    pub open spec fn spec_zero() -> Similarity {
        Similarity { num: 0, den_sq: 1 }
    }

    /// The similarity 1.
    pub open spec fn spec_one() -> Similarity {
        Similarity { num: 1, den_sq: 1 }
    }

    /// The similarity 0.
    pub fn zero() -> (r: Similarity)
        ensures
            r == Similarity::spec_zero(),
            r.wf(),
            r.is_zero(),
    {
        Similarity { num: 0, den_sq: 1 }
    }

    /// The similarity 1.
    pub fn one() -> (r: Similarity)
        ensures
            r == Similarity::spec_one(),
            r.wf(),
            r.is_one(),
    {
        Similarity { num: 1, den_sq: 1 }
    }

    /// The ratio `num / den`, where that is a number in `[0, 1]`.
    pub fn new(num: u64, den: u64) -> (r: Option<Similarity>)
        ensures
            r is Some <==> (den > 0 && num <= den),
            r matches Some(s) ==> s.wf() && s.num == num && s.den_sq == den * den,
    {
        if den == 0 || num > den {
            return None;
        }
        proof {
            lemma_square_fits(den);
            assert(num * num <= den * den && 0 < den * den) by (nonlinear_arith)
                requires
                    0 <= num <= den,
                    0 < den,
            ;
        }
        let wide_den: u128 = den as u128;
        Some(Similarity { num, den_sq: wide_den * wide_den })
    }

    /// Whether the invariant of the type holds of this value.
    pub fn is_valid(&self) -> (r: bool)
        ensures
            r == self.wf(),
    {
        proof {
            lemma_square_fits(self.num);
        }
        let n: u128 = self.num as u128;
        self.den_sq > 0 && n * n <= self.den_sq
    }

    /// Whether the value is 0.
    pub fn is_zero_value(&self) -> (r: bool)
        ensures
            r == self.is_zero(),
    {
        self.num == 0
    }

    /// Whether the value is 1.
    pub fn is_one_value(&self) -> (r: bool)
        ensures
            r == self.is_one(),
    {
        proof {
            lemma_square_fits(self.num);
        }
        let n: u128 = self.num as u128;
        n * n == self.den_sq
    }

    /// Whether `self` is strictly smaller than `other`.
    pub fn less_than(&self, other: &Similarity) -> (r: bool)
        ensures
            r == self.value_lt(*other),
    {
        proof {
            lemma_square_fits(self.num);
            lemma_square_fits(other.num);
        }
        let a: u128 = self.num as u128;
        let b: u128 = other.num as u128;
        let left = mul_wide(a * a, other.den_sq);
        let right = mul_wide(b * b, self.den_sq);
        left.lt(&right)
    }

    /// Whether `self` is no larger than `other`.
    pub fn at_most(&self, other: &Similarity) -> (r: bool)
        ensures
            r == self.value_le(*other),
    {
        !other.less_than(self)
    }

    /// Whether `self` and `other` are the same number.
    pub fn same_as(&self, other: &Similarity) -> (r: bool)
        ensures
            r == self.value_eq(*other),
    {
        proof {
            lemma_square_fits(self.num);
            lemma_square_fits(other.num);
        }
        let a: u128 = self.num as u128;
        let b: u128 = other.num as u128;
        let left = mul_wide(a * a, other.den_sq);
        let right = mul_wide(b * b, self.den_sq);
        left.same(&right)
    }
}

/// The square of a 64-bit number fits in 128 bits.
pub proof fn lemma_square_fits(x: u64)
    ensures
        0 <= x * x <= u128::MAX,
{
    assert(0 <= x * x <= 0xFFFF_FFFF_FFFF_FFFF * 0xFFFF_FFFF_FFFF_FFFF) by (nonlinear_arith)
        requires
            0 <= x <= 0xFFFF_FFFF_FFFF_FFFF,
    ;
}

/// Cross-multiplied fractions: `p/q <= r/s` and `r/s <= t/u` give `p/q <= t/u`.
pub proof fn lemma_cross_le_le(p: int, q: int, r: int, s: int, t: int, u: int)
    requires
        q > 0,
        s > 0,
        u > 0,
        p * s <= r * q,
        r * u <= t * s,
    ensures
        p * u <= t * q,
{
    assert((p * s) * u <= (r * q) * u) by (nonlinear_arith)
        requires
            p * s <= r * q,
            u > 0,
    ;
    assert((r * u) * q <= (t * s) * q) by (nonlinear_arith)
        requires
            r * u <= t * s,
            q > 0,
    ;
    assert((r * q) * u == (r * u) * q) by (nonlinear_arith);
    assert((p * s) * u == (p * u) * s) by (nonlinear_arith);
    assert((t * s) * q == (t * q) * s) by (nonlinear_arith);
    assert(p * u <= t * q) by (nonlinear_arith)
        requires
            (p * u) * s <= (t * q) * s,
            s > 0,
    ;
}

/// Cross-multiplied fractions: `p/q < r/s` and `r/s <= t/u` give `p/q < t/u`.
pub proof fn lemma_cross_lt_le(p: int, q: int, r: int, s: int, t: int, u: int)
    requires
        q > 0,
        s > 0,
        u > 0,
        p * s < r * q,
        r * u <= t * s,
    ensures
        p * u < t * q,
{
    assert((p * s) * u < (r * q) * u) by (nonlinear_arith)
        requires
            p * s < r * q,
            u > 0,
    ;
    assert((r * u) * q <= (t * s) * q) by (nonlinear_arith)
        requires
            r * u <= t * s,
            q > 0,
    ;
    assert((r * q) * u == (r * u) * q) by (nonlinear_arith);
    assert((p * s) * u == (p * u) * s) by (nonlinear_arith);
    assert((t * s) * q == (t * q) * s) by (nonlinear_arith);
    assert(p * u < t * q) by (nonlinear_arith)
        requires
            (p * u) * s < (t * q) * s,
            s > 0,
    ;
}

/// Cross-multiplied fractions: `p/q <= r/s` and `r/s < t/u` give `p/q < t/u`.
pub proof fn lemma_cross_le_lt(p: int, q: int, r: int, s: int, t: int, u: int)
    requires
        q > 0,
        s > 0,
        u > 0,
        p * s <= r * q,
        r * u < t * s,
    ensures
        p * u < t * q,
{
    assert((p * s) * u <= (r * q) * u) by (nonlinear_arith)
        requires
            p * s <= r * q,
            u > 0,
    ;
    assert((r * u) * q < (t * s) * q) by (nonlinear_arith)
        requires
            r * u < t * s,
            q > 0,
    ;
    assert((r * q) * u == (r * u) * q) by (nonlinear_arith);
    assert((p * s) * u == (p * u) * s) by (nonlinear_arith);
    assert((t * s) * q == (t * q) * s) by (nonlinear_arith);
    assert(p * u < t * q) by (nonlinear_arith)
        requires
            (p * u) * s < (t * q) * s,
            s > 0,
    ;
}

/// The strict order of similarities is transitive.
pub proof fn lemma_value_lt_transitive(a: Similarity, b: Similarity, c: Similarity)
    requires
        a.wf(),
        b.wf(),
        c.wf(),
        a.value_lt(b),
        b.value_lt(c),
    ensures
        a.value_lt(c),
{
    lemma_cross_lt_le(a.sq_num(), a.sq_den(), b.sq_num(), b.sq_den(), c.sq_num(), c.sq_den());
}

/// The order of similarities is transitive.
pub proof fn lemma_value_le_transitive(a: Similarity, b: Similarity, c: Similarity)
    requires
        a.wf(),
        b.wf(),
        c.wf(),
        a.value_le(b),
        b.value_le(c),
    ensures
        a.value_le(c),
{
    lemma_cross_le_le(a.sq_num(), a.sq_den(), b.sq_num(), b.sq_den(), c.sq_num(), c.sq_den());
}

/// Being the same number is transitive.
pub proof fn lemma_value_eq_transitive(a: Similarity, b: Similarity, c: Similarity)
    requires
        a.wf(),
        b.wf(),
        c.wf(),
        a.value_eq(b),
        b.value_eq(c),
    ensures
        a.value_eq(c),
{
    lemma_cross_le_le(a.sq_num(), a.sq_den(), b.sq_num(), b.sq_den(), c.sq_num(), c.sq_den());
    lemma_cross_le_le(c.sq_num(), c.sq_den(), b.sq_num(), b.sq_den(), a.sq_num(), a.sq_den());
}

/// A well-formed similarity lies between 0 and 1, and nothing that is 1 lies
/// below another similarity.
pub proof fn lemma_value_bounds(a: Similarity, b: Similarity)
    requires
        a.wf(),
        b.wf(),
    ensures
        Similarity::spec_zero().value_le(a),
        a.value_le(Similarity::spec_one()),
        a.is_one() ==> b.value_le(a),
        a.is_one() && b.is_one() ==> a.value_eq(b),
        a.is_zero() ==> a.value_le(b),
{
    assert(0 <= a.sq_num()) by (nonlinear_arith);
    assert(0 <= b.sq_num()) by (nonlinear_arith);
    let z = Similarity::spec_zero();
    let o = Similarity::spec_one();
    assert(z.sq_num() == 0 && o.sq_num() == 1) by (nonlinear_arith)
        requires
            z.num == 0,
            o.num == 1,
    ;
    assert(z.sq_num() * a.sq_den() == 0 && a.sq_num() * z.sq_den() == a.sq_num()
        && a.sq_num() * o.sq_den() == a.sq_num() && o.sq_num() * a.sq_den() == a.sq_den())
        by (nonlinear_arith)
        requires
            z.sq_num() == 0,
            z.sq_den() == 1,
            o.sq_num() == 1,
            o.sq_den() == 1,
    ;
    if a.is_one() {
        assert(b.sq_num() * a.sq_den() <= a.sq_num() * b.sq_den()) by (nonlinear_arith)
            requires
                a.sq_num() == a.sq_den(),
                0 <= b.sq_num() <= b.sq_den(),
                0 < a.sq_den(),
        ;
    }
    if a.is_one() && b.is_one() {
        assert(a.sq_num() * b.sq_den() == b.sq_num() * a.sq_den()) by (nonlinear_arith)
            requires
                a.sq_num() == a.sq_den(),
                b.sq_num() == b.sq_den(),
        ;
    }
    if a.is_zero() {
        assert(a.sq_num() == 0) by (nonlinear_arith)
            requires
                a.num == 0,
        ;
        assert(0 <= b.sq_num() * a.sq_den()) by (nonlinear_arith)
            requires
                0 <= b.sq_num(),
                0 < a.sq_den(),
        ;
    }
}

} // verus!
