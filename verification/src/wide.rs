//! Products of two 128-bit numbers, held in 256 bits.
//!
//! Similarities are compared by cross-multiplication, and the products do not
//! fit in a machine word.

use vstd::prelude::*;

verus! {

/// Two to the power 64.
pub open spec fn limb() -> int {
    0x1_0000_0000_0000_0000
}

/// Two to the power 128.
pub open spec fn limb_sq() -> int {
    0x1_0000_0000_0000_0000_0000_0000_0000_0000int
}

/// An unsigned 256-bit number as a high and a low half.
#[derive(Clone, Copy, Debug)]
pub struct Wide {
    pub hi: u128,
    pub lo: u128,
}

impl Wide {
    /// The number that the two halves stand for.
    pub open spec fn value(self) -> int {
        self.hi * limb_sq() + self.lo
    }

    /// Whether `self` is smaller than `other`.
    pub fn lt(&self, other: &Wide) -> (r: bool)
        ensures
            r == (self.value() < other.value()),
    {
        if self.hi != other.hi {
            self.hi < other.hi
        } else {
            self.lo < other.lo
        }
    }

    /// Whether `self` and `other` are the same number.
    pub fn same(&self, other: &Wide) -> (r: bool)
        ensures
            r == (self.value() == other.value()),
    {
        self.hi == other.hi && self.lo == other.lo
    }
}

proof fn lemma_limb_product(x: int, y: int)
    requires
        0 <= x < limb(),
        0 <= y < limb(),
    ensures
        0 <= x * y <= 0xFFFF_FFFF_FFFF_FFFE_0000_0000_0000_0001,
{
    assert(0 <= x * y <= 0xFFFF_FFFF_FFFF_FFFF * 0xFFFF_FFFF_FFFF_FFFF) by (nonlinear_arith)
        requires
            0 <= x <= 0xFFFF_FFFF_FFFF_FFFF,
            0 <= y <= 0xFFFF_FFFF_FFFF_FFFF,
    ;
}

proof fn lemma_split_product(a: int, b: int, a1: int, a0: int, b1: int, b0: int)
    requires
        a == a1 * limb() + a0,
        b == b1 * limb() + b0,
    ensures
        a * b == (a1 * b1) * limb_sq() + (a0 * b1) * limb() + (a1 * b0) * limb() + a0 * b0,
{
    let k = limb();
    let x = a1 * k;
    let y = b1 * k;
    assert(a * b == x * b + a0 * b) by (nonlinear_arith)
        requires
            a == x + a0,
    ;
    assert(x * b == x * y + x * b0) by (nonlinear_arith)
        requires
            b == y + b0,
    ;
    assert(a0 * b == a0 * y + a0 * b0) by (nonlinear_arith)
        requires
            b == y + b0,
    ;
    assert(x * y == (a1 * b1) * (k * k)) by (nonlinear_arith)
        requires
            x == a1 * k,
            y == b1 * k,
    ;
    assert(x * b0 == (a1 * b0) * k) by (nonlinear_arith)
        requires
            x == a1 * k,
    ;
    assert(a0 * y == (a0 * b1) * k) by (nonlinear_arith)
        requires
            y == b1 * k,
    ;
    assert(k * k == limb_sq()) by (nonlinear_arith)
        requires
            k == 0x1_0000_0000_0000_0000,
    ;
}

/// The full product of `a` and `b`.
pub fn mul_wide(a: u128, b: u128) -> (r: Wide)
    ensures
        r.value() == a * b,
{
    let k: u128 = 0x1_0000_0000_0000_0000;
    let a1: u128 = a / k;
    let a0: u128 = a % k;
    let b1: u128 = b / k;
    let b0: u128 = b % k;
    proof {
        lemma_limb_product(a0 as int, b0 as int);
        lemma_limb_product(a0 as int, b1 as int);
        lemma_limb_product(a1 as int, b0 as int);
        lemma_limb_product(a1 as int, b1 as int);
        lemma_split_product(
            a as int,
            b as int,
            a1 as int,
            a0 as int,
            b1 as int,
            b0 as int,
        );
    }
    let p00: u128 = a0 * b0;
    let p01: u128 = a0 * b1;
    let p10: u128 = a1 * b0;
    let p11: u128 = a1 * b1;
    let mid: u128 = p00 / k + p01 % k + p10 % k;
    let lo: u128 = (mid % k) * k + p00 % k;
    let hi: u128 = p11 + p01 / k + p10 / k + mid / k;
    Wide { hi, lo }
}

} // verus!
