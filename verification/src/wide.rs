//! Unsigned 256-bit values in two 128-bit halves: just enough arithmetic
//! for sums of squares of 64-bit samples to be computed exactly.

use vstd::prelude::*;

verus! {

/// Two to the power 64.
pub open spec fn half() -> int {
    0x1_0000_0000_0000_0000int
}

/// Two to the power 128.
pub open spec fn radix() -> int {
    0x1_0000_0000_0000_0000_0000_0000_0000_0000int
}

/// A natural number below two to the power 256.
#[derive(Clone, Copy, Debug)]
pub struct Wide {
    pub hi: u128,
    pub lo: u128,
}

impl Wide {
    /// The number that the two halves stand for.
    pub open spec fn value(self) -> int {
        self.hi * radix() + self.lo
    }

    /// Tells whether `self` is at most `other`.
    pub fn le(self, other: Wide) -> (r: bool)
        ensures
            r == (self.value() <= other.value()),
    {
        self.hi < other.hi || (self.hi == other.hi && self.lo <= other.lo)
    }

    /// The difference of two values, the smaller one taken from the larger.
    pub fn minus(self, other: Wide) -> (r: Wide)
        requires
            other.value() <= self.value(),
        ensures
            r.value() == self.value() - other.value(),
    {
        if self.lo >= other.lo {
            Wide { hi: self.hi - other.hi, lo: self.lo - other.lo }
        } else {
            let gap: u128 = other.lo - self.lo;
            Wide { hi: self.hi - other.hi - 1, lo: (u128::MAX - gap) + 1 }
        }
    }

    /// The sum of a value and a 128-bit number.
    pub fn plus(self, x: u128) -> (r: Wide)
        requires
            self.value() + x < radix() * radix(),
        ensures
            r.value() == self.value() + x,
    {
        if self.lo <= u128::MAX - x {
            Wide { hi: self.hi, lo: self.lo + x }
        } else {
            let room: u128 = u128::MAX - x;
            Wide { hi: self.hi + 1, lo: self.lo - room - 1 }
        }
    }
}

/// The product of two numbers is bounded by the product of their bounds.
pub proof fn lemma_product_bound(x: int, y: int, a: int, b: int)
    requires
        0 <= x <= a,
        0 <= y <= b,
    ensures
        0 <= x * y <= a * b,
{
    assert(0 <= x * y <= a * b) by (nonlinear_arith)
        requires
            0 <= x <= a,
            0 <= y <= b,
    ;
}

/// A product of two numbers, each split at some base, written out by parts.
pub proof fn lemma_product_parts(a1: int, a0: int, b1: int, b0: int, base: int)
    ensures
        (a1 * base + a0) * (b1 * base + b0) == (a1 * b1) * (base * base) + (a0 * b1 + a1 * b0)
            * base + a0 * b0,
{
    let x = a1 * base;
    let y = b1 * base;
    assert((x + a0) * (y + b0) == x * y + x * b0 + a0 * y + a0 * b0) by (nonlinear_arith);
    assert(x * y == (a1 * b1) * (base * base)) by (nonlinear_arith)
        requires
            x == a1 * base,
            y == b1 * base,
    ;
    assert(x * b0 == (a1 * b0) * base) by (nonlinear_arith)
        requires
            x == a1 * base,
    ;
    assert(a0 * y == (a0 * b1) * base) by (nonlinear_arith)
        requires
            y == b1 * base,
    ;
    assert((a0 * b1 + a1 * b0) * base == (a0 * b1) * base + (a1 * b0) * base)
        by (nonlinear_arith);
}

/// The full product of two 128-bit numbers.
pub fn product(a: u128, b: u128) -> (r: Wide)
    ensures
        r.value() == a * b,
{
    let base: u128 = 0x1_0000_0000_0000_0000;
    let a0: u128 = a % base;
    let a1: u128 = a / base;
    let b0: u128 = b % base;
    let b1: u128 = b / base;
    proof {
        lemma_product_bound(a0 as int, b0 as int, half() - 1, half() - 1);
        lemma_product_bound(a0 as int, b1 as int, half() - 1, half() - 1);
        lemma_product_bound(a1 as int, b0 as int, half() - 1, half() - 1);
        lemma_product_bound(a1 as int, b1 as int, half() - 1, half() - 1);
        assert((half() - 1) * (half() - 1) == radix() - 2 * half() + 1) by (nonlinear_arith);
    }
    let p0: u128 = a0 * b0;
    let p1: u128 = a0 * b1;
    let p2: u128 = a1 * b0;
    let p3: u128 = a1 * b1;
    let t: u128 = p0 / base + p1 % base + p2 % base;
    let lo: u128 = (t % base) * base + p0 % base;
    let hi: u128 = p3 + p1 / base + p2 / base + t / base;
    proof {
        lemma_product_parts(a1 as int, a0 as int, b1 as int, b0 as int, half());
        assert(half() * half() == radix()) by (nonlinear_arith);
        assert(a as int == a1 * half() + a0);
        assert(b as int == b1 * half() + b0);
        assert((a0 * b1 + a1 * b0) * half() == p1 * half() + p2 * half()) by (nonlinear_arith)
            requires
                p1 == a0 * b1,
                p2 == a1 * b0,
        ;
        assert(p1 as int == (p1 / base) * half() + p1 % base);
        assert(p2 as int == (p2 / base) * half() + p2 % base);
        assert(p0 as int == (p0 / base) * half() + p0 % base);
        assert(t as int == (t / base) * half() + t % base);
        assert(p1 * half() == (p1 / base) as int * radix() + (p1 % base) as int * half())
            by (nonlinear_arith)
            requires
                p1 as int == (p1 / base) * half() + p1 % base,
                half() * half() == radix(),
        ;
        assert(p2 * half() == (p2 / base) as int * radix() + (p2 % base) as int * half())
            by (nonlinear_arith)
            requires
                p2 as int == (p2 / base) * half() + p2 % base,
                half() * half() == radix(),
        ;
        assert(t * half() == (t / base) as int * radix() + (t % base) as int * half())
            by (nonlinear_arith)
            requires
                t as int == (t / base) * half() + t % base,
                half() * half() == radix(),
        ;
        assert((a1 * b1) * (half() * half()) == p3 * radix());
    }
    Wide { hi, lo }
}

} // verus!
