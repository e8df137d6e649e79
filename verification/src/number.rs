//! Single- and double-precision numbers by their bit patterns.
//!
//! Ordering, clamping and conversion from and to whole numbers are decided here
//! on the bits. Rounded arithmetic is not: whoever calls the library brings it
//! as a function from an operation and its operands to the result.

use vstd::prelude::*;
use vstd::arithmetic::power2;

verus! {

/// A single-precision number: the IEEE 754 bit pattern.
#[derive(Debug, Clone, Copy, PartialEq, Eq, Structural)]
pub struct Real {
    pub bits: u32,
}

/// A double-precision number: the IEEE 754 bit pattern.
#[derive(Debug, Clone, Copy, PartialEq, Eq, Structural)]
pub struct Double {
    pub bits: u64,
}

/// The rounded operations that the caller's arithmetic supplies. The unary ones
/// read their first operand only.
#[derive(Debug, Clone, Copy, PartialEq, Eq, Structural)]
pub enum Op {
    Plus,
    Minus,
    Times,
    Over,
    /// The square root.
    Root,
    /// The exponential function.
    Exp,
    /// The nearest whole number, halves away from zero.
    Round,
    /// The largest whole number that is not above.
    Floor,
}

/// The bits of plus zero.
pub const ZERO: u32 = 0;

/// The bits of one half.
pub const HALF: u32 = 0x3f00_0000;

/// The bits of one.
pub const ONE: u32 = 0x3f80_0000;

/// The bits of two.
pub const TWO: u32 = 0x4000_0000;

/// The bits of plus infinity.
pub const INFINITY: u32 = 0x7f80_0000;

/// The bits of minus infinity.
pub const NEG_INFINITY: u32 = 0xff80_0000;

/// The arithmetic always answers, and gives the same answer to the same
/// question.
pub open spec fn steady<F: Fn(Op, Real, Real) -> Real>(f: F) -> bool {
    &&& forall|op: Op, a: Real, b: Real| #[trigger] call_requires(f, (op, a, b))
    &&& forall|op: Op, a: Real, b: Real, r: Real| #[trigger]
        call_ensures(f, (op, a, b), r) ==> r == apply(f, op, a, b)
}

/// What the arithmetic answers.
pub open spec fn apply<F: Fn(Op, Real, Real) -> Real>(f: F, op: Op, a: Real, b: Real) -> Real {
    choose|r: Real| call_ensures(f, (op, a, b), r)
}

pub open spec fn plus<F: Fn(Op, Real, Real) -> Real>(f: F, a: Real, b: Real) -> Real {
    apply(f, Op::Plus, a, b)
}

pub open spec fn minus<F: Fn(Op, Real, Real) -> Real>(f: F, a: Real, b: Real) -> Real {
    apply(f, Op::Minus, a, b)
}

pub open spec fn times<F: Fn(Op, Real, Real) -> Real>(f: F, a: Real, b: Real) -> Real {
    apply(f, Op::Times, a, b)
}

pub open spec fn over<F: Fn(Op, Real, Real) -> Real>(f: F, a: Real, b: Real) -> Real {
    apply(f, Op::Over, a, b)
}

pub open spec fn root<F: Fn(Op, Real, Real) -> Real>(f: F, a: Real) -> Real {
    apply(f, Op::Root, a, a)
}

pub open spec fn exp<F: Fn(Op, Real, Real) -> Real>(f: F, a: Real) -> Real {
    apply(f, Op::Exp, a, a)
}

pub open spec fn round<F: Fn(Op, Real, Real) -> Real>(f: F, a: Real) -> Real {
    apply(f, Op::Round, a, a)
}

pub open spec fn floor<F: Fn(Op, Real, Real) -> Real>(f: F, a: Real) -> Real {
    apply(f, Op::Floor, a, a)
}

/// Ask the arithmetic.
pub fn ask<F: Fn(Op, Real, Real) -> Real>(f: &F, op: Op, a: Real, b: Real) -> (r: Real)
    requires
        steady(*f),
    ensures
        r == apply(*f, op, a, b),
{
    f(op, a, b)
}

impl Real {
    /// The sign bit.
    pub open spec fn negative(self) -> bool {
        self.bits >= 0x8000_0000
    }

    /// The bits without the sign; these order like the absolute value.
    pub open spec fn magnitude(self) -> int {
        if self.negative() {
            self.bits - 0x8000_0000
        } else {
            self.bits as int
        }
    }

    /// Not a number.
    pub open spec fn nan(self) -> bool {
        self.magnitude() > 0x7f80_0000
    }

    /// Neither infinite nor NaN.
    pub open spec fn finite(self) -> bool {
        self.magnitude() < 0x7f80_0000
    }

    /// An integer that orders numbers as their values do; both zeroes have rank
    /// zero.
    pub open spec fn rank(self) -> int {
        if self.negative() {
            -self.magnitude()
        } else {
            self.magnitude()
        }
    }

    /// `self < other`.
    pub open spec fn below(self, other: Real) -> bool {
        !self.nan() && !other.nan() && self.rank() < other.rank()
    }

    /// `self <= other`.
    pub open spec fn at_most(self, other: Real) -> bool {
        !self.nan() && !other.nan() && self.rank() <= other.rank()
    }

    /// The larger; a NaN gives way.
    pub open spec fn larger(self, other: Real) -> Real {
        if self.nan() || self.below(other) {
            other
        } else {
            self
        }
    }

    /// The smaller; a NaN gives way.
    pub open spec fn smaller(self, other: Real) -> Real {
        if self.nan() || other.below(self) {
            other
        } else {
            self
        }
    }

    /// Moved into `lo..=hi`; a NaN stays.
    pub open spec fn between(self, lo: Real, hi: Real) -> Real {
        if self.below(lo) {
            lo
        } else if hi.below(self) {
            hi
        } else {
            self
        }
    }

    /// The other sign.
    pub open spec fn opposite(self) -> Real {
        if self.negative() {
            Real { bits: (self.bits - 0x8000_0000) as u32 }
        } else {
            Real { bits: (self.bits + 0x8000_0000) as u32 }
        }
    }

    /// Without the sign.
    pub open spec fn unsigned(self) -> Real {
        if self.negative() {
            self.opposite()
        } else {
            self
        }
    }

    pub fn from_bits(bits: u32) -> (r: Real)
        ensures
            r.bits == bits,
    {
        Real { bits }
    }

    pub fn to_bits(self) -> (r: u32)
        ensures
            r == self.bits,
    {
        self.bits
    }

    pub fn is_nan(self) -> (r: bool)
        ensures
            r == self.nan(),
    {
        if self.bits >= 0x8000_0000 {
            self.bits > 0xff80_0000
        } else {
            self.bits > 0x7f80_0000
        }
    }

    pub fn is_finite(self) -> (r: bool)
        ensures
            r == self.finite(),
    {
        if self.bits >= 0x8000_0000 {
            self.bits < 0xff80_0000
        } else {
            self.bits < 0x7f80_0000
        }
    }

    fn ordered(self) -> (r: i64)
        ensures
            r == self.rank(),
    {
        if self.bits >= 0x8000_0000 {
            0x8000_0000i64 - self.bits as i64
        } else {
            self.bits as i64
        }
    }

    /// `self < other`.
    pub fn lt(self, other: Real) -> (r: bool)
        ensures
            r == self.below(other),
    {
        !self.is_nan() && !other.is_nan() && self.ordered() < other.ordered()
    }

    /// `self <= other`.
    pub fn le(self, other: Real) -> (r: bool)
        ensures
            r == self.at_most(other),
    {
        !self.is_nan() && !other.is_nan() && self.ordered() <= other.ordered()
    }

    /// The same number: NaN is none, and both zeroes are one.
    pub open spec fn equals(self, other: Real) -> bool {
        self.at_most(other) && other.at_most(self)
    }

    pub fn same(self, other: Real) -> (r: bool)
        ensures
            r == self.equals(other),
    {
        self.le(other) && other.le(self)
    }

    pub fn max(self, other: Real) -> (r: Real)
        ensures
            r == self.larger(other),
    {
        if self.is_nan() || self.lt(other) {
            other
        } else {
            self
        }
    }

    pub fn min(self, other: Real) -> (r: Real)
        ensures
            r == self.smaller(other),
    {
        if self.is_nan() || other.lt(self) {
            other
        } else {
            self
        }
    }

    pub fn clamp(self, lo: Real, hi: Real) -> (r: Real)
        requires
            lo.at_most(hi),
        ensures
            r == self.between(lo, hi),
    {
        if self.lt(lo) {
            lo
        } else if hi.lt(self) {
            hi
        } else {
            self
        }
    }

    pub fn neg(self) -> (r: Real)
        ensures
            r == self.opposite(),
    {
        if self.bits >= 0x8000_0000 {
            Real { bits: self.bits - 0x8000_0000 }
        } else {
            Real { bits: self.bits + 0x8000_0000 }
        }
    }

    pub fn abs(self) -> (r: Real)
        ensures
            r == self.unsigned(),
    {
        if self.bits >= 0x8000_0000 {
            self.neg()
        } else {
            self
        }
    }
}

impl Double {
    /// `self > 0`.
    pub open spec fn above_zero(self) -> bool {
        0 < self.bits <= 0x7ff0_0000_0000_0000
    }

    pub fn from_bits(bits: u64) -> (r: Double)
        ensures
            r.bits == bits,
    {
        Double { bits }
    }

    pub fn to_bits(self) -> (r: u64)
        ensures
            r == self.bits,
    {
        self.bits
    }

    pub fn is_positive(self) -> (r: bool)
        ensures
            r == self.above_zero(),
    {
        0 < self.bits && self.bits <= 0x7ff0_0000_0000_0000
    }
}

// ---------------------------------------------------------------------------
// Whole numbers
// ---------------------------------------------------------------------------

/// Position of the highest set bit.
pub open spec fn log2(n: nat) -> nat
    decreases n,
{
    if n <= 1 {
        0
    } else {
        log2(n / 2) + 1
    }
}

/// `n / d`, rounded to the nearest integer, halves to even.
pub open spec fn nearest(n: int, d: int) -> int {
    let q = n / d;
    let r = n % d;
    if 2 * r > d || (2 * r == d && q % 2 == 1) {
        q + 1
    } else {
        q
    }
}

/// The 24 leading bits of `n`, rounded to nearest even.
pub open spec fn leading(n: nat) -> int {
    let e = log2(n);
    if e <= 23 {
        (n * power2::pow2((23 - e) as nat)) as int
    } else {
        nearest(n as int, power2::pow2((e - 23) as nat) as int)
    }
}

/// The number nearest to a whole number.
pub open spec fn whole(n: nat) -> Real {
    if n == 0 {
        Real { bits: ZERO }
    } else {
        Real { bits: ((log2(n) + 126) * 0x80_0000 + leading(n)) as u32 }
    }
}

pub proof fn lemma_log2(n: nat)
    requires
        n >= 1,
    ensures
        power2::pow2(log2(n)) <= n < power2::pow2(log2(n) + 1),
    decreases n,
{
    power2::lemma_pow2_unfold(log2(n) + 1);
    vstd::arithmetic::power2::lemma2_to64();
    if n > 1 {
        lemma_log2(n / 2);
        power2::lemma_pow2_unfold(log2(n));
    }
}

pub proof fn lemma_pow2_order(a: nat, b: nat)
    requires
        a <= b,
    ensures
        power2::pow2(a) <= power2::pow2(b),
        power2::pow2(a) > 0,
        power2::pow2(b) == power2::pow2(a) * power2::pow2((b - a) as nat),
{
    power2::lemma_pow2_pos(a);
    power2::lemma_pow2_pos((b - a) as nat);
    power2::lemma_pow2_adds(a, (b - a) as nat);
    assert(power2::pow2(a) * power2::pow2((b - a) as nat) >= power2::pow2(a)) by (nonlinear_arith)
        requires
            power2::pow2(a) > 0,
            power2::pow2((b - a) as nat) > 0,
    ;
}

/// Two to the power of `k`.
pub fn power(k: u32) -> (r: u64)
    requires
        k < 64,
    ensures
        r == power2::pow2(k as nat),
        r >= 1,
{
    let mut r: u64 = 1;
    let mut n: u32 = 0;
    proof {
        vstd::arithmetic::power2::lemma2_to64();
    }
    while n < k
        invariant
            n <= k < 64,
            r >= 1,
            r == power2::pow2(n as nat),
        decreases k - n,
    {
        proof {
            power2::lemma_pow2_unfold(n as nat + 1);
            lemma_pow2_order(n as nat + 1, 63);
            vstd::arithmetic::power2::lemma2_to64_rest();
        }
        r = r * 2;
        n = n + 1;
    }
    r
}

impl Real {
    /// The number nearest to `n`.
    pub fn from_int(n: u64) -> (r: Real)
        ensures
            r == whole(n as nat),
    {
        if n == 0 {
            return Real { bits: ZERO };
        }
        let mut e: u32 = 0;
        let mut top: u64 = n;
        let mut unit: u64 = 1;
        proof {
            vstd::arithmetic::power2::lemma2_to64();
        }
        while top > 1
            invariant
                top >= 1,
                n >= 1,
                log2(n as nat) == e + log2(top as nat),
                unit == power2::pow2(e as nat),
                1 <= unit <= n,
                top == n as int / unit as int,
                e < 64,
            decreases top,
        {
            proof {
                power2::lemma_pow2_unfold(e as nat + 1);
                vstd::arithmetic::div_mod::lemma_div_denominator(n as int, unit as int, 2);
                assert(unit as int * 2 <= n as int) by (nonlinear_arith)
                    requires
                        top == n as int / unit as int,
                        top >= 2,
                        unit >= 1,
                {
                    vstd::arithmetic::div_mod::lemma_fundamental_div_mod(n as int, unit as int);
                    vstd::arithmetic::div_mod::lemma_mod_bound(n as int, unit as int);
                }
                vstd::arithmetic::power2::lemma2_to64();
                if e >= 63 {
                    lemma_pow2_order(63, e as nat);
                }
            }
            top = top / 2;
            unit = unit * 2;
            e = e + 1;
        }
        proof {
            lemma_log2(n as nat);
            vstd::arithmetic::power2::lemma2_to64();
            vstd::arithmetic::power2::lemma2_to64_rest();
        }
        let m: u64;
        if e <= 23 {
            let scale: u64 = power(23 - e);
            proof {
                lemma_pow2_order(e as nat + 1, 24);
                power2::lemma_pow2_adds(e as nat + 1, (23 - e) as nat);
                assert(n * scale < power2::pow2(e as nat + 1) * power2::pow2((23 - e) as nat))
                    by (nonlinear_arith)
                    requires
                        n < power2::pow2(e as nat + 1),
                        scale == power2::pow2((23 - e) as nat),
                        scale > 0,
                ;
                assert(power2::pow2(24) == 0x100_0000);
            }
            m = n * scale;
        } else {
            let scale: u64 = power(e - 23);
            let q: u64 = n / scale;
            let r: u64 = n % scale;
            proof {
                power2::lemma_pow2_adds((e - 23) as nat, 24);
                assert((e - 23) as nat + 24 == e as nat + 1);
                assert(power2::pow2(24) == 0x100_0000);
                assert(q < 0x100_0000) by (nonlinear_arith)
                    requires
                        n < scale * 0x100_0000,
                        q == n as int / scale as int,
                        scale > 0,
                {
                    vstd::arithmetic::div_mod::lemma_fundamental_div_mod(n as int, scale as int);
                    vstd::arithmetic::div_mod::lemma_mod_bound(n as int, scale as int);
                }
            }
            m = if r > scale - r || (r == scale - r && q % 2 == 1) {
                q + 1
            } else {
                q
            };
        }
        proof {
            assert(m == leading(n as nat));
            assert(m <= 0x100_0000);
        }
        Real { bits: (e + 126) * 0x80_0000 + m as u32 }
    }
}

impl Real {
    /// The exponent field.
    pub open spec fn exponent(self) -> int {
        self.magnitude() / 0x80_0000
    }

    /// The significand of a normal number, with its leading bit.
    pub open spec fn significand(self) -> int {
        self.magnitude() % 0x80_0000 + 0x80_0000
    }

    /// The value of a finite number without its sign, in units of the smallest
    /// positive number.
    pub open spec fn value(self) -> int {
        if self.exponent() == 0 {
            self.magnitude()
        } else {
            self.significand() * power2::pow2((self.exponent() - 1) as nat)
        }
    }

    /// The whole number below, with everything negative and NaN going to zero
    /// and everything too large to the largest.
    pub open spec fn floored(self) -> int {
        if self.nan() || self.negative() || self.exponent() < 127 {
            0
        } else if self.exponent() < 150 {
            self.significand() / (power2::pow2((150 - self.exponent()) as nat) as int)
        } else if self.exponent() < 191 {
            self.significand() * power2::pow2((self.exponent() - 150) as nat)
        } else {
            u64::MAX as int
        }
    }

    /// The whole number below, as far as a `u64` holds it.
    pub fn to_int(self) -> (r: u64)
        ensures
            r == self.floored(),
    {
        if self.is_nan() || self.bits >= 0x8000_0000 {
            return 0;
        }
        let e: u32 = self.bits / 0x80_0000;
        let m: u64 = (self.bits % 0x80_0000 + 0x80_0000) as u64;
        if e < 127 {
            return 0;
        }
        if e >= 191 {
            return u64::MAX;
        }
        let gap: u32 = if e < 150 {
            150 - e
        } else {
            e - 150
        };
        let scale: u64 = power(gap);
        proof {
            lemma_pow2_order(gap as nat, 40);
            vstd::arithmetic::power2::lemma2_to64_rest();
        }
        if e < 150 {
            m / scale
        } else {
            assert(m * scale <= u64::MAX) by (nonlinear_arith)
                requires
                    m < 0x100_0000,
                    scale <= 0x100_0000_0000,
            ;
            m * scale
        }
    }

    /// The whole number towards zero, with NaN going to zero and everything too
    /// large to the nearest that an `i32` holds.
    pub open spec fn truncated(self) -> int {
        if self.nan() {
            0
        } else if self.negative() {
            let n = self.opposite().floored();
            if n > 0x8000_0000 {
                i32::MIN as int
            } else {
                -n
            }
        } else if self.floored() > i32::MAX {
            i32::MAX as int
        } else {
            self.floored()
        }
    }

    /// The whole number towards zero, as far as an `i32` holds it.
    pub fn to_i32(self) -> (r: i32)
        ensures
            r == self.truncated(),
    {
        if self.is_nan() {
            return 0;
        }
        if self.bits >= 0x8000_0000 {
            let n: u64 = self.neg().to_int();
            if n >= 0x8000_0000 {
                i32::MIN
            } else {
                -(n as i32)
            }
        } else {
            let n: u64 = self.to_int();
            if n > i32::MAX as u64 {
                i32::MAX
            } else {
                n as i32
            }
        }
    }
}

} // verus!
