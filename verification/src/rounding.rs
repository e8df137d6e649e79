//! What can be relied on of rounded arithmetic.
//!
//! A finite number is a whole number of quanta, the smallest positive number
//! being one quantum. Rounded arithmetic gives a result that lies on the same
//! side of every number as the true one, and never swaps two results: so a
//! result that needs no rounding is exact, and bounds and orders survive.

use vstd::prelude::*;
use vstd::arithmetic::power2;
use crate::number;
use crate::number::{Op, Real, HALF, ONE, TWO, ZERO};

verus! {

/// One, in quanta.
pub open spec fn unit() -> int {
    power2::pow2(149) as int
}

impl Real {
    /// The value of a finite number, in quanta.
    pub open spec fn quanta(self) -> int {
        if self.negative() {
            -self.value()
        } else {
            self.value()
        }
    }
}

/// The operation has a true outcome.
pub open spec fn defined(op: Op, a: Real, b: Real) -> bool {
    a.finite() && b.finite() && match op {
        Op::Plus | Op::Minus | Op::Times => true,
        Op::Over => b.quanta() != 0,
        _ => false,
    }
}

/// The true outcome in quanta: a numerator, and a denominator above zero.
pub open spec fn outcome(op: Op, a: Real, b: Real) -> (int, int) {
    let (x, y) = (a.quanta(), b.quanta());
    match op {
        Op::Plus => (x + y, 1),
        Op::Minus => (x - y, 1),
        Op::Times => (x * y, unit()),
        _ => if y > 0 {
            (x * unit(), y)
        } else {
            (-(x * unit()), -y)
        },
    }
}

/// The first fraction is at most the second.
pub open spec fn no_more(a: (int, int), b: (int, int)) -> bool {
    a.0 * b.1 <= b.0 * a.1
}

/// A result does not pass any number that the true outcome does not pass.
pub open spec fn keeps_sides(op: Op, a: Real, b: Real, r: Real, c: Real) -> bool {
    &&& no_more(outcome(op, a, b), (c.quanta(), 1)) ==> r.at_most(c)
    &&& no_more((c.quanta(), 1), outcome(op, a, b)) ==> c.at_most(r)
}

/// The root does not pass any number that the true root does not pass.
pub open spec fn keeps_root(a: Real, r: Real, c: Real) -> bool {
    &&& a.quanta() * unit() <= c.quanta() * c.quanta() ==> r.at_most(c)
    &&& c.quanta() * c.quanta() <= a.quanta() * unit() ==> c.at_most(r)
}

/// The arithmetic rounds: it does so in one direction or the other, it keeps the
/// order of true outcomes, and it does not tell plus from minus.
pub open spec fn rounds<F: Fn(Op, Real, Real) -> Real>(f: F) -> bool {
    &&& forall|op: Op, a: Real, b: Real, c: Real|
        #![trigger keeps_sides(op, a, b, number::apply(f, op, a, b), c)]
        defined(op, a, b) && c.finite() ==> keeps_sides(op, a, b, number::apply(f, op, a, b), c)
    &&& forall|op: Op, a: Real, b: Real, oq: Op, c: Real, d: Real|
        #![trigger number::apply(f, op, a, b), number::apply(f, oq, c, d), no_more(outcome(op, a, b), outcome(oq, c, d))]
        defined(op, a, b) && defined(oq, c, d) && no_more(outcome(op, a, b), outcome(oq, c, d))
            ==> number::apply(f, op, a, b).at_most(number::apply(f, oq, c, d))
    &&& forall|op: Op, a: Real, b: Real, oq: Op, c: Real, d: Real|
        #![trigger mirrored(op, a, b, oq, c, d), number::apply(f, op, a, b), number::apply(f, oq, c, d)]
        defined(op, a, b) && defined(oq, c, d) && mirrored(op, a, b, oq, c, d) ==> number::apply(
            f,
            op,
            a,
            b,
        ).equals(number::apply(f, oq, c, d).opposite())
    &&& forall|a: Real, c: Real|
        #![trigger keeps_root(a, number::apply(f, Op::Root, a, a), c)]
        a.finite() && c.finite() && a.quanta() >= 0 && c.quanta() >= 0 ==> keeps_root(
            a,
            number::apply(f, Op::Root, a, a),
            c,
        )
}

/// One true outcome is the other with the opposite sign.
pub open spec fn mirrored(op: Op, a: Real, b: Real, oq: Op, c: Real, d: Real) -> bool {
    outcome(op, a, b).0 * outcome(oq, c, d).1 == -(outcome(oq, c, d).0 * outcome(op, a, b).1)
}

/// There is a number of that many quanta.
pub open spec fn representable(q: int) -> bool {
    exists|c: Real| c.finite() && #[trigger] c.quanta() == q
}

/// The number of that many quanta.
pub open spec fn number_at(q: int) -> Real {
    choose|c: Real| c.finite() && #[trigger] c.quanta() == q
}

// ---------------------------------------------------------------------------
// Quanta
// ---------------------------------------------------------------------------

/// The significand of any finite number, and the power of two that it counts.
spec fn shape(m: int) -> (int, nat) {
    let e = m / 0x80_0000;
    if e == 0 {
        (m, 0)
    } else {
        (m % 0x80_0000 + 0x80_0000, (e - 1) as nat)
    }
}

spec fn worth(m: int) -> int {
    shape(m).0 * power2::pow2(shape(m).1)
}

proof fn lemma_value(a: Real)
    requires
        a.finite(),
    ensures
        a.value() == worth(a.magnitude()),
        a.value() >= 0,
        a.value() == 0 <==> a.magnitude() == 0,
{
    let m = a.magnitude();
    power2::lemma_pow2_pos(shape(m).1);
    vstd::arithmetic::power2::lemma2_to64();
    let (s, p) = (shape(m).0, power2::pow2(shape(m).1) as int);
    assert(s * p >= 0 && (s * p == 0 <==> s == 0)) by (nonlinear_arith)
        requires
            s >= 0,
            p > 0,
    ;
    assert(m * 1 == m);
}

proof fn lemma_worth_order(m: int, n: int)
    requires
        0 <= m < n,
    ensures
        worth(m) < worth(n),
{
    let ((s, a), (t, b)) = (shape(m), shape(n));
    power2::lemma_pow2_pos(a);
    power2::lemma_pow2_pos(b);
    let (p, q) = (power2::pow2(a) as int, power2::pow2(b) as int);
    if m / 0x80_0000 == n / 0x80_0000 || (m / 0x80_0000 <= 1 && n / 0x80_0000 <= 1) {
        assert(a == b && s < t);
        assert(s * p < t * p) by (nonlinear_arith)
            requires
                s < t,
                p > 0,
        ;
    } else {
        assert(a < b);
        number::lemma_pow2_order(a + 1, b);
        power2::lemma_pow2_unfold(a + 1);
        assert(s * p < 0x100_0000 * p) by (nonlinear_arith)
            requires
                s < 0x100_0000,
                p > 0,
        ;
        assert(0x80_0000 * q <= t * q) by (nonlinear_arith)
            requires
                0x80_0000 <= t,
                q > 0,
        ;
    }
}

/// The order of numbers is the order of their values.
pub proof fn lemma_order(a: Real, b: Real)
    requires
        a.finite(),
        b.finite(),
    ensures
        a.quanta() <= b.quanta() <==> a.rank() <= b.rank(),
        a.quanta() < b.quanta() <==> a.rank() < b.rank(),
        a.at_most(b) <==> a.quanta() <= b.quanta(),
        a.below(b) <==> a.quanta() < b.quanta(),
        a.equals(b) <==> a.quanta() == b.quanta(),
{
    lemma_value(a);
    lemma_value(b);
    let (m, n) = (a.magnitude(), b.magnitude());
    if m < n {
        lemma_worth_order(m, n);
    } else if n < m {
        lemma_worth_order(n, m);
    }
}

/// The other sign, the other value.
pub proof fn lemma_opposite(a: Real)
    requires
        a.finite(),
    ensures
        a.opposite().finite(),
        a.opposite().quanta() == -a.quanta(),
        a.unsigned().finite(),
        a.unsigned().quanta() == (if a.quanta() < 0 { -a.quanta() } else { a.quanta() }),
{
    let b = a.opposite();
    assert(b.magnitude() == a.magnitude());
    lemma_value(a);
    lemma_value(b);
}

/// The constants are what they are called.
pub proof fn lemma_constants()
    ensures
        unit() > 0,
        (Real { bits: ZERO }).finite() && (Real { bits: ZERO }).quanta() == 0,
        (Real { bits: ONE }).finite() && (Real { bits: ONE }).quanta() == unit(),
        (Real { bits: TWO }).finite() && (Real { bits: TWO }).quanta() == 2 * unit(),
        (Real { bits: HALF }).finite() && 2 * (Real { bits: HALF }).quanta() == unit(),
{
    power2::lemma_pow2_pos(149);
    power2::lemma_pow2_adds(23, 126);
    power2::lemma_pow2_unfold(150);
    power2::lemma_pow2_unfold(149);
    power2::lemma_pow2_adds(23, 127);
    power2::lemma_pow2_adds(23, 125);
    power2::lemma_pow2_unfold(127);
    power2::lemma_pow2_unfold(126);
    vstd::arithmetic::power2::lemma2_to64();
    assert((Real { bits: ONE }).exponent() == 127 && (Real { bits: ONE }).significand() == 0x80_0000);
    assert((Real { bits: TWO }).exponent() == 128 && (Real { bits: TWO }).significand() == 0x80_0000);
    assert((Real { bits: HALF }).exponent() == 126 && (Real { bits: HALF }).significand() == 0x80_0000);
}

/// Up to 24 leading bits, behind as many zeroes as the largest number has, make
/// a number.
pub proof fn lemma_representable(n: int, k: nat)
    requires
        -0x100_0000 <= n <= 0x100_0000,
        k <= 250,
    ensures
        representable(n * power2::pow2(k)),
{
    let p = power2::pow2(k) as int;
    if n < 0 {
        lemma_positive(-n, k);
        let c = choose|c: Real| c.finite() && #[trigger] c.quanta() == (-n) * p;
        lemma_opposite(c);
        assert((-n) * p == -(n * p)) by (nonlinear_arith);
        assert(c.opposite().quanta() == n * p);
    } else {
        lemma_positive(n, k);
    }
}

/// The same, with the leading bit brought into place.
proof fn lemma_positive(n: int, k: nat)
    requires
        0 <= n <= 0x100_0000,
        k <= 250,
    ensures
        representable(n * power2::pow2(k)),
    decreases k,
{
    power2::lemma_pow2_pos(k);
    vstd::arithmetic::power2::lemma2_to64();
    if n == 0 {
        assert(n * power2::pow2(k) == 0) by (nonlinear_arith)
            requires
                n == 0,
        ;
        lemma_constants();
        assert((Real { bits: ZERO }).quanta() == 0);
    } else if n == 0x100_0000 {
        power2::lemma_pow2_unfold(k + 1);
        assert(n * power2::pow2(k) == 0x80_0000 * power2::pow2(k + 1)) by (nonlinear_arith)
            requires
                n == 0x100_0000,
                power2::pow2(k + 1) == 2 * power2::pow2(k),
        ;
        let c = Real { bits: ((k + 2) * 0x80_0000) as u32 };
        assert(c.magnitude() == (k + 2) * 0x80_0000);
        assert(c.exponent() == k + 2 && c.significand() == 0x80_0000);
        assert(c.finite() && c.quanta() == n * power2::pow2(k));
    } else if n >= 0x80_0000 {
        let c = Real { bits: ((k + 1) * 0x80_0000 + (n - 0x80_0000)) as u32 };
        assert(c.magnitude() == (k + 1) * 0x80_0000 + (n - 0x80_0000));
        assert(c.exponent() == k + 1 && c.significand() == n);
        assert(c.finite() && c.quanta() == n * power2::pow2(k));
    } else if k == 0 {
        let c = Real { bits: n as u32 };
        assert(c.exponent() == 0 && c.quanta() == n);
        assert(n * power2::pow2(k) == n) by (nonlinear_arith)
            requires
                power2::pow2(k) == 1,
        ;
        assert(c.finite() && c.quanta() == n * power2::pow2(k));
    } else {
        power2::lemma_pow2_unfold(k);
        let h = power2::pow2((k - 1) as nat);
        assert(n * power2::pow2(k) == (2 * n) * h) by (nonlinear_arith)
            requires
                power2::pow2(k) == 2 * h,
        ;
        lemma_positive(2 * n, (k - 1) as nat);
    }
}

/// Whole numbers up to 2^24 are exact.
pub proof fn lemma_whole(n: nat)
    requires
        n <= 0x100_0000,
    ensures
        number::whole(n).finite(),
        !number::whole(n).negative(),
        number::whole(n).quanta() == n * unit(),
{
    lemma_constants();
    if n > 0 {
        let e = number::log2(n);
        number::lemma_log2(n);
        vstd::arithmetic::power2::lemma2_to64();
        if e > 24 {
            number::lemma_pow2_order(25, e);
        }
        let c = number::whole(n);
        if e <= 23 {
            let g = (23 - e) as nat;
            let m = n * power2::pow2(g);
            power2::lemma_pow2_adds(e, g);
            power2::lemma_pow2_adds(e + 1, g);
            power2::lemma_pow2_pos(g);
            assert(0x80_0000 <= m < 0x100_0000) by (nonlinear_arith)
                requires
                    m == n * power2::pow2(g),
                    power2::pow2(e) * power2::pow2(g) == 0x80_0000,
                    power2::pow2(e + 1) * power2::pow2(g) == 0x100_0000,
                    power2::pow2(e) <= n < power2::pow2(e + 1),
                    power2::pow2(g) > 0,
            ;
            assert(c.magnitude() == (e + 126) * 0x80_0000 + m);
            assert(c.exponent() == e + 127 && c.significand() == m);
            power2::lemma_pow2_adds(g, e + 126);
            assert(m * power2::pow2(e + 126) == n * power2::pow2(149)) by (nonlinear_arith)
                requires
                    m == n * power2::pow2(g),
                    power2::pow2(149) == power2::pow2(g) * power2::pow2(e + 126),
            ;
        } else {
            assert(e == 24 && n == 0x100_0000);
            assert(number::leading(n) == 0x80_0000);
            assert(c.magnitude() == 150 * 0x80_0000 + 0x80_0000);
            assert(c.exponent() == 151 && c.significand() == 0x80_0000);
            power2::lemma_pow2_adds(1, 149);
            assert(0x80_0000 * power2::pow2(150) == 0x100_0000 * power2::pow2(149));
        }
    } else {
        assert(n * unit() == 0) by (nonlinear_arith)
            requires
                n == 0,
        ;
    }
}

// ---------------------------------------------------------------------------
// Results
// ---------------------------------------------------------------------------

/// What the true outcome does not pass, the result does not pass.
pub proof fn lemma_sides<F: Fn(Op, Real, Real) -> Real>(f: F, op: Op, a: Real, b: Real, c: Real)
    requires
        rounds(f),
        defined(op, a, b),
        c.finite(),
    ensures
        !number::apply(f, op, a, b).nan(),
        no_more(outcome(op, a, b), (c.quanta(), 1)) ==> number::apply(f, op, a, b).at_most(c),
        no_more((c.quanta(), 1), outcome(op, a, b)) ==> c.at_most(number::apply(f, op, a, b)),
{
    assert(keeps_sides(op, a, b, number::apply(f, op, a, b), c));
}

/// What needs no rounding is exact.
pub proof fn lemma_exact<F: Fn(Op, Real, Real) -> Real>(f: F, op: Op, a: Real, b: Real, q: int)
    requires
        rounds(f),
        defined(op, a, b),
        representable(q),
        outcome(op, a, b).0 == q * outcome(op, a, b).1,
    ensures
        number::apply(f, op, a, b).finite(),
        number::apply(f, op, a, b).quanta() == q,
{
    let c = choose|c: Real| c.finite() && #[trigger] c.quanta() == q;
    lemma_sides(f, op, a, b, c);
    let r = number::apply(f, op, a, b);
    assert(r.rank() == c.rank());
    lemma_order(r, c);
}

/// The order of true outcomes is kept.
pub proof fn lemma_monotone<F: Fn(Op, Real, Real) -> Real>(
    f: F,
    op: Op,
    a: Real,
    b: Real,
    oq: Op,
    c: Real,
    d: Real,
)
    requires
        rounds(f),
        defined(op, a, b),
        defined(oq, c, d),
        no_more(outcome(op, a, b), outcome(oq, c, d)),
    ensures
        number::apply(f, op, a, b).at_most(number::apply(f, oq, c, d)),
{
}

/// A number taken from itself leaves nothing.
pub proof fn lemma_self<F: Fn(Op, Real, Real) -> Real>(f: F, a: Real)
    requires
        rounds(f),
        a.finite(),
    ensures
        number::minus(f, a, a).finite(),
        number::minus(f, a, a).quanta() == 0,
        a.quanta() != 0 ==> number::over(f, a, a).finite() && number::over(f, a, a).quanta()
            == unit(),
{
    lemma_constants();
    assert((Real { bits: ZERO }).quanta() == 0);
    lemma_exact(f, Op::Minus, a, a, 0);
    if a.quanta() != 0 {
        assert((Real { bits: ONE }).quanta() == unit());
        let (x, u) = (a.quanta(), unit());
        assert(-(x * u) == u * -x && x * u == u * x) by (nonlinear_arith);
        lemma_exact(f, Op::Over, a, a, u);
    }
}

/// Nothing times anything, nothing over anything, and anything plus nothing.
pub proof fn lemma_nothing<F: Fn(Op, Real, Real) -> Real>(f: F, z: Real, a: Real)
    requires
        rounds(f),
        z.finite(),
        z.quanta() == 0,
        a.finite(),
    ensures
        number::times(f, z, a).finite() && number::times(f, z, a).quanta() == 0,
        number::times(f, a, z).finite() && number::times(f, a, z).quanta() == 0,
        number::plus(f, a, z).finite() && number::plus(f, a, z).quanta() == a.quanta(),
        number::minus(f, a, z).finite() && number::minus(f, a, z).quanta() == a.quanta(),
        a.quanta() != 0 ==> number::over(f, z, a).finite() && number::over(f, z, a).quanta() == 0,
{
    lemma_constants();
    let (x, u) = (a.quanta(), unit());
    assert(0 * x == 0 && x * 0 == 0 && 0 * u == 0 && 0 * -x == 0) by (nonlinear_arith);
    assert(z.quanta() == 0);
    lemma_exact(f, Op::Times, z, a, 0);
    lemma_exact(f, Op::Times, a, z, 0);
    assert(a.quanta() == x);
    lemma_exact(f, Op::Plus, a, z, x);
    lemma_exact(f, Op::Minus, a, z, x);
    if x != 0 {
        lemma_exact(f, Op::Over, z, a, 0);
    }
}

/// Once, and over one.
pub proof fn lemma_once<F: Fn(Op, Real, Real) -> Real>(f: F, a: Real)
    requires
        rounds(f),
        a.finite(),
    ensures
        number::times(f, a, Real { bits: ONE }).finite(),
        number::times(f, a, Real { bits: ONE }).quanta() == a.quanta(),
        number::times(f, Real { bits: ONE }, a).finite(),
        number::times(f, Real { bits: ONE }, a).quanta() == a.quanta(),
        number::over(f, a, Real { bits: ONE }).finite(),
        number::over(f, a, Real { bits: ONE }).quanta() == a.quanta(),
{
    lemma_constants();
    let one = Real { bits: ONE };
    assert(a.quanta() * one.quanta() == one.quanta() * a.quanta()) by (nonlinear_arith);
    assert(a.finite() && a.quanta() == a.quanta());
    lemma_exact(f, Op::Times, a, one, a.quanta());
    lemma_exact(f, Op::Times, one, a, a.quanta());
    lemma_exact(f, Op::Over, a, one, a.quanta());
}

/// The true sum or difference.
pub open spec fn sum(op: Op, a: Real, b: Real) -> int {
    if op == Op::Plus {
        a.quanta() + b.quanta()
    } else {
        a.quanta() - b.quanta()
    }
}

/// Sums and differences keep their order.
pub proof fn lemma_sums<F: Fn(Op, Real, Real) -> Real>(
    f: F,
    op: Op,
    a: Real,
    b: Real,
    oq: Op,
    c: Real,
    d: Real,
)
    requires
        rounds(f),
        op == Op::Plus || op == Op::Minus,
        oq == Op::Plus || oq == Op::Minus,
        a.finite() && b.finite() && c.finite() && d.finite(),
        sum(op, a, b) <= sum(oq, c, d),
    ensures
        number::apply(f, op, a, b).at_most(number::apply(f, oq, c, d)),
{
    assert(outcome(op, a, b) == (sum(op, a, b), 1int));
    assert(outcome(oq, c, d) == (sum(oq, c, d), 1int));
    lemma_monotone(f, op, a, b, oq, c, d);
}

/// Products keep their order.
pub proof fn lemma_products<F: Fn(Op, Real, Real) -> Real>(
    f: F,
    a: Real,
    b: Real,
    c: Real,
    d: Real,
)
    requires
        rounds(f),
        a.finite() && b.finite() && c.finite() && d.finite(),
        a.quanta() * b.quanta() <= c.quanta() * d.quanta(),
    ensures
        number::times(f, a, b).at_most(number::times(f, c, d)),
{
    lemma_constants();
    let (x, y, u) = (a.quanta() * b.quanta(), c.quanta() * d.quanta(), unit());
    assert(x * u <= y * u) by (nonlinear_arith)
        requires
            x <= y,
            u > 0,
    ;
    lemma_monotone(f, Op::Times, a, b, Op::Times, c, d);
}

/// Quotients by the same divisor keep their order.
pub proof fn lemma_quotients<F: Fn(Op, Real, Real) -> Real>(f: F, a: Real, c: Real, b: Real)
    requires
        rounds(f),
        a.finite() && b.finite() && c.finite(),
        b.quanta() > 0,
        a.quanta() <= c.quanta(),
    ensures
        number::over(f, a, b).at_most(number::over(f, c, b)),
{
    lemma_constants();
    let (x, y, u, d) = (a.quanta(), c.quanta(), unit(), b.quanta());
    assert((x * u) * d <= (y * u) * d) by (nonlinear_arith)
        requires
            x <= y,
            u > 0,
            d > 0,
    ;
    lemma_monotone(f, Op::Over, a, b, Op::Over, c, b);
}

/// A sum or difference between two numbers stays between them.
pub proof fn lemma_sum_side<F: Fn(Op, Real, Real) -> Real>(f: F, op: Op, a: Real, b: Real, c: Real)
    requires
        rounds(f),
        op == Op::Plus || op == Op::Minus,
        a.finite() && b.finite() && c.finite(),
    ensures
        !number::apply(f, op, a, b).nan(),
        sum(op, a, b) <= c.quanta() ==> number::apply(f, op, a, b).at_most(c),
        c.quanta() <= sum(op, a, b) ==> c.at_most(number::apply(f, op, a, b)),
{
    assert(outcome(op, a, b) == (sum(op, a, b), 1int));
    lemma_sides(f, op, a, b, c);
}

/// So does a product.
pub proof fn lemma_product_side<F: Fn(Op, Real, Real) -> Real>(f: F, a: Real, b: Real, c: Real)
    requires
        rounds(f),
        a.finite() && b.finite() && c.finite(),
    ensures
        !number::times(f, a, b).nan(),
        a.quanta() * b.quanta() <= c.quanta() * unit() ==> number::times(f, a, b).at_most(c),
        c.quanta() * unit() <= a.quanta() * b.quanta() ==> c.at_most(number::times(f, a, b)),
{
    lemma_sides(f, Op::Times, a, b, c);
}

/// So does a quotient.
pub proof fn lemma_quotient_side<F: Fn(Op, Real, Real) -> Real>(f: F, a: Real, b: Real, c: Real)
    requires
        rounds(f),
        a.finite() && b.finite() && c.finite(),
        b.quanta() > 0,
    ensures
        !number::over(f, a, b).nan(),
        a.quanta() * unit() <= c.quanta() * b.quanta() ==> number::over(f, a, b).at_most(c),
        c.quanta() * b.quanta() <= a.quanta() * unit() ==> c.at_most(number::over(f, a, b)),
{
    lemma_sides(f, Op::Over, a, b, c);
}

/// A sum or difference that needs no rounding.
pub proof fn lemma_sum_exact<F: Fn(Op, Real, Real) -> Real>(f: F, op: Op, a: Real, b: Real)
    requires
        rounds(f),
        op == Op::Plus || op == Op::Minus,
        a.finite() && b.finite(),
        representable(sum(op, a, b)),
    ensures
        number::apply(f, op, a, b).finite(),
        number::apply(f, op, a, b).quanta() == sum(op, a, b),
{
    assert(outcome(op, a, b) == (sum(op, a, b), 1int));
    lemma_exact(f, op, a, b, sum(op, a, b));
}

/// A product that needs no rounding.
pub proof fn lemma_product_exact<F: Fn(Op, Real, Real) -> Real>(f: F, a: Real, b: Real, q: int)
    requires
        rounds(f),
        a.finite() && b.finite(),
        representable(q),
        a.quanta() * b.quanta() == q * unit(),
    ensures
        number::times(f, a, b).finite(),
        number::times(f, a, b).quanta() == q,
{
    lemma_exact(f, Op::Times, a, b, q);
}

/// A quotient that needs no rounding.
pub proof fn lemma_quotient_exact<F: Fn(Op, Real, Real) -> Real>(f: F, a: Real, b: Real, q: int)
    requires
        rounds(f),
        a.finite() && b.finite(),
        b.quanta() > 0,
        representable(q),
        a.quanta() * unit() == q * b.quanta(),
    ensures
        number::over(f, a, b).finite(),
        number::over(f, a, b).quanta() == q,
{
    lemma_exact(f, Op::Over, a, b, q);
}

/// Opposite factors give opposite products.
pub proof fn lemma_mirrored<F: Fn(Op, Real, Real) -> Real>(f: F, a: Real, c: Real, b: Real)
    requires
        rounds(f),
        a.finite() && b.finite() && c.finite(),
        a.quanta() == -c.quanta(),
    ensures
        number::times(f, a, b).equals(number::times(f, c, b).opposite()),
{
    let (x, y, u) = (a.quanta(), b.quanta(), unit());
    assert((x * y) * u == -(((-x) * y) * u)) by (nonlinear_arith);
    assert(mirrored(Op::Times, a, b, Op::Times, c, b));
}

/// The whole part of a number that is not below zero.
pub proof fn lemma_floored(a: Real)
    requires
        a.finite(),
        0 <= a.quanta() <= 0x100_0000 * unit(),
    ensures
        0 <= a.floored() <= 0x100_0000,
        a.floored() * unit() <= a.quanta() < (a.floored() + 1) * unit(),
{
    lemma_constants();
    lemma_value(a);
    let (e, m, u) = (a.exponent(), a.significand(), unit());
    vstd::arithmetic::power2::lemma2_to64();
    assert(0 * u == 0 && (0 + 1) * u == u) by (nonlinear_arith);
    if a.negative() {
        assert(a.quanta() == 0);
        assert(a.magnitude() == 0);
    } else if e < 127 {
        if e > 0 {
            power2::lemma_pow2_adds(24, 125);
            number::lemma_pow2_order((e - 1) as nat, 125);
            let (p, q) = (power2::pow2((e - 1) as nat) as int, power2::pow2(125) as int);
            power2::lemma_pow2_pos((e - 1) as nat);
            assert(0 <= m * p < 0x100_0000 * q) by (nonlinear_arith)
                requires
                    0 <= m < 0x100_0000,
                    0 < p <= q,
            ;
            assert(a.quanta() < u);
        } else {
            number::lemma_pow2_order(23, 149);
        }
    } else if e < 150 {
        let (p, q) = (power2::pow2((e - 1) as nat) as int, power2::pow2((150 - e) as nat) as int);
        power2::lemma_pow2_adds((e - 1) as nat, (150 - e) as nat);
        power2::lemma_pow2_pos((e - 1) as nat);
        power2::lemma_pow2_pos((150 - e) as nat);
        let n = m / q;
        vstd::arithmetic::div_mod::lemma_fundamental_div_mod(m, q);
        vstd::arithmetic::div_mod::lemma_mod_bound(m, q);
        let r = m % q;
        assert(n * (p * q) <= m * p < (n + 1) * (p * q) && 0 <= n <= 0x100_0000) by (nonlinear_arith)
            requires
                m == q * n + r,
                0 <= r < q,
                p > 0,
                q >= 1,
                0 <= m <= 0x100_0000,
        ;
    } else {
        let (p, q) = (power2::pow2((e - 1) as nat) as int, power2::pow2((e - 150) as nat) as int);
        power2::lemma_pow2_adds(149, (e - 150) as nat);
        power2::lemma_pow2_pos((e - 150) as nat);
        assert(m * (u * q) == (m * q) * u && (m * q + 1) * u == (m * q) * u + u) by (nonlinear_arith);
        if e >= 191 {
            number::lemma_pow2_order(31, (e - 150) as nat);
            assert((m * q) * u > 0x100_0000 * u) by (nonlinear_arith)
                requires
                    m >= 0x80_0000,
                    q >= 0x8000_0000,
                    u > 0,
            ;
        }
        assert(m * q <= 0x100_0000) by (nonlinear_arith)
            requires
                (m * q) * u <= 0x100_0000 * u,
                u > 0,
        ;
        assert(0 <= m * q) by (nonlinear_arith)
            requires
                m >= 0,
                q > 0,
        ;
    }
}

/// A power of two, in quanta.
pub open spec fn two(k: int) -> int {
    power2::pow2((149 + k) as nat) as int
}

/// The powers of two are numbers.
pub proof fn lemma_two(k: int)
    requires
        -149 <= k <= 101,
    ensures
        two(k) > 0,
        representable(two(k)),
        two(0) == unit(),
        k > -149 ==> two(k) == 2 * two(k - 1),
{
    power2::lemma_pow2_pos((149 + k) as nat);
    lemma_representable(1, (149 + k) as nat);
    assert(1 * two(k) == two(k));
    if k > -149 {
        power2::lemma_pow2_unfold((149 + k) as nat);
    }
}

/// Exponents add up.
pub proof fn lemma_two_product(j: int, k: int)
    requires
        -149 <= j,
        -149 <= k,
        -149 <= j + k,
    ensures
        two(j) * two(k) == two(j + k) * unit(),
{
    power2::lemma_pow2_adds((149 + j) as nat, (149 + k) as nat);
    power2::lemma_pow2_adds((149 + j + k) as nat, 149);
    assert((149 + j) as nat + (149 + k) as nat == (149 + j + k) as nat + 149);
}

/// A larger exponent, a larger power.
pub proof fn lemma_two_order(j: int, k: int)
    requires
        -149 <= j <= k,
    ensures
        two(j) <= two(k),
{
    number::lemma_pow2_order((149 + j) as nat, (149 + k) as nat);
}

/// A number of ordinary size, shifted left, is a number.
pub proof fn lemma_shifted(a: Real, k: nat)
    requires
        a.finite(),
        -two(51) <= a.quanta() <= two(51),
        k <= 40,
    ensures
        representable(a.quanta() * power2::pow2(k)),
{
    lemma_value(a);
    let (e, m, p) = (a.exponent(), a.significand(), power2::pow2(k) as int);
    vstd::arithmetic::power2::lemma2_to64();
    power2::lemma_pow2_pos(k);
    if e == 0 {
        lemma_representable(a.quanta(), k);
    } else {
        let n = (e - 1) as nat;
        let q = power2::pow2(n) as int;
        if n > 201 {
            number::lemma_pow2_order(201, n);
            power2::lemma_pow2_unfold(201);
            assert(m * q > two(51)) by (nonlinear_arith)
                requires
                    m >= 1,
                    q >= 2 * two(51),
                    two(51) > 0,
            ;
            assert(false);
        }
        power2::lemma_pow2_adds(n, k);
        let g = if a.negative() {
            -m
        } else {
            m
        };
        lemma_representable(g, n + k);
        assert((g * q) * p == g * (q * p)) by (nonlinear_arith);
        assert((-m) * q == -(m * q)) by (nonlinear_arith);
    }
}

/// The root lies on the same side of every number as the true root.
pub proof fn lemma_root_side<F: Fn(Op, Real, Real) -> Real>(f: F, a: Real, c: Real)
    requires
        rounds(f),
        a.finite(),
        c.finite(),
        a.quanta() >= 0,
        c.quanta() >= 0,
    ensures
        a.quanta() * unit() <= c.quanta() * c.quanta() ==> number::root(f, a).at_most(c),
        c.quanta() * c.quanta() <= a.quanta() * unit() ==> c.at_most(number::root(f, a)),
{
    assert(keeps_root(a, number::apply(f, Op::Root, a, a), c));
}

/// A fraction lies between two neighbouring numbers of 24 bits.
spec fn bracketed(n: int, d: int, m: int, j: nat) -> bool {
    &&& 0x80_0000 <= m < 0x100_0000
    &&& j <= 226
    &&& (m * power2::pow2(j)) * d <= n <= ((m + 1) * power2::pow2(j)) * d
}

/// Every fraction that is not too small or too large does.
proof fn lemma_bracket(n: int, d: int)
    requires
        d > 0,
        n >= 0x100_0000 * d,
        n < power2::pow2(250) * d,
    ensures
        exists|m: int, j: nat| #[trigger] bracketed(n, d, m, j),
{
    let t = n / d;
    vstd::arithmetic::div_mod::lemma_fundamental_div_mod(n, d);
    vstd::arithmetic::div_mod::lemma_mod_bound(n, d);
    let r = n % d;
    assert(t >= 0x100_0000) by (nonlinear_arith)
        requires
            n == d * t + r,
            r < d,
            n >= 0x100_0000 * d,
            d > 0,
    ;
    assert(t < power2::pow2(250)) by (nonlinear_arith)
        requires
            n == d * t + r,
            r >= 0,
            n < power2::pow2(250) * d,
            d > 0,
    ;
    let e = number::log2(t as nat);
    number::lemma_log2(t as nat);
    vstd::arithmetic::power2::lemma2_to64();
    if e < 24 {
        number::lemma_pow2_order(e + 1, 24);
        assert(false);
    }
    if e >= 250 {
        number::lemma_pow2_order(250, e);
        assert(false);
    }
    let j = (e - 23) as nat;
    let p = power2::pow2(j) as int;
    power2::lemma_pow2_adds(23, j);
    power2::lemma_pow2_adds(24, j);
    power2::lemma_pow2_pos(j);
    let m = t / p;
    vstd::arithmetic::div_mod::lemma_fundamental_div_mod(t, p);
    vstd::arithmetic::div_mod::lemma_mod_bound(t, p);
    let s = t % p;
    assert(0x80_0000 <= m < 0x100_0000) by (nonlinear_arith)
        requires
            t == p * m + s,
            0 <= s < p,
            0x80_0000 * p <= t < 0x100_0000 * p,
    ;
    assert((m * p) * d <= n <= ((m + 1) * p) * d) by (nonlinear_arith)
        requires
            t == p * m + s,
            0 <= s < p,
            n == d * t + r,
            0 <= r < d,
            d > 0,
    {
        assert(m * p <= t);
        assert(t + 1 <= (m + 1) * p);
        assert((m * p) * d <= t * d);
        assert((t + 1) * d <= ((m + 1) * p) * d);
    }
    assert(bracketed(n, d, m, j));
}

/// Rounding changes a number of ordinary size by less than a part in eight
/// million.
pub proof fn lemma_near<F: Fn(Op, Real, Real) -> Real>(f: F, op: Op, a: Real, b: Real)
    requires
        rounds(f),
        defined(op, a, b),
        outcome(op, a, b).0 >= 0x100_0000 * outcome(op, a, b).1,
        outcome(op, a, b).0 < power2::pow2(250) * outcome(op, a, b).1,
    ensures
        ({
            let (n, d) = outcome(op, a, b);
            let r = number::apply(f, op, a, b);
            &&& r.finite() && r.quanta() > 0
            &&& -n <= 0x80_0000 * (r.quanta() * d - n) <= n
        }),
{
    let (n, d) = outcome(op, a, b);
    lemma_constants();
    assert(d > 0);
    lemma_bracket(n, d);
    let (m, j) = choose|m: int, j: nat| #[trigger] bracketed(n, d, m, j);
    let p = power2::pow2(j) as int;
    power2::lemma_pow2_pos(j);
    lemma_representable(m, j);
    lemma_representable(m + 1, j);
    let (lo, hi) = (number_at(m * p), number_at((m + 1) * p));
    lemma_sides(f, op, a, b, lo);
    lemma_sides(f, op, a, b, hi);
    let r = number::apply(f, op, a, b);
    assert(r.finite());
    lemma_order(lo, r);
    lemma_order(r, hi);
    let q = r.quanta();
    assert(-n <= 0x80_0000 * (q * d - n) <= n && q > 0) by (nonlinear_arith)
        requires
            m * p <= q <= (m + 1) * p,
            (m * p) * d <= n <= ((m + 1) * p) * d,
            m >= 0x80_0000,
            p > 0,
            d > 0,
    {
        let w = p * d;
        assert((m + 1) * p == m * p + p);
        assert(((m + 1) * p) * d == (m * p) * d + w);
        assert((m * p) * d <= q * d <= ((m + 1) * p) * d);
        assert(-w <= q * d - n <= w);
        assert((m * p) * d == m * w);
        assert(0x80_0000 * w <= m * w);
        assert(m * p > 0);
    }
}

} // verus!
