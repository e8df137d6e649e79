//! What the preview's normals and photo coordinates say about the surface.

use vstd::prelude::*;
use vstd::arithmetic::power2;
use crate::depth::HeightField;
use crate::grid;
use crate::measure;
use crate::mesh::{Block, Solid};
use crate::number;
use crate::number::{Op, Real, ONE, TWO, ZERO};
use crate::rounding;
use crate::tiles;
use crate::tiles::{TileMesh, TileRect};
use crate::vector;
use crate::vector::Vector;

verus! {

// ---------------------------------------------------------------------------
// Lengths
// ---------------------------------------------------------------------------

/// A square, of at most `two(2e)` and at least nothing.
proof fn lemma_square<F: Fn(Op, Real, Real) -> Real>(f: F, a: Real, e: int, g: int)
    requires
        rounding::rounds(f),
        a.finite(),
        -rounding::two(e) <= a.quanta() <= rounding::two(e),
        -70 <= g <= e <= 49,
    ensures
        ({
            let s = number::times(f, a, a);
            &&& s.finite() && 0 <= s.quanta() <= rounding::two(2 * e)
            &&& a.quanta() >= rounding::two(g) || a.quanta() <= -rounding::two(g) ==> s.quanta()
                >= rounding::two(2 * g)
        }),
{
    rounding::lemma_constants();
    rounding::lemma_two(e);
    rounding::lemma_two(g);
    rounding::lemma_two(2 * e);
    rounding::lemma_two(2 * g);
    let u = rounding::unit();
    let (x, b, d) = (a.quanta(), rounding::two(e), rounding::two(g));
    rounding::lemma_two_product(e, e);
    rounding::lemma_two_product(g, g);
    assert(0 * u <= x * x <= b * b) by (nonlinear_arith)
        requires
            -b <= x <= b,
    ;
    let (zero, c, l) = (
        Real { bits: ZERO },
        rounding::number_at(rounding::two(2 * e)),
        rounding::number_at(rounding::two(2 * g)),
    );
    rounding::lemma_product_side(f, a, a, zero);
    rounding::lemma_product_side(f, a, a, c);
    let s = number::times(f, a, a);
    assert(s.finite());
    rounding::lemma_order(zero, s);
    rounding::lemma_order(s, c);
    if x >= d || x <= -d {
        assert(d * d <= x * x) by (nonlinear_arith)
            requires
                x >= d || x <= -d,
                d > 0,
        ;
        rounding::lemma_product_side(f, a, a, l);
        rounding::lemma_order(l, s);
    }
}

/// A vector is not smaller than `g`, nor larger than `e`, as powers of two go.
pub open spec fn sized(v: Vector, g: int, e: int) -> bool {
    let (b, d) = (rounding::two(e), rounding::two(g));
    &&& v.x.finite() && -b <= v.x.quanta() <= b
    &&& v.y.finite() && -b <= v.y.quanta() <= b
    &&& v.z.finite() && -b <= v.z.quanta() <= b
    &&& {
        ||| v.x.quanta() >= d || v.x.quanta() <= -d
        ||| v.y.quanta() >= d || v.y.quanta() <= -d
        ||| v.z.quanta() >= d || v.z.quanta() <= -d
    }
}

/// The length is within the bounds that the size gives.
pub proof fn lemma_length<F: Fn(Op, Real, Real) -> Real>(f: F, v: Vector, g: int, e: int)
    requires
        rounding::rounds(f),
        sized(v, g, e),
        -70 <= g <= e <= 45,
    ensures
        ({
            let h = number::root(f, vector::dot(f, v, v));
            h.finite() && rounding::two(g) <= h.quanta() <= rounding::two(e + 1)
        }),
{
    rounding::lemma_constants();
    let u = rounding::unit();
    lemma_square(f, v.x, e, g);
    lemma_square(f, v.y, e, g);
    lemma_square(f, v.z, e, g);
    let (a, b, c) = (
        number::times(f, v.x, v.x),
        number::times(f, v.y, v.y),
        number::times(f, v.z, v.z),
    );
    rounding::lemma_two(2 * e);
    rounding::lemma_two(2 * e + 1);
    rounding::lemma_two(2 * e + 2);
    rounding::lemma_two(2 * g);
    let zero = Real { bits: ZERO };
    let (p, q) = (
        rounding::number_at(rounding::two(2 * e + 1)),
        rounding::number_at(rounding::two(2 * e + 2)),
    );
    let l = rounding::number_at(rounding::two(2 * g));
    rounding::lemma_sum_side(f, Op::Plus, a, b, zero);
    rounding::lemma_sum_side(f, Op::Plus, a, b, p);
    rounding::lemma_sum_side(f, Op::Plus, a, b, l);
    let d = number::plus(f, a, b);
    assert(d.finite());
    rounding::lemma_order(zero, d);
    rounding::lemma_order(d, p);
    rounding::lemma_order(l, d);
    rounding::lemma_sum_side(f, Op::Plus, d, c, q);
    rounding::lemma_sum_side(f, Op::Plus, d, c, l);
    let s = number::plus(f, d, c);
    assert(s == vector::dot(f, v, v));
    assert(s.finite());
    rounding::lemma_order(s, q);
    rounding::lemma_order(l, s);
    rounding::lemma_two(e + 1);
    rounding::lemma_two(g);
    let (m, n) = (
        rounding::number_at(rounding::two(e + 1)),
        rounding::number_at(rounding::two(g)),
    );
    rounding::lemma_two_product(e + 1, e + 1);
    rounding::lemma_two_product(g, g);
    assert(s.quanta() * u <= rounding::two(2 * e + 2) * u && rounding::two(2 * g) * u <= s.quanta()
        * u) by (nonlinear_arith)
        requires
            rounding::two(2 * g) <= s.quanta() <= rounding::two(2 * e + 2),
            u > 0,
    ;
    rounding::lemma_root_side(f, s, m);
    rounding::lemma_root_side(f, s, n);
    let h = number::root(f, s);
    assert(h.finite());
    rounding::lemma_order(h, m);
    rounding::lemma_order(n, h);
}

/// One over the length is, too.
pub proof fn lemma_recip<F: Fn(Op, Real, Real) -> Real>(f: F, v: Vector, g: int, e: int)
    requires
        rounding::rounds(f),
        sized(v, g, e),
        -70 <= g <= e <= 45,
    ensures
        ({
            let r = vector::length_recip(f, v);
            r.finite() && rounding::two(-e - 1) <= r.quanta() <= rounding::two(-g)
        }),
{
    rounding::lemma_constants();
    let u = rounding::unit();
    lemma_length(f, v, g, e);
    let h = number::root(f, vector::dot(f, v, v));
    rounding::lemma_two(g);
    rounding::lemma_two(e + 1);
    rounding::lemma_two(-g);
    rounding::lemma_two(-e - 1);
    let one = Real { bits: ONE };
    let (y, z) = (
        rounding::number_at(rounding::two(-g)),
        rounding::number_at(rounding::two(-e - 1)),
    );
    rounding::lemma_two_product(-g, g);
    rounding::lemma_two_product(-e - 1, e + 1);
    assert(u * u <= y.quanta() * h.quanta()) by (nonlinear_arith)
        requires
            y.quanta() == rounding::two(-g),
            rounding::two(-g) * rounding::two(g) == u * u,
            h.quanta() >= rounding::two(g),
            rounding::two(-g) > 0,
    ;
    assert(z.quanta() * h.quanta() <= u * u) by (nonlinear_arith)
        requires
            z.quanta() == rounding::two(-e - 1),
            rounding::two(-e - 1) * rounding::two(e + 1) == u * u,
            h.quanta() <= rounding::two(e + 1),
            rounding::two(-e - 1) > 0,
    ;
    rounding::lemma_quotient_side(f, one, h, y);
    rounding::lemma_quotient_side(f, one, h, z);
    let r = vector::length_recip(f, v);
    assert(r.finite());
    rounding::lemma_order(r, y);
    rounding::lemma_order(z, r);
}

// ---------------------------------------------------------------------------
// Normals
// ---------------------------------------------------------------------------

/// How high the surface stands at a grid point, or at the nearest one.
pub open spec fn level(s: HeightField, i: int, j: int) -> Real {
    s.height(grid::pin(i, s.w as int), grid::pin(j, s.h as int))
}

/// The surface around a grid point is no steeper than a million to one.
pub open spec fn gentle(field: HeightField, pitch: Real, i: int, j: int) -> bool {
    let bound = 0x10_0000 * (2 * pitch.quanta());
    let (l, r) = (level(field, i - 1, j), level(field, i + 1, j));
    let (a, b) = (level(field, i, j - 1), level(field, i, j + 1));
    &&& pitch.finite() && 0 < pitch.quanta() <= rounding::two(51)
    &&& l.finite() && r.finite() && a.finite() && b.finite()
    &&& -bound <= r.quanta() - l.quanta() <= bound
    &&& -bound <= a.quanta() - b.quanta() <= bound
}

/// The slope between two heights, two pitches apart.
spec fn slope<F: Fn(Op, Real, Real) -> Real>(f: F, pitch: Real, from: Real, to: Real) -> Real {
    number::over(
        f,
        number::minus(f, to, from),
        number::times(f, Real { bits: TWO }, pitch),
    )
}

proof fn lemma_slope<F: Fn(Op, Real, Real) -> Real>(f: F, pitch: Real, from: Real, to: Real)
    requires
        rounding::rounds(f),
        pitch.finite(),
        0 < pitch.quanta() <= rounding::two(51),
        from.finite(),
        to.finite(),
        -(0x10_0000 * (2 * pitch.quanta())) <= to.quanta() - from.quanta() <= 0x10_0000 * (2
            * pitch.quanta()),
    ensures
        ({
            let d = slope(f, pitch, from, to);
            let (rise, run) = (to.quanta() - from.quanta(), 2 * pitch.quanta());
            &&& d.finite() && -rounding::two(20) <= d.quanta() <= rounding::two(20)
            &&& rise >= 0 ==> d.quanta() >= 0
            &&& rise <= 0 ==> d.quanta() <= 0
            &&& 0x10_0000 * rise >= run ==> d.quanta() >= rounding::two(-21)
            &&& 0x10_0000 * rise <= -run ==> d.quanta() <= -rounding::two(-21)
            &&& forall|k: nat|
                k <= 20 && rise >= #[trigger] power2::pow2(k) * run ==> d.quanta()
                    >= rounding::two(k as int)
            &&& forall|k: nat|
                k <= 20 && rise <= -(#[trigger] power2::pow2(k) * run) ==> d.quanta()
                    <= -rounding::two(k as int)
            &&& forall|q: int| #[trigger]
                rounding::representable(q) && rounding::representable(rise) && q * run == rise
                    * rounding::unit() ==> d.quanta() == q
        }),
{
    rounding::lemma_constants();
    let u = rounding::unit();
    let (rise, run) = (to.quanta() - from.quanta(), 2 * pitch.quanta());
    vstd::arithmetic::power2::lemma2_to64();
    rounding::lemma_two(51);
    rounding::lemma_shifted(pitch, 21);
    lemma_run(f, pitch);
    let b = number::times(f, Real { bits: TWO }, pitch);
    let big = rounding::number_at(0x10_0000 * run);
    assert(pitch.quanta() * 0x20_0000 == 0x10_0000 * run);
    rounding::lemma_opposite(big);
    let zero = Real { bits: ZERO };
    let a = number::minus(f, to, from);
    rounding::lemma_sum_side(f, Op::Minus, to, from, big);
    rounding::lemma_sum_side(f, Op::Minus, to, from, big.opposite());
    rounding::lemma_sum_side(f, Op::Minus, to, from, zero);
    assert(a.finite());
    rounding::lemma_order(a, big);
    rounding::lemma_order(big.opposite(), a);
    rounding::lemma_order(a, zero);
    rounding::lemma_order(zero, a);
    let d = slope(f, pitch, from, to);
    rounding::lemma_two(20);
    rounding::lemma_two(0);
    assert(rounding::two(20) == 0x10_0000 * u) by {
        power2::lemma_pow2_adds(20, 149);
    }
    let c = rounding::number_at(rounding::two(20));
    rounding::lemma_opposite(c);
    let (x, y) = (a.quanta(), b.quanta());
    assert(x * u <= (0x10_0000 * u) * y && (-(0x10_0000 * u)) * y <= x * u) by (nonlinear_arith)
        requires
            -(0x10_0000 * y) <= x <= 0x10_0000 * y,
            u > 0,
    ;
    assert(0 * y == 0) by (nonlinear_arith);
    assert(x >= 0 ==> x * u >= 0) by (nonlinear_arith)
        requires
            u > 0,
    ;
    assert(x <= 0 ==> x * u <= 0) by (nonlinear_arith)
        requires
            u > 0,
    ;
    rounding::lemma_quotient_side(f, a, b, c);
    rounding::lemma_quotient_side(f, a, b, c.opposite());
    rounding::lemma_quotient_side(f, a, b, zero);
    assert(d.finite());
    rounding::lemma_order(d, c);
    rounding::lemma_order(c.opposite(), d);
    rounding::lemma_order(d, zero);
    rounding::lemma_order(zero, d);
    assert forall|k: nat| k <= 20 && rise >= #[trigger] power2::pow2(k) * run implies d.quanta()
        >= rounding::two(k as int) by {
        lemma_steep(f, pitch, from, to, k);
    }
    assert forall|k: nat| k <= 20 && rise <= -(#[trigger] power2::pow2(k) * run) implies d.quanta()
        <= -rounding::two(k as int) by {
        lemma_steep(f, pitch, from, to, k);
    }
    lemma_faint(f, pitch, from, to);
    assert forall|q: int| #[trigger]
        rounding::representable(q) && rounding::representable(rise) && q * run == rise * u implies d.quanta()
        == q by {
        rounding::lemma_sum_exact(f, Op::Minus, to, from);
        rounding::lemma_quotient_exact(f, a, b, q);
    }
}

/// The run is exact.
proof fn lemma_run<F: Fn(Op, Real, Real) -> Real>(f: F, pitch: Real)
    requires
        rounding::rounds(f),
        pitch.finite(),
        0 < pitch.quanta() <= rounding::two(51),
    ensures
        ({
            let b = number::times(f, Real { bits: TWO }, pitch);
            b.finite() && b.quanta() == 2 * pitch.quanta()
        }),
{
    rounding::lemma_constants();
    let u = rounding::unit();
    let run = 2 * pitch.quanta();
    vstd::arithmetic::power2::lemma2_to64();
    rounding::lemma_two(51);
    rounding::lemma_shifted(pitch, 1);
    assert((2 * u) * pitch.quanta() == run * u) by (nonlinear_arith)
        requires
            run == 2 * pitch.quanta(),
    ;
    assert(pitch.quanta() * 2 == run);
    rounding::lemma_product_exact(f, Real { bits: TWO }, pitch, run);
}

/// A slope of at least a power of two stays at least that.
proof fn lemma_steep<F: Fn(Op, Real, Real) -> Real>(
    f: F,
    pitch: Real,
    from: Real,
    to: Real,
    k: nat,
)
    requires
        rounding::rounds(f),
        pitch.finite(),
        0 < pitch.quanta() <= rounding::two(51),
        from.finite(),
        to.finite(),
        number::minus(f, to, from).finite(),
        slope(f, pitch, from, to).finite(),
        k <= 20,
    ensures
        ({
            let d = slope(f, pitch, from, to);
            let (rise, run) = (to.quanta() - from.quanta(), 2 * pitch.quanta());
            &&& rise >= power2::pow2(k) * run ==> d.quanta() >= rounding::two(k as int)
            &&& rise <= -(power2::pow2(k) * run) ==> d.quanta() <= -rounding::two(k as int)
            &&& rise <= power2::pow2(k) * run ==> d.quanta() <= rounding::two(k as int)
            &&& rise >= -(power2::pow2(k) * run) ==> d.quanta() >= -rounding::two(k as int)
        }),
{
    rounding::lemma_constants();
    rounding::lemma_two(k as int);
    rounding::lemma_two(51);
    let u = rounding::unit();
    let (rise, run) = (to.quanta() - from.quanta(), 2 * pitch.quanta());
    lemma_run(f, pitch);
    let b = number::times(f, Real { bits: TWO }, pitch);
    let a = number::minus(f, to, from);
    let t = rounding::two(k as int);
    let c = rounding::number_at(t);
    rounding::lemma_opposite(c);
    let d = slope(f, pitch, from, to);
    let m = power2::pow2(k) as int;
    power2::lemma_pow2_adds(k, 149);
    rounding::lemma_shifted(pitch, k + 1);
    power2::lemma_pow2_unfold(k + 1);
    let g = m * run;
    assert(pitch.quanta() * (2 * m) == g) by (nonlinear_arith)
        requires
            g == m * run,
            run == 2 * pitch.quanta(),
    ;
    let n = rounding::number_at(g);
    rounding::lemma_opposite(n);
    assert(t * run == g * u && (-t) * run == -(g * u)) by (nonlinear_arith)
        requires
            t == m * u,
            g == m * run,
    ;
    rounding::lemma_sum_side(f, Op::Minus, to, from, n);
    rounding::lemma_sum_side(f, Op::Minus, to, from, n.opposite());
    rounding::lemma_order(n, a);
    rounding::lemma_order(a, n);
    rounding::lemma_order(a, n.opposite());
    rounding::lemma_order(n.opposite(), a);
    lemma_under(a.quanta(), g, u);
    lemma_under(-a.quanta(), -g, u);
    lemma_under(a.quanta(), -g, u);
    assert((-g) * u == -(g * u) && (-a.quanta()) * u == -(a.quanta() * u)) by (nonlinear_arith);
    rounding::lemma_quotient_side(f, a, b, c);
    rounding::lemma_quotient_side(f, a, b, c.opposite());
    rounding::lemma_order(c, d);
    rounding::lemma_order(d, c);
    rounding::lemma_order(d, c.opposite());
    rounding::lemma_order(c.opposite(), d);
}

/// A slope of a millionth is still seen.
proof fn lemma_faint<F: Fn(Op, Real, Real) -> Real>(f: F, pitch: Real, from: Real, to: Real)
    requires
        rounding::rounds(f),
        pitch.finite(),
        0 < pitch.quanta() <= rounding::two(51),
        from.finite(),
        to.finite(),
        number::minus(f, to, from).finite(),
        slope(f, pitch, from, to).finite(),
        -(0x10_0000 * (2 * pitch.quanta())) <= to.quanta() - from.quanta() <= 0x10_0000 * (2
            * pitch.quanta()),
    ensures
        ({
            let d = slope(f, pitch, from, to);
            let (rise, run) = (to.quanta() - from.quanta(), 2 * pitch.quanta());
            &&& 0x10_0000 * rise >= run ==> d.quanta() >= rounding::two(-21)
            &&& 0x10_0000 * rise <= -run ==> d.quanta() <= -rounding::two(-21)
        }),
{
    let (rise, run) = (to.quanta() - from.quanta(), 2 * pitch.quanta());
    if 0x10_0000 * rise >= run || 0x10_0000 * rise <= -run {
        rounding::lemma_constants();
        let u = rounding::unit();
        let size = if rise >= 0 {
            rise
        } else {
            -rise
        };
        let j = number::log2(size as nat);
        number::lemma_log2(size as nat);
        vstd::arithmetic::power2::lemma2_to64();
        if j > 222 {
            number::lemma_pow2_order(223, j);
            power2::lemma_pow2_adds(23, 200);
            assert(false);
        }
        power2::lemma_pow2_unfold(j + 1);
        rounding::lemma_representable(1, j);
        let p = power2::pow2(j) as int;
        let n = rounding::number_at(p);
        assert(1 * p == p);
        rounding::lemma_opposite(n);
        let a = number::minus(f, to, from);
        rounding::lemma_sum_side(f, Op::Minus, to, from, n);
        rounding::lemma_sum_side(f, Op::Minus, to, from, n.opposite());
        rounding::lemma_order(n, a);
        rounding::lemma_order(a, n.opposite());
        lemma_run(f, pitch);
        let b = number::times(f, Real { bits: TWO }, pitch);
        rounding::lemma_two(-21);
        power2::lemma_pow2_adds(21, 128);
        let t = rounding::two(-21);
        let c = rounding::number_at(t);
        rounding::lemma_opposite(c);
        let (x, d) = (a.quanta(), slope(f, pitch, from, to));
        assert(x >= p ==> t * run <= x * u) by (nonlinear_arith)
            requires
                u == 0x20_0000 * t,
                t > 0,
                run < 0x20_0000 * p,
        ;
        assert(x <= -p ==> x * u <= (-t) * run) by (nonlinear_arith)
            requires
                u == 0x20_0000 * t,
                t > 0,
                run < 0x20_0000 * p,
        ;
        rounding::lemma_quotient_side(f, a, b, c);
        rounding::lemma_quotient_side(f, a, b, c.opposite());
        rounding::lemma_order(c, d);
        rounding::lemma_order(d, c.opposite());
    }
}

proof fn lemma_under(x: int, g: int, u: int)
    requires
        u > 0,
    ensures
        x >= g ==> x * u >= g * u,
        x <= -g ==> x * u <= -(g * u),
{
    assert(x >= g ==> x * u >= g * u) by (nonlinear_arith)
        requires
            u > 0,
    ;
    assert(x <= -g ==> x * u <= -(g * u)) by (nonlinear_arith)
        requires
            u > 0,
    ;
}

/// One part of a normal: the slope's opposite, scaled.
proof fn lemma_part<F: Fn(Op, Real, Real) -> Real>(f: F, d: Real, r: Real)
    requires
        rounding::rounds(f),
        d.finite(),
        -rounding::two(20) <= d.quanta() <= rounding::two(20),
        r.finite(),
        rounding::two(-21) <= r.quanta() <= rounding::unit(),
    ensures
        ({
            let n = number::times(f, d.opposite(), r);
            &&& n.finite()
            &&& d.quanta() >= 0 ==> n.quanta() <= 0
            &&& d.quanta() <= 0 ==> n.quanta() >= 0
            &&& d.quanta() >= rounding::two(-21) ==> n.quanta() < 0
            &&& d.quanta() <= -rounding::two(-21) ==> n.quanta() > 0
            &&& forall|c: Real|
                c.finite() && #[trigger] c.quanta() * rounding::unit() <= -(d.quanta()
                    * r.quanta()) ==> c.at_most(n)
            &&& forall|c: Real|
                c.finite() && #[trigger] c.quanta() * rounding::unit() >= -(d.quanta()
                    * r.quanta()) ==> n.at_most(c)
        }),
{
    rounding::lemma_constants();
    rounding::lemma_opposite(d);
    let u = rounding::unit();
    let n = number::times(f, d.opposite(), r);
    let (x, y, m) = (d.quanta(), r.quanta(), rounding::two(20));
    assert((-x) * y == -(x * y)) by (nonlinear_arith);
    rounding::lemma_two(20);
    rounding::lemma_two(-21);
    rounding::lemma_two(-42);
    rounding::lemma_two_product(-21, -21);
    let (zero, big, small) = (
        Real { bits: ZERO },
        rounding::number_at(m),
        rounding::number_at(rounding::two(-42)),
    );
    rounding::lemma_opposite(big);
    rounding::lemma_opposite(small);
    assert((-m) * u <= (-x) * y <= m * u) by (nonlinear_arith)
        requires
            -m <= x <= m,
            0 <= y <= u,
    ;
    assert(0 * u == 0) by (nonlinear_arith);
    assert(x >= 0 ==> (-x) * y <= 0) by (nonlinear_arith)
        requires
            y >= 0,
    ;
    assert(x <= 0 ==> (-x) * y >= 0) by (nonlinear_arith)
        requires
            y >= 0,
    ;
    let t = rounding::two(-21);
    assert(x >= t ==> (-x) * y <= (-rounding::two(-42)) * u) by (nonlinear_arith)
        requires
            y >= t,
            t > 0,
            t * t == rounding::two(-42) * u,
    ;
    assert(x <= -t ==> (-x) * y >= rounding::two(-42) * u) by (nonlinear_arith)
        requires
            y >= t,
            t > 0,
            t * t == rounding::two(-42) * u,
    ;
    let e = d.opposite();
    rounding::lemma_product_side(f, e, r, big);
    rounding::lemma_product_side(f, e, r, big.opposite());
    rounding::lemma_product_side(f, e, r, zero);
    rounding::lemma_product_side(f, e, r, small);
    rounding::lemma_product_side(f, e, r, small.opposite());
    assert(n.finite());
    rounding::lemma_order(n, zero);
    rounding::lemma_order(zero, n);
    rounding::lemma_order(small, n);
    rounding::lemma_order(n, small.opposite());
    assert forall|c: Real|
        c.finite() && #[trigger] c.quanta() * u <= -(x * y) implies c.at_most(n) by {
        rounding::lemma_product_side(f, e, r, c);
    }
    assert forall|c: Real|
        c.finite() && #[trigger] c.quanta() * u >= -(x * y) implies n.at_most(c) by {
        rounding::lemma_product_side(f, e, r, c);
    }
}

/// The parts of a normal.
proof fn lemma_normal<F: Fn(Op, Real, Real) -> Real>(
    f: F,
    field: HeightField,
    pitch: Real,
    i: int,
    j: int,
)
    requires
        rounding::rounds(f),
        gentle(field, pitch, i, j),
    ensures
        ({
            let n = tiles::slope_normal(f, field, pitch, i, j);
            let dx = slope(f, pitch, level(field, i - 1, j), level(field, i + 1, j));
            let dy = slope(f, pitch, level(field, i, j + 1), level(field, i, j - 1));
            let v = Vector { x: dx.opposite(), y: dy.opposite(), z: Real { bits: ONE } };
            let r = vector::length_recip(f, v);
            &&& dx.finite() && -rounding::two(20) <= dx.quanta() <= rounding::two(20)
            &&& dy.finite() && -rounding::two(20) <= dy.quanta() <= rounding::two(20)
            &&& r.finite() && rounding::two(-21) <= r.quanta() <= rounding::unit()
            &&& n.x == number::times(f, dx.opposite(), r)
            &&& n.y == number::times(f, dy.opposite(), r)
            &&& n.z.finite() && n.z.quanta() == r.quanta()
        }),
{
    let (l, r) = (level(field, i - 1, j), level(field, i + 1, j));
    let (a, b) = (level(field, i, j - 1), level(field, i, j + 1));
    lemma_slope(f, pitch, l, r);
    lemma_slope(f, pitch, b, a);
    let (dx, dy) = (slope(f, pitch, l, r), slope(f, pitch, b, a));
    rounding::lemma_opposite(dx);
    rounding::lemma_opposite(dy);
    rounding::lemma_constants();
    rounding::lemma_two(0);
    rounding::lemma_two_order(0, 20);
    let v = Vector { x: dx.opposite(), y: dy.opposite(), z: Real { bits: ONE } };
    assert(sized(v, 0, 20));
    lemma_recip(f, v, 0, 20);
    rounding::lemma_once(f, vector::length_recip(f, v));
}

/// Vertex number `k` of a preview chunk shows a grid point.
pub open spec fn shows<F: Fn(Op, Real, Real) -> Real>(
    f: F,
    s: Solid,
    t: TileMesh,
    k: int,
    i: usize,
    j: usize,
) -> bool {
    &&& 0 <= k < t.positions@.len()
    &&& i < s.layout.w && j < s.layout.h
    &&& {
        ||| s.decimation is None && exists|rect: TileRect| #[trigger]
            tiles::is_surface_tile(f, s, rect, t) && tiles::tile_inside(rect, s)
                && tiles::tile_point(rect, k) == (i as int, j as int)
        ||| exists|run: (int, int)| #[trigger]
            tiles::is_run_tile(f, s, run, t) && s.at(
                s.surface()[run.0 + k / 3][k % 3] as int,
            ) == (Block::Surface { i, j })
    }
}

/// What a preview vertex holds.
proof fn lemma_shown<F: Fn(Op, Real, Real) -> Real>(
    f: F,
    s: Solid,
    t: TileMesh,
    k: int,
    i: usize,
    j: usize,
)
    requires
        s.wf(),
        shows(f, s, t, k, i, j),
    ensures
        t.positions@[k]@ == s.place(f, Block::Surface { i, j }).parts(),
        t.normals@[k]@ == tiles::slope_normal(
            f,
            *s.field,
            s.layout.pitch_mm,
            i as int,
            j as int,
        ).parts(),
        t.uvs@[k]@ == tiles::texture_at(
            f,
            s.layout.w as int,
            s.layout.h as int,
            i as int,
            j as int,
        ),
{
    if s.decimation is None && exists|rect: TileRect| #[trigger]
        tiles::is_surface_tile(f, s, rect, t) && tiles::tile_inside(rect, s) && tiles::tile_point(
            rect,
            k,
        ) == (i as int, j as int) {
        let rect = choose|rect: TileRect| #[trigger]
            tiles::is_surface_tile(f, s, rect, t) && tiles::tile_inside(rect, s)
                && tiles::tile_point(rect, k) == (i as int, j as int);
        let index = j * s.layout.w + i;
        grid::lemma_index(s.layout.w as int, s.layout.h as int, i as int, j as int);
        let b = Block::Surface { i, j };
        s.lemma_surface();
        assert(s.block_of(index, b));
        s.lemma_one_block(index, b, b);
    }
}

/// A preview vertex stands where its grid point does.
pub proof fn law_preview_shows_the_surface<F: Fn(Op, Real, Real) -> Real>(
    f: F,
    s: Solid,
    t: TileMesh,
    k: int,
    i: usize,
    j: usize,
)
    requires
        s.wf(),
        shows(f, s, t, k, i, j),
    ensures
        t.positions@[k]@ == s.place(f, Block::Surface { i, j }).parts(),
        t.positions@[k]@[2] == s.field.height(i as int, j as int),
{
    lemma_shown(f, s, t, k, i, j);
}

/// Normals lean downhill, towards where the surface falls away, and always
/// point to the viewer. Where the surface rises to the right they lean left;
/// where it rises towards the top of the picture they lean down.
pub proof fn law_normals_lean_downhill<F: Fn(Op, Real, Real) -> Real>(
    f: F,
    s: Solid,
    t: TileMesh,
    k: int,
    i: usize,
    j: usize,
)
    requires
        rounding::rounds(f),
        s.wf(),
        shows(f, s, t, k, i, j),
        gentle(*s.field, s.layout.pitch_mm, i as int, j as int),
    ensures
        ({
            let n = t.normals@[k]@;
            let (x, y) = (i as int, j as int);
            let left = level(*s.field, x - 1, y).quanta();
            let right = level(*s.field, x + 1, y).quanta();
            let above = level(*s.field, x, y - 1).quanta();
            let below = level(*s.field, x, y + 1).quanta();
            let run = 2 * s.layout.pitch_mm.quanta();
            &&& n.len() == 3 && n[0].finite() && n[1].finite() && n[2].finite()
            &&& 0 < n[2].quanta() <= rounding::unit()
            &&& right >= left ==> n[0].quanta() <= 0
            &&& right <= left ==> n[0].quanta() >= 0
            &&& above >= below ==> n[1].quanta() <= 0
            &&& above <= below ==> n[1].quanta() >= 0
            &&& 0x10_0000 * (right - left) >= run ==> n[0].quanta() < 0
            &&& 0x10_0000 * (left - right) >= run ==> n[0].quanta() > 0
            &&& 0x10_0000 * (above - below) >= run ==> n[1].quanta() < 0
            &&& 0x10_0000 * (below - above) >= run ==> n[1].quanta() > 0
        }),
{
    lemma_shown(f, s, t, k, i, j);
    let pitch = s.layout.pitch_mm;
    let (x, y) = (i as int, j as int);
    lemma_normal(f, *s.field, pitch, x, y);
    rounding::lemma_two(-21);
    let (l, r) = (level(*s.field, x - 1, y), level(*s.field, x + 1, y));
    let (a, b) = (level(*s.field, x, y - 1), level(*s.field, x, y + 1));
    lemma_slope(f, pitch, l, r);
    lemma_slope(f, pitch, b, a);
    let (dx, dy) = (slope(f, pitch, l, r), slope(f, pitch, b, a));
    let v = Vector { x: dx.opposite(), y: dy.opposite(), z: Real { bits: ONE } };
    let q = vector::length_recip(f, v);
    lemma_part(f, dx, q);
    lemma_part(f, dy, q);
}

/// The steeper the surface, the less a normal points to the viewer: its length
/// stays one, as far as powers of two tell. On level ground it is `(0, 0, 1)`.
pub proof fn law_normals_keep_their_length<F: Fn(Op, Real, Real) -> Real>(
    f: F,
    s: Solid,
    t: TileMesh,
    k: int,
    i: usize,
    j: usize,
    e: nat,
)
    requires
        rounding::rounds(f),
        s.wf(),
        shows(f, s, t, k, i, j),
        gentle(*s.field, s.layout.pitch_mm, i as int, j as int),
        e <= 20,
    ensures
        ({
            let n = t.normals@[k]@;
            let (x, y) = (i as int, j as int);
            let across = level(*s.field, x + 1, y).quanta() - level(*s.field, x - 1, y).quanta();
            let up = level(*s.field, x, y - 1).quanta() - level(*s.field, x, y + 1).quanta();
            let bound = power2::pow2(e) * (2 * s.layout.pitch_mm.quanta());
            &&& across >= bound || across <= -bound || up >= bound || up <= -bound
                ==> n[2].quanta() <= rounding::two(-e)
            &&& -bound <= across <= bound && -bound <= up <= bound ==> n[2].quanta()
                >= rounding::two(-e - 1)
            &&& across == 0 && up == 0 ==> n[0].quanta() == 0 && n[1].quanta() == 0 && n[2].quanta()
                == rounding::unit()
        }),
{
    lemma_shown(f, s, t, k, i, j);
    let pitch = s.layout.pitch_mm;
    let (x, y) = (i as int, j as int);
    lemma_normal(f, *s.field, pitch, x, y);
    let (l, r) = (level(*s.field, x - 1, y), level(*s.field, x + 1, y));
    let (a, b) = (level(*s.field, x, y - 1), level(*s.field, x, y + 1));
    lemma_slope(f, pitch, l, r);
    lemma_slope(f, pitch, b, a);
    let (dx, dy) = (slope(f, pitch, l, r), slope(f, pitch, b, a));
    lemma_finite_rise(f, pitch, l, r);
    lemma_finite_rise(f, pitch, b, a);
    lemma_steep(f, pitch, l, r, e);
    lemma_steep(f, pitch, b, a, e);
    rounding::lemma_opposite(dx);
    rounding::lemma_opposite(dy);
    rounding::lemma_constants();
    rounding::lemma_two(0);
    rounding::lemma_two_order(0, e as int);
    rounding::lemma_two_order(e as int, 20);
    let v = Vector { x: dx.opposite(), y: dy.opposite(), z: Real { bits: ONE } };
    let (across, up) = (r.quanta() - l.quanta(), a.quanta() - b.quanta());
    let bound = power2::pow2(e) * (2 * pitch.quanta());
    if across >= bound || across <= -bound || up >= bound || up <= -bound {
        assert(sized(v, e as int, 20));
        lemma_recip(f, v, e as int, 20);
    }
    if -bound <= across <= bound && -bound <= up <= bound {
        assert(sized(v, 0, e as int));
        lemma_recip(f, v, 0, e as int);
    }
    if across == 0 && up == 0 {
        lemma_level(f, v);
        let q = vector::length_recip(f, v);
        rounding::lemma_nothing(f, v.x, q);
        rounding::lemma_nothing(f, v.y, q);
    }
}

proof fn lemma_finite_rise<F: Fn(Op, Real, Real) -> Real>(f: F, pitch: Real, from: Real, to: Real)
    requires
        rounding::rounds(f),
        pitch.finite(),
        0 < pitch.quanta() <= rounding::two(51),
        from.finite(),
        to.finite(),
        -(0x10_0000 * (2 * pitch.quanta())) <= to.quanta() - from.quanta() <= 0x10_0000 * (2
            * pitch.quanta()),
    ensures
        number::minus(f, to, from).finite(),
{
    vstd::arithmetic::power2::lemma2_to64();
    rounding::lemma_two(51);
    rounding::lemma_shifted(pitch, 21);
    let big = rounding::number_at(0x10_0000 * (2 * pitch.quanta()));
    assert(pitch.quanta() * 0x20_0000 == 0x10_0000 * (2 * pitch.quanta()));
    rounding::lemma_opposite(big);
    rounding::lemma_sum_side(f, Op::Minus, to, from, big);
    rounding::lemma_sum_side(f, Op::Minus, to, from, big.opposite());
}

/// A vector towards the viewer of length one has a length of one.
proof fn lemma_level<F: Fn(Op, Real, Real) -> Real>(f: F, v: Vector)
    requires
        rounding::rounds(f),
        v.x.finite() && v.x.quanta() == 0,
        v.y.finite() && v.y.quanta() == 0,
        v.z == (Real { bits: ONE }),
    ensures
        vector::length_recip(f, v).finite(),
        vector::length_recip(f, v).quanta() == rounding::unit(),
{
    rounding::lemma_constants();
    let one = Real { bits: ONE };
    rounding::lemma_nothing(f, v.x, v.x);
    rounding::lemma_nothing(f, v.y, v.y);
    let (a, b) = (number::times(f, v.x, v.x), number::times(f, v.y, v.y));
    rounding::lemma_nothing(f, b, a);
    let d = number::plus(f, a, b);
    rounding::lemma_once(f, one);
    let c = number::times(f, one, one);
    assert(one.quanta() == rounding::unit());
    rounding::lemma_sum_exact(f, Op::Plus, d, c);
    let s = number::plus(f, d, c);
    assert(s == vector::dot(f, v, v));
    rounding::lemma_root_side(f, s, one);
    let h = number::root(f, s);
    rounding::lemma_order(h, one);
    assert(h.finite());
    let u = rounding::unit();
    rounding::lemma_quotient_exact(f, one, h, u);
}

/// A grid line lies at an exact place.
pub open spec fn ruled(n: int, pitch: int, i: int) -> bool {
    exists|a: int| 2 * a == (2 * i - n) * pitch && #[trigger] rounding::representable(a)
}

/// A normal is perpendicular to the surface. Between the neighbours left and
/// right, as they are placed, the surface goes across and up; the normal goes
/// across exactly as much as makes the two perpendicular, to the nearest number.
/// The same holds between the neighbours below and above.
pub proof fn law_normals_are_perpendicular<F: Fn(Op, Real, Real) -> Real>(
    f: F,
    s: Solid,
    t: TileMesh,
    k: int,
    i: usize,
    j: usize,
    dx: int,
    dy: int,
)
    requires
        rounding::rounds(f),
        s.wf(),
        shows(f, s, t, k, i, j),
        0 < i < s.layout.w - 1,
        0 < j < s.layout.h - 1,
        s.layout.w <= 0x100_0000,
        s.layout.h <= 0x100_0000,
        gentle(*s.field, s.layout.pitch_mm, i as int, j as int),
        ruled(s.layout.w - 1, s.layout.pitch_mm.quanta(), i - 1),
        ruled(s.layout.w - 1, s.layout.pitch_mm.quanta(), i + 1),
        ruled(s.layout.h - 1, -s.layout.pitch_mm.quanta(), j - 1),
        ruled(s.layout.h - 1, -s.layout.pitch_mm.quanta(), j + 1),
        rounding::representable(
            s.field.height(i + 1, j as int).quanta() - s.field.height(i - 1, j as int).quanta(),
        ),
        rounding::representable(
            s.field.height(i as int, j - 1).quanta() - s.field.height(i as int, j + 1).quanta(),
        ),
        rounding::representable(dx),
        rounding::representable(dy),
        dx * (2 * s.layout.pitch_mm.quanta()) == (s.field.height(i + 1, j as int).quanta()
            - s.field.height(i - 1, j as int).quanta()) * rounding::unit(),
        dy * (2 * s.layout.pitch_mm.quanta()) == (s.field.height(i as int, j - 1).quanta()
            - s.field.height(i as int, j + 1).quanta()) * rounding::unit(),
    ensures
        ({
            let n = t.normals@[k]@;
            let left = s.place(f, Block::Surface { i: (i - 1) as usize, j });
            let right = s.place(f, Block::Surface { i: (i + 1) as usize, j });
            let above = s.place(f, Block::Surface { i, j: (j - 1) as usize });
            let below = s.place(f, Block::Surface { i, j: (j + 1) as usize });
            let (run, rise) = (
                right.x.quanta() - left.x.quanta(),
                right.z.quanta() - left.z.quanta(),
            );
            let (climb, lift) = (
                above.y.quanta() - below.y.quanta(),
                above.z.quanta() - below.z.quanta(),
            );
            &&& run > 0 && climb > 0
            &&& right.y == left.y && above.x == below.x
            &&& squares(n[0], n[2], run, rise)
            &&& squares(n[1], n[2], climb, lift)
        }),
{
    lemma_shown(f, s, t, k, i, j);
    lemma_spaced(f, s, i, j);
    let p = s.layout.pitch_mm.quanta();
    assert(dx * (2 * p) == (s.field.height(i + 1, j as int).quanta() - s.field.height(
        i - 1,
        j as int,
    ).quanta()) * rounding::unit());
    assert(dy * (2 * p) == (s.field.height(i as int, j - 1).quanta() - s.field.height(
        i as int,
        j + 1,
    ).quanta()) * rounding::unit());
    lemma_perpendicular(f, *s.field, s.layout.pitch_mm, i as int, j as int, dx, dy);
}

/// Two grid lines apart is two pitches apart.
proof fn lemma_spaced<F: Fn(Op, Real, Real) -> Real>(f: F, s: Solid, i: usize, j: usize)
    requires
        rounding::rounds(f),
        0 < i < s.layout.w - 1,
        0 < j < s.layout.h - 1,
        s.layout.w <= 0x100_0000,
        s.layout.h <= 0x100_0000,
        s.layout.pitch_mm.finite(),
        s.layout.pitch_mm.quanta() > 0,
        ruled(s.layout.w - 1, s.layout.pitch_mm.quanta(), i - 1),
        ruled(s.layout.w - 1, s.layout.pitch_mm.quanta(), i + 1),
        ruled(s.layout.h - 1, -s.layout.pitch_mm.quanta(), j - 1),
        ruled(s.layout.h - 1, -s.layout.pitch_mm.quanta(), j + 1),
    ensures
        ({
            let left = s.place(f, Block::Surface { i: (i - 1) as usize, j });
            let right = s.place(f, Block::Surface { i: (i + 1) as usize, j });
            let above = s.place(f, Block::Surface { i, j: (j - 1) as usize });
            let below = s.place(f, Block::Surface { i, j: (j + 1) as usize });
            &&& right.x.quanta() - left.x.quanta() == 2 * s.layout.pitch_mm.quanta()
            &&& above.y.quanta() - below.y.quanta() == 2 * s.layout.pitch_mm.quanta()
        }),
{
    let (w, h) = (s.layout.w - 1, s.layout.h - 1);
    let p = s.layout.pitch_mm.quanta();
    measure::law_grid_is_even(f, s, (i - 1) as usize, (j - 1) as usize, i, j);
    measure::law_grid_is_even(
        f,
        s,
        (i + 1) as usize,
        (j + 1) as usize,
        (i + 1) as usize,
        (j + 1) as usize,
    );
    let c = choose|c: int| 2 * c == (2 * (i - 1) - w) * p && #[trigger] rounding::representable(c);
    let d = choose|d: int| 2 * d == (2 * (i + 1) - w) * p && #[trigger] rounding::representable(d);
    let e = choose|e: int|
        2 * e == (2 * (j - 1) - h) * (-p) && #[trigger] rounding::representable(e);
    let g = choose|g: int|
        2 * g == (2 * (j + 1) - h) * (-p) && #[trigger] rounding::representable(g);
    assert(d - c == 2 * p && e - g == 2 * p) by (nonlinear_arith)
        requires
            2 * c == (2 * (i - 1) - w) * p,
            2 * d == (2 * (i + 1) - w) * p,
            2 * e == (2 * (j - 1) - h) * (-p),
            2 * g == (2 * (j + 1) - h) * (-p),
    ;
    assert((2 * (j - 1) - h) * (-p) == (h - 2 * (j - 1)) * p && (2 * (j + 1) - h) * (-p) == (h - 2 * (j
        + 1)) * p) by (nonlinear_arith);
}

proof fn lemma_perpendicular<F: Fn(Op, Real, Real) -> Real>(
    f: F,
    field: HeightField,
    pitch: Real,
    i: int,
    j: int,
    dx: int,
    dy: int,
)
    requires
        rounding::rounds(f),
        gentle(field, pitch, i, j),
        rounding::representable(level(field, i + 1, j).quanta() - level(field, i - 1, j).quanta()),
        rounding::representable(level(field, i, j - 1).quanta() - level(field, i, j + 1).quanta()),
        rounding::representable(dx),
        rounding::representable(dy),
        dx * (2 * pitch.quanta()) == (level(field, i + 1, j).quanta() - level(
            field,
            i - 1,
            j,
        ).quanta()) * rounding::unit(),
        dy * (2 * pitch.quanta()) == (level(field, i, j - 1).quanta() - level(
            field,
            i,
            j + 1,
        ).quanta()) * rounding::unit(),
    ensures
        ({
            let n = tiles::slope_normal(f, field, pitch, i, j);
            &&& squares(
                n.x,
                n.z,
                2 * pitch.quanta(),
                level(field, i + 1, j).quanta() - level(field, i - 1, j).quanta(),
            )
            &&& squares(
                n.y,
                n.z,
                2 * pitch.quanta(),
                level(field, i, j - 1).quanta() - level(field, i, j + 1).quanta(),
            )
        }),
{
    lemma_normal(f, field, pitch, i, j);
    let (l, r) = (level(field, i - 1, j), level(field, i + 1, j));
    let (a, b) = (level(field, i, j - 1), level(field, i, j + 1));
    lemma_slope(f, pitch, l, r);
    lemma_slope(f, pitch, b, a);
    rounding::lemma_two(-21);
    let (gx, gy) = (slope(f, pitch, l, r), slope(f, pitch, b, a));
    let v = Vector { x: gx.opposite(), y: gy.opposite(), z: Real { bits: ONE } };
    let q = vector::length_recip(f, v);
    lemma_part(f, gx, q);
    lemma_part(f, gy, q);
    let n = tiles::slope_normal(f, field, pitch, i, j);
    lemma_squares(n.x, n.z, 2 * pitch.quanta(), r.quanta() - l.quanta(), dx);
    lemma_squares(n.y, n.z, 2 * pitch.quanta(), a.quanta() - b.quanta(), dy);
}

/// A step of `n` sideways and `m` out is perpendicular to one of `run` sideways
/// and `rise` out, as nearly as numbers go: no number on the other side of the
/// perpendicular is passed, and it is met where it is a number.
pub open spec fn squares(n: Real, m: Real, run: int, rise: int) -> bool {
    &&& n.finite() && m.finite() && m.quanta() > 0
    &&& forall|c: Real|
        c.finite() && #[trigger] c.quanta() * run + m.quanta() * rise <= 0 ==> c.at_most(n)
    &&& forall|c: Real|
        c.finite() && #[trigger] c.quanta() * run + m.quanta() * rise >= 0 ==> n.at_most(c)
    &&& (exists|c: Real| c.finite() && #[trigger] c.quanta() * run + m.quanta() * rise == 0)
        ==> n.quanta() * run + m.quanta() * rise == 0
}

proof fn lemma_squares(n: Real, m: Real, run: int, rise: int, d: int)
    requires
        n.finite(),
        m.finite(),
        m.quanta() > 0,
        run > 0,
        d * run == rise * rounding::unit(),
        forall|c: Real|
            c.finite() && #[trigger] c.quanta() * rounding::unit() <= -(d * m.quanta())
                ==> c.at_most(n),
        forall|c: Real|
            c.finite() && #[trigger] c.quanta() * rounding::unit() >= -(d * m.quanta())
                ==> n.at_most(c),
    ensures
        squares(n, m, run, rise),
{
    rounding::lemma_constants();
    let (u, y) = (rounding::unit(), m.quanta());
    assert forall|c: Real| c.finite() && #[trigger] c.quanta() * run + y * rise <= 0 implies c.at_most(
        n,
    ) by {
        let x = c.quanta();
        assert(x * u <= -(d * y)) by (nonlinear_arith)
            requires
                x * run + y * rise <= 0,
                d * run == rise * u,
                run > 0,
                u > 0,
        {
            assert((x * run + y * rise) * u <= 0);
            assert((x * u + d * y) * run == (x * run) * u + y * (d * run));
            assert(y * (rise * u) == (y * rise) * u);
            assert((x * u + d * y) * run <= 0);
        }
    }
    assert forall|c: Real| c.finite() && #[trigger] c.quanta() * run + y * rise >= 0 implies n.at_most(
        c,
    ) by {
        let x = c.quanta();
        assert(x * u >= -(d * y)) by (nonlinear_arith)
            requires
                x * run + y * rise >= 0,
                d * run == rise * u,
                run > 0,
                u > 0,
        {
            assert((x * run + y * rise) * u >= 0);
            assert((x * u + d * y) * run == (x * run) * u + y * (d * run));
            assert(y * (rise * u) == (y * rise) * u);
            assert((x * u + d * y) * run >= 0);
        }
    }
    if exists|c: Real| c.finite() && #[trigger] c.quanta() * run + y * rise == 0 {
        let c = choose|c: Real| c.finite() && #[trigger] c.quanta() * run + y * rise == 0;
        assert(c.at_most(n) && n.at_most(c));
        rounding::lemma_order(c, n);
    }
}

// ---------------------------------------------------------------------------
// Photo coordinates
// ---------------------------------------------------------------------------

/// The photo is stretched over the relief the way it is seen: its left edge is
/// at the first column and its right edge at the last, its top edge is at the
/// first row and its bottom edge at the last, and in between it goes on evenly.
pub proof fn law_photo_covers_the_relief<F: Fn(Op, Real, Real) -> Real>(
    f: F,
    s: Solid,
    t: TileMesh,
    k: int,
    i: usize,
    j: usize,
    o: TileMesh,
    l: int,
    p: usize,
    q: usize,
)
    requires
        rounding::rounds(f),
        s.wf(),
        2 <= s.layout.w <= 0x100_0000,
        2 <= s.layout.h <= 0x100_0000,
        shows(f, s, t, k, i, j),
        shows(f, s, o, l, p, q),
    ensures
        ({
            let (a, b) = (t.uvs@[k]@, o.uvs@[l]@);
            let (w, h, u) = (s.layout.w - 1, s.layout.h - 1, rounding::unit());
            &&& a.len() == 2 && a[0].finite() && a[1].finite()
            &&& 0 <= a[0].quanta() <= u && 0 <= a[1].quanta() <= u
            &&& i == 0 ==> a[0].quanta() == 0
            &&& i == w ==> a[0].quanta() == u
            &&& j == 0 ==> a[1].quanta() == 0
            &&& j == h ==> a[1].quanta() == u
            &&& i <= p ==> a[0].quanta() <= b[0].quanta()
            &&& j <= q ==> a[1].quanta() <= b[1].quanta()
            &&& forall|x: int| #[trigger]
                rounding::representable(x) && x * w == i * u ==> a[0].quanta() == x
            &&& forall|x: int| #[trigger]
                rounding::representable(x) && x * h == j * u ==> a[1].quanta() == x
        }),
{
    lemma_shown(f, s, t, k, i, j);
    lemma_shown(f, s, o, l, p, q);
    let (w, h) = ((s.layout.w - 1) as nat, (s.layout.h - 1) as nat);
    lemma_share(f, w, i as nat);
    lemma_share(f, h, j as nat);
    lemma_share(f, w, p as nat);
    lemma_share(f, h, q as nat);
    if i <= p {
        lemma_shares(f, w, i as nat, p as nat);
    }
    if j <= q {
        lemma_shares(f, h, j as nat, q as nat);
    }
}

/// A whole number's share of another.
pub open spec fn share<F: Fn(Op, Real, Real) -> Real>(f: F, n: nat, i: nat) -> Real {
    number::over(f, number::whole(i), number::whole(n))
}

pub proof fn lemma_share<F: Fn(Op, Real, Real) -> Real>(f: F, n: nat, i: nat)
    requires
        rounding::rounds(f),
        1 <= n <= 0x100_0000,
        i <= n,
    ensures
        ({
            let (a, u) = (share(f, n, i), rounding::unit());
            &&& a.finite() && 0 <= a.quanta() <= u
            &&& i == 0 ==> a.quanta() == 0
            &&& i == n ==> a.quanta() == u
            &&& forall|x: int| #[trigger]
                rounding::representable(x) && x * n == i * u ==> a.quanta() == x
        }),
{
    rounding::lemma_constants();
    rounding::lemma_whole(n);
    rounding::lemma_whole(i);
    let u = rounding::unit();
    let (a, b) = (number::whole(i), number::whole(n));
    let (zero, one) = (Real { bits: ZERO }, Real { bits: ONE });
    let (x, y) = (i * u, n * u);
    assert(0 <= x <= y && y > 0) by (nonlinear_arith)
        requires
            x == i * u,
            y == n * u,
            0 <= i <= n,
            n >= 1,
            u > 0,
    ;
    assert(0 * y <= x * u <= u * y) by (nonlinear_arith)
        requires
            0 <= x <= y,
            u > 0,
    ;
    rounding::lemma_quotient_side(f, a, b, zero);
    rounding::lemma_quotient_side(f, a, b, one);
    let r = share(f, n, i);
    assert(r.finite());
    rounding::lemma_order(zero, r);
    rounding::lemma_order(r, one);
    assert forall|q: int| #[trigger] rounding::representable(q) && q * n == i * u implies r.quanta()
        == q by {
        assert((i * u) * u == q * (n * u)) by (nonlinear_arith)
            requires
                q * n == i * u,
        ;
        rounding::lemma_quotient_exact(f, a, b, q);
    }
    assert(zero.quanta() == 0 && one.quanta() == u);
    assert(rounding::representable(0) && rounding::representable(u));
    assert(0 * n == 0 && 0 * u == 0 && u * n == n * u) by (nonlinear_arith);
}

pub proof fn lemma_shares<F: Fn(Op, Real, Real) -> Real>(f: F, n: nat, i: nat, k: nat)
    requires
        rounding::rounds(f),
        1 <= n <= 0x100_0000,
        i <= k <= n,
    ensures
        share(f, n, i).quanta() <= share(f, n, k).quanta(),
{
    lemma_share(f, n, i);
    lemma_share(f, n, k);
    rounding::lemma_constants();
    rounding::lemma_whole(n);
    rounding::lemma_whole(i);
    rounding::lemma_whole(k);
    let u = rounding::unit();
    assert(i * u <= k * u && n * u > 0) by (nonlinear_arith)
        requires
            i <= k,
            n >= 1,
            u > 0,
    ;
    rounding::lemma_quotients(f, number::whole(i), number::whole(k), number::whole(n));
    rounding::lemma_order(share(f, n, i), share(f, n, k));
}

} // verus!
