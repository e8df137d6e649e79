//! What resampling makes of a depth map.

use vstd::prelude::*;
use vstd::arithmetic::power2;
use crate::depth;
use crate::depth::DepthMap;
use crate::grid;
use crate::heights;
use crate::number;
use crate::number::{Op, Real, ONE, ZERO};
use crate::rounding;

verus! {

/// No side is so long that single precision could not count it.
pub open spec fn countable(m: DepthMap, w: nat, h: nat) -> bool {
    &&& m.wf()
    &&& m.width <= 0x80_0000 && m.height <= 0x80_0000
    &&& 2 <= w <= 0x80_0000 && 2 <= h <= 0x80_0000
    &&& heights::level_headed(m.data@)
}

// ---------------------------------------------------------------------------
// Along one axis
// ---------------------------------------------------------------------------

/// A power of two that is not below a fraction, but below twice that.
proof fn lemma_power(n: int, d: int, k: nat)
    requires
        1 <= d <= n,
        n <= power2::pow2(k) * d,
    ensures
        exists|j: nat| j <= k && n <= #[trigger] power2::pow2(j) * d < 2 * n,
    decreases k,
{
    power2::lemma_pow2_pos(k);
    if power2::pow2(k) * d < 2 * n {
    } else if k == 0 {
        vstd::arithmetic::power2::lemma2_to64();
        assert(false);
    } else {
        power2::lemma_pow2_unfold(k);
        let p = power2::pow2((k - 1) as nat) as int;
        assert(n <= p * d) by (nonlinear_arith)
            requires
                (2 * p) * d >= 2 * n,
        ;
        lemma_power(n, d, (k - 1) as nat);
        let j = choose|j: nat|
            j <= (k - 1) as nat && n <= #[trigger] power2::pow2(j) * d < 2 * n;
        assert(n <= power2::pow2(j) * d < 2 * n);
    }
}

/// The stride is a number that does not carry past the end.
proof fn lemma_stride<F: Fn(Op, Real, Real) -> Real>(f: F, from: nat, to: nat)
    requires
        rounding::rounds(f),
        1 <= from <= 0x80_0000,
        2 <= to <= 0x80_0000,
    ensures
        ({
            let s = depth::stride(f, from, to);
            &&& s.finite() && s.quanta() >= 0
            &&& s.quanta() * (to - 1) <= 2 * (from - 1) * rounding::unit()
            &&& forall|q: int| #[trigger]
                rounding::representable(q) && q * (to - 1) == (from - 1) * rounding::unit()
                    ==> s.quanta() == q
        }),
{
    let u = rounding::unit();
    rounding::lemma_constants();
    let (zero, one) = (Real { bits: ZERO }, Real { bits: ONE });
    rounding::lemma_whole(from);
    rounding::lemma_whole(to);
    rounding::lemma_whole((from - 1) as nat);
    rounding::lemma_whole((to - 1) as nat);
    let (n, d) = (from - 1, to - 1);
    assert(from * u - u == n * u && to * u - u == d * u) by (nonlinear_arith)
        requires
            n == from - 1,
            d == to - 1,
    ;
    assert(rounding::representable(n * u)) by {
        assert(number::whole(n as nat).quanta() == n * u);
    }
    assert(rounding::representable(d * u)) by {
        assert(number::whole(d as nat).quanta() == d * u);
    }
    rounding::lemma_sum_exact(f, Op::Minus, number::whole(from), one);
    rounding::lemma_sum_exact(f, Op::Minus, number::whole(to), one);
    let a = number::minus(f, number::whole(from), one);
    let b = number::minus(f, number::whole(to), one);
    let s = depth::stride(f, from, to);
    assert(d * u > 0 && n * u >= 0) by (nonlinear_arith)
        requires
            d >= 1,
            n >= 0,
            u > 0,
    ;
    assert(0 * (d * u) <= (n * u) * u) by (nonlinear_arith)
        requires
            n >= 0,
            u > 0,
    ;
    rounding::lemma_quotient_side(f, a, b, zero);
    if n == 0 {
        rounding::lemma_nothing(f, a, b);
        assert(0 * d == 0) by (nonlinear_arith);
        assert forall|q: int| #[trigger]
            rounding::representable(q) && q * d == n * u implies s.quanta() == q by {
            assert(q == 0) by (nonlinear_arith)
                requires
                    q * d == 0,
                    d >= 1,
            ;
        }
    } else {
        let g = n * u;
        number::lemma_pow2_order(23, 149);
        vstd::arithmetic::power2::lemma2_to64();
        assert(d <= g) by (nonlinear_arith)
            requires
                d <= 0x80_0000,
                u >= 0x80_0000,
                n >= 1,
                g == n * u,
        ;
        power2::lemma_pow2_adds(23, 149);
        assert(g <= power2::pow2(172) * d) by (nonlinear_arith)
            requires
                g == n * u,
                n <= 0x80_0000,
                power2::pow2(172) == 0x80_0000 * u,
                d >= 1,
                u > 0,
        ;
        lemma_power(g, d, 172);
        let j = choose|j: nat| j <= 172 && g <= #[trigger] power2::pow2(j) * d < 2 * g;
        rounding::lemma_representable(1, j);
        let p = power2::pow2(j) as int;
        let c = choose|c: Real| c.finite() && #[trigger] c.quanta() == 1 * p;
        assert((n * u) * u <= c.quanta() * (d * u)) by (nonlinear_arith)
            requires
                c.quanta() == 1 * p,
                n * u <= p * d,
                u > 0,
        ;
        rounding::lemma_quotient_side(f, a, b, c);
        assert(s.finite());
        rounding::lemma_order(s, c);
        assert(s.quanta() * d <= p * d) by (nonlinear_arith)
            requires
                s.quanta() <= p,
                d >= 1,
        ;
        assert(2 * (n * u) == 2 * n * u) by (nonlinear_arith);
        assert forall|q: int| #[trigger]
            rounding::representable(q) && q * d == n * u implies s.quanta() == q by {
            assert((n * u) * u == q * (d * u)) by (nonlinear_arith)
                requires
                    q * d == n * u,
            ;
            rounding::lemma_quotient_exact(f, a, b, q);
        }
    }
    rounding::lemma_order(zero, s);
}

/// A landing is at a source sample or less than one past it.
proof fn lemma_landing<F: Fn(Op, Real, Real) -> Real>(f: F, from: nat, to: nat, i: nat)
    requires
        rounding::rounds(f),
        1 <= from <= 0x80_0000,
        2 <= to <= 0x80_0000,
        i < to,
    ensures
        ({
            let s = depth::stride(f, from, to);
            let p = number::times(f, number::whole(i), s);
            let (x, t) = depth::landing(f, i, s);
            let u = rounding::unit();
            &&& p.finite() && 0 <= p.quanta() <= 0x100_0000 * u
            &&& 0 <= x <= 0x100_0000
            &&& x * u <= p.quanta() < (x + 1) * u
            &&& t == number::minus(f, p, number::whole(x as nat))
            &&& number::whole(x as nat).finite() && number::whole(x as nat).quanta() == x * u
            &&& t.finite() && 0 <= t.quanta() <= u
            &&& i == 0 ==> x == 0 && t.quanta() == 0
        }),
{
    let u = rounding::unit();
    rounding::lemma_constants();
    lemma_stride(f, from, to);
    let (zero, one) = (Real { bits: ZERO }, Real { bits: ONE });
    let s = depth::stride(f, from, to);
    rounding::lemma_whole(i);
    let w = number::whole(i);
    let p = number::times(f, w, s);
    rounding::lemma_whole(0x100_0000);
    let c = number::whole(0x100_0000);
    let (a, b) = (w.quanta(), s.quanta());
    assert(0 * u <= a * b <= (0x100_0000 * u) * u) by (nonlinear_arith)
        requires
            a == i * u,
            0 <= i <= to - 1,
            b >= 0,
            b * (to - 1) <= 2 * (from - 1) * u,
            1 <= from <= 0x80_0000,
            u > 0,
    {
        assert(i * b <= (to - 1) * b);
        assert((to - 1) * b <= 0x100_0000 * u) by {
            assert(2 * (from - 1) * u <= 0x100_0000 * u);
        }
        assert(i * b <= 0x100_0000 * u);
        assert(a * b == (i * b) * u);
        assert((i * b) * u <= (0x100_0000 * u) * u);
        assert(0 <= i * b);
    }
    rounding::lemma_product_side(f, w, s, zero);
    rounding::lemma_product_side(f, w, s, c);
    assert(p.finite());
    rounding::lemma_order(zero, p);
    rounding::lemma_order(p, c);
    rounding::lemma_floored(p);
    let x = p.floored();
    assert(depth::index_of(p) == x);
    rounding::lemma_whole(x as nat);
    let n = number::whole(x as nat);
    assert((x + 1) * u == x * u + u) by (nonlinear_arith);
    rounding::lemma_sum_side(f, Op::Minus, p, n, zero);
    rounding::lemma_sum_side(f, Op::Minus, p, n, one);
    let t = number::minus(f, p, n);
    assert(t.finite());
    rounding::lemma_order(zero, t);
    rounding::lemma_order(t, one);
    if i == 0 {
        assert(0 * u == 0) by (nonlinear_arith);
        rounding::lemma_nothing(f, w, s);
        assert(x == 0) by (nonlinear_arith)
            requires
                x * u <= 0,
                x >= 0,
                u > 0,
        ;
        rounding::lemma_nothing(f, n, p);
    }
}

/// Later samples do not land earlier.
proof fn lemma_landings<F: Fn(Op, Real, Real) -> Real>(f: F, from: nat, to: nat, i: nat, j: nat)
    requires
        rounding::rounds(f),
        1 <= from <= 0x80_0000,
        2 <= to <= 0x80_0000,
        i <= j < to,
    ensures
        ({
            let s = depth::stride(f, from, to);
            let (x, t) = depth::landing(f, i, s);
            let (y, v) = depth::landing(f, j, s);
            &&& x <= y
            &&& x == y ==> t.quanta() <= v.quanta()
        }),
{
    let u = rounding::unit();
    rounding::lemma_constants();
    lemma_stride(f, from, to);
    lemma_landing(f, from, to, i);
    lemma_landing(f, from, to, j);
    let s = depth::stride(f, from, to);
    rounding::lemma_whole(i);
    rounding::lemma_whole(j);
    let (a, b) = (number::whole(i), number::whole(j));
    assert(a.quanta() * s.quanta() <= b.quanta() * s.quanta()) by (nonlinear_arith)
        requires
            a.quanta() == i * u,
            b.quanta() == j * u,
            i <= j,
            u > 0,
            s.quanta() >= 0,
    ;
    rounding::lemma_products(f, a, s, b, s);
    let (p, q) = (number::times(f, a, s), number::times(f, b, s));
    rounding::lemma_order(p, q);
    let (x, t) = depth::landing(f, i, s);
    let (y, v) = depth::landing(f, j, s);
    assert(x <= y) by (nonlinear_arith)
        requires
            x * u <= p.quanta(),
            p.quanta() <= q.quanta(),
            q.quanta() < (y + 1) * u,
            u > 0,
    ;
    if x == y {
        let n = number::whole(x as nat);
        rounding::lemma_sums(f, Op::Minus, p, n, Op::Minus, q, n);
        rounding::lemma_order(t, v);
    }
}

/// With an exact stride, a landing that needs no rounding is exact.
proof fn lemma_landing_exact<F: Fn(Op, Real, Real) -> Real>(
    f: F,
    from: nat,
    to: nat,
    i: nat,
    q: int,
    x: int,
    t: int,
)
    requires
        rounding::rounds(f),
        1 <= from <= 0x80_0000,
        2 <= to <= 0x80_0000,
        i < to,
        rounding::representable(q),
        q * (to - 1) == (from - 1) * rounding::unit(),
        i * q == x * rounding::unit() + t,
        0 <= t < rounding::unit(),
        rounding::representable(i * q),
        rounding::representable(t),
    ensures
        depth::landing(f, i, depth::stride(f, from, to)).0 == x,
        depth::landing(f, i, depth::stride(f, from, to)).1.quanta() == t,
{
    let u = rounding::unit();
    rounding::lemma_constants();
    lemma_stride(f, from, to);
    lemma_landing(f, from, to, i);
    let s = depth::stride(f, from, to);
    rounding::lemma_whole(i);
    let w = number::whole(i);
    assert(w.quanta() * s.quanta() == (i * q) * u) by (nonlinear_arith)
        requires
            w.quanta() == i * u,
            s.quanta() == q,
    ;
    rounding::lemma_product_exact(f, w, s, i * q);
    let p = number::times(f, w, s);
    let (y, v) = depth::landing(f, i, s);
    assert(x == y) by (nonlinear_arith)
        requires
            y * u <= p.quanta() < (y + 1) * u,
            p.quanta() == x * u + t,
            0 <= t < u,
    ;
    rounding::lemma_sum_exact(f, Op::Minus, p, number::whole(x as nat));
}

// ---------------------------------------------------------------------------
// Between two samples
// ---------------------------------------------------------------------------

proof fn lemma_difference<F: Fn(Op, Real, Real) -> Real>(f: F, a: Real, b: Real)
    requires
        rounding::rounds(f),
        heights::modest(a),
        heights::modest(b),
    ensures
        number::minus(f, b, a).finite(),
        a.quanta() == b.quanta() ==> number::minus(f, b, a).quanta() == 0,
{
    rounding::lemma_representable(1, 201);
    power2::lemma_pow2_unfold(201);
    let c = choose|c: Real| c.finite() && #[trigger] c.quanta() == 1 * power2::pow2(201);
    rounding::lemma_opposite(c);
    rounding::lemma_sum_side(f, Op::Minus, b, a, c);
    rounding::lemma_sum_side(f, Op::Minus, b, a, c.opposite());
    if a.quanta() == b.quanta() {
        rounding::lemma_constants();
        assert((Real { bits: ZERO }).quanta() == 0);
        rounding::lemma_sum_exact(f, Op::Minus, b, a);
    }
}

/// Nothing of the way is the first sample, and from a sample to its equal is
/// no way.
proof fn lemma_mix_start<F: Fn(Op, Real, Real) -> Real>(f: F, a: Real, b: Real, t: Real)
    requires
        rounding::rounds(f),
        heights::modest(a),
        heights::modest(b),
        t.finite(),
        t.quanta() == 0 || a.quanta() == b.quanta(),
    ensures
        heights::modest(depth::mix(f, a, b, t)),
        depth::mix(f, a, b, t).quanta() == a.quanta(),
{
    lemma_difference(f, a, b);
    let d = number::minus(f, b, a);
    if t.quanta() == 0 {
        rounding::lemma_nothing(f, t, d);
    } else {
        rounding::lemma_nothing(f, d, t);
    }
    rounding::lemma_nothing(f, number::times(f, d, t), a);
}

/// Part of the way up stays between the two, and more of the way is no lower.
proof fn lemma_mix_up<F: Fn(Op, Real, Real) -> Real>(f: F, a: Real, b: Real, t: Real, v: Real)
    requires
        rounding::rounds(f),
        heights::modest(a),
        heights::modest(b),
        a.quanta() <= b.quanta(),
        rounding::representable(b.quanta() - a.quanta()),
        t.finite(),
        v.finite(),
        0 <= t.quanta() <= v.quanta() <= rounding::unit(),
    ensures
        ({
            let (x, y) = (depth::mix(f, a, b, t), depth::mix(f, a, b, v));
            &&& x.finite() && y.finite()
            &&& a.quanta() <= x.quanta() <= y.quanta() <= b.quanta()
        }),
{
    rounding::lemma_constants();
    rounding::lemma_sum_exact(f, Op::Minus, b, a);
    let d = number::minus(f, b, a);
    let zero = Real { bits: ZERO };
    let u = rounding::unit();
    let (p, q) = (number::times(f, d, t), number::times(f, d, v));
    let (k, m, n) = (d.quanta(), t.quanta(), v.quanta());
    assert(0 * u <= k * m <= k * n <= k * u) by (nonlinear_arith)
        requires
            0 <= k,
            0 <= m <= n <= u,
    ;
    rounding::lemma_product_side(f, d, t, zero);
    rounding::lemma_products(f, d, t, d, v);
    rounding::lemma_product_side(f, d, v, d);
    assert(p.finite() && q.finite());
    rounding::lemma_order(zero, p);
    rounding::lemma_order(p, q);
    rounding::lemma_order(q, d);
    let (x, y) = (depth::mix(f, a, b, t), depth::mix(f, a, b, v));
    rounding::lemma_sum_side(f, Op::Plus, a, p, a);
    rounding::lemma_sums(f, Op::Plus, a, p, Op::Plus, a, q);
    rounding::lemma_sum_side(f, Op::Plus, a, q, b);
    assert(x.finite() && y.finite());
    rounding::lemma_order(a, x);
    rounding::lemma_order(x, y);
    rounding::lemma_order(y, b);
}

/// Going from `a` to `b` by the fraction `t` needs no rounding and leads to `v`.
pub open spec fn leads(a: int, b: int, t: int, v: int) -> bool {
    &&& rounding::representable(b - a)
    &&& rounding::representable(v - a)
    &&& rounding::representable(v)
    &&& (v - a) * rounding::unit() == (b - a) * t
}

pub proof fn lemma_mix_exact<F: Fn(Op, Real, Real) -> Real>(f: F, a: Real, b: Real, t: Real, v: int)
    requires
        rounding::rounds(f),
        a.finite(),
        b.finite(),
        t.finite(),
        leads(a.quanta(), b.quanta(), t.quanta(), v),
    ensures
        depth::mix(f, a, b, t).finite(),
        depth::mix(f, a, b, t).quanta() == v,
{
    rounding::lemma_sum_exact(f, Op::Minus, b, a);
    let d = number::minus(f, b, a);
    rounding::lemma_product_exact(f, d, t, v - a.quanta());
    rounding::lemma_sum_exact(f, Op::Plus, a, number::times(f, d, t));
}

// ---------------------------------------------------------------------------
// The whole map
// ---------------------------------------------------------------------------

proof fn lemma_sample(m: DepthMap, x: int, y: int)
    requires
        m.wf(),
        heights::level_headed(m.data@),
        x >= 0,
        y >= 0,
    ensures
        heights::modest(m.sample(x, y)),
{
    let (a, b) = (grid::pin(x, m.width as int), grid::pin(y, m.height as int));
    grid::lemma_index(m.width as int, m.height as int, a, b);
    assert(heights::modest(m.data@[b * m.width + a]));
}

/// A destination pixel, where the size changes.
proof fn lemma_pixel<F: Fn(Op, Real, Real) -> Real>(
    f: F,
    m: DepthMap,
    w: nat,
    h: nat,
    r: DepthMap,
    i: nat,
    j: nat,
)
    requires
        m.resized_to(f, w, h, r),
        w != m.width || h != m.height,
        i < w,
        j < h,
    ensures
        r.sample(i as int, j as int) == m.resample(f, w, h, i, j),
{
    grid::lemma_index(w as int, h as int, i as int, j as int);
    let k = (j * w + i) as int;
    assert(r.data@[k] == m.resample(f, w, h, (k % (w as int)) as nat, (k / (w as int)) as nat));
}

/// The first sample stays where it is, and so the map keeps its corner.
pub proof fn law_first_sample_stays<F: Fn(Op, Real, Real) -> Real>(
    f: F,
    m: DepthMap,
    w: nat,
    h: nat,
    r: DepthMap,
)
    requires
        rounding::rounds(f),
        countable(m, w, h),
        m.resized_to(f, w, h, r),
    ensures
        r.sample(0, 0).equals(m.sample(0, 0)),
{
    lemma_sample(m, 0, 0);
    if w != m.width || h != m.height {
        lemma_pixel(f, m, w, h, r, 0, 0);
        lemma_landing(f, m.width as nat, w, 0);
        lemma_landing(f, m.height as nat, h, 0);
        lemma_sample(m, 1, 0);
        lemma_sample(m, 0, 1);
        lemma_sample(m, 1, 1);
        let tx = depth::landing(f, 0, depth::stride(f, m.width as nat, w)).1;
        let ty = depth::landing(f, 0, depth::stride(f, m.height as nat, h)).1;
        lemma_mix_start(f, m.sample(0, 0), m.sample(1, 0), tx);
        lemma_mix_start(f, m.sample(0, 1), m.sample(1, 1), tx);
        lemma_mix_start(
            f,
            depth::mix(f, m.sample(0, 0), m.sample(1, 0), tx),
            depth::mix(f, m.sample(0, 1), m.sample(1, 1), tx),
            ty,
        );
    }
    rounding::lemma_order(r.sample(0, 0), m.sample(0, 0));
}

/// Where the strides are exact, every destination pixel lies where it belongs:
/// it is the bilinear mean of the four source samples around its place. The
/// last sample stays on the last pixel, and with whole strides the samples in
/// between are the source's own.
pub proof fn law_resampling_is_bilinear<F: Fn(Op, Real, Real) -> Real>(
    f: F,
    m: DepthMap,
    w: nat,
    h: nat,
    r: DepthMap,
    i: nat,
    j: nat,
    across: int,
    down: int,
    x: int,
    y: int,
    tx: int,
    ty: int,
)
    requires
        rounding::rounds(f),
        countable(m, w, h),
        m.resized_to(f, w, h, r),
        w != m.width || h != m.height,
        i < w,
        j < h,
        rounding::representable(across),
        rounding::representable(down),
        across * (w - 1) == (m.width - 1) * rounding::unit(),
        down * (h - 1) == (m.height - 1) * rounding::unit(),
        i * across == x * rounding::unit() + tx,
        j * down == y * rounding::unit() + ty,
        0 <= tx < rounding::unit(),
        0 <= ty < rounding::unit(),
        rounding::representable(i * across),
        rounding::representable(j * down),
        rounding::representable(tx),
        rounding::representable(ty),
    ensures
        forall|top: int, bottom: int, v: int|
            #![trigger leads(m.sample(x, y).quanta(), m.sample(x + 1, y).quanta(), tx, top), leads(m.sample(x, y + 1).quanta(), m.sample(x + 1, y + 1).quanta(), tx, bottom), leads(top, bottom, ty, v)]
            leads(m.sample(x, y).quanta(), m.sample(x + 1, y).quanta(), tx, top) && leads(
                m.sample(x, y + 1).quanta(),
                m.sample(x + 1, y + 1).quanta(),
                tx,
                bottom,
            ) && leads(top, bottom, ty, v) ==> r.sample(i as int, j as int).finite() && r.sample(
                i as int,
                j as int,
            ).quanta() == v,
        tx == 0 && ty == 0 ==> r.sample(i as int, j as int).equals(m.sample(x, y)),
{
    lemma_pixel(f, m, w, h, r, i, j);
    lemma_landing(f, m.width as nat, w, i);
    lemma_landing(f, m.height as nat, h, j);
    lemma_landing_exact(f, m.width as nat, w, i, across, x, tx);
    lemma_landing_exact(f, m.height as nat, h, j, down, y, ty);
    let dx = depth::landing(f, i, depth::stride(f, m.width as nat, w)).1;
    let dy = depth::landing(f, j, depth::stride(f, m.height as nat, h)).1;
    lemma_sample(m, x, y);
    lemma_sample(m, x + 1, y);
    lemma_sample(m, x, y + 1);
    lemma_sample(m, x + 1, y + 1);
    let (a, b, c, d) = (
        m.sample(x, y),
        m.sample(x + 1, y),
        m.sample(x, y + 1),
        m.sample(x + 1, y + 1),
    );
    assert forall|top: int, bottom: int, v: int|
        #![trigger leads(a.quanta(), b.quanta(), tx, top), leads(c.quanta(), d.quanta(), tx, bottom), leads(top, bottom, ty, v)]
        leads(a.quanta(), b.quanta(), tx, top) && leads(c.quanta(), d.quanta(), tx, bottom)
            && leads(top, bottom, ty, v) implies r.sample(i as int, j as int).finite() && r.sample(
        i as int,
        j as int,
    ).quanta() == v by {
        lemma_mix_exact(f, a, b, dx, top);
        lemma_mix_exact(f, c, d, dx, bottom);
        lemma_mix_exact(f, depth::mix(f, a, b, dx), depth::mix(f, c, d, dx), dy, v);
    }
    if tx == 0 && ty == 0 {
        lemma_mix_start(f, a, b, dx);
        lemma_mix_start(f, c, d, dx);
        lemma_mix_start(f, depth::mix(f, a, b, dx), depth::mix(f, c, d, dx), dy);
        rounding::lemma_order(r.sample(i as int, j as int), a);
    }
}

/// With whole strides the result is every `across`-th sample of every `down`-th
/// row.
pub proof fn law_whole_strides_pick_samples<F: Fn(Op, Real, Real) -> Real>(
    f: F,
    m: DepthMap,
    w: nat,
    h: nat,
    r: DepthMap,
    i: nat,
    j: nat,
    across: nat,
    down: nat,
)
    requires
        rounding::rounds(f),
        countable(m, w, h),
        m.resized_to(f, w, h, r),
        i < w,
        j < h,
        across * (w - 1) == m.width - 1,
        down * (h - 1) == m.height - 1,
    ensures
        r.sample(i as int, j as int).equals(m.sample((across * i) as int, (down * j) as int)),
{
    let u = rounding::unit();
    rounding::lemma_constants();
    assert(across * i <= m.width - 1 && down * j <= m.height - 1 && across <= m.width - 1 && down
        <= m.height - 1) by (nonlinear_arith)
        requires
            across * (w - 1) == m.width - 1,
            down * (h - 1) == m.height - 1,
            0 <= i <= w - 1,
            0 <= j <= h - 1,
            w >= 2,
            h >= 2,
    ;
    lemma_sample(m, (across * i) as int, (down * j) as int);
    if w == m.width && h == m.height {
        assert(across == 1 && down == 1) by (nonlinear_arith)
            requires
                across * (w - 1) == w - 1,
                down * (h - 1) == h - 1,
                w >= 2,
                h >= 2,
        ;
        assert(across * i == i && down * j == j);
        assert(r.sample(i as int, j as int) == m.sample(i as int, j as int));
    } else {
        rounding::lemma_whole(across);
        rounding::lemma_whole(down);
        rounding::lemma_whole(across * i);
        rounding::lemma_whole(down * j);
        assert(number::whole(across).quanta() == across * u);
        assert(number::whole(down).quanta() == down * u);
        assert(number::whole(across * i).quanta() == (across * i) * u);
        assert(number::whole(down * j).quanta() == (down * j) * u);
        assert((Real { bits: ZERO }).quanta() == 0);
        assert((across * u) * (w - 1) == (m.width - 1) * u && i * (across * u) == (across * i) * u)
            by (nonlinear_arith)
            requires
                across * (w - 1) == m.width - 1,
        ;
        assert((down * u) * (h - 1) == (m.height - 1) * u && j * (down * u) == (down * j) * u)
            by (nonlinear_arith)
            requires
                down * (h - 1) == m.height - 1,
        ;
        law_resampling_is_bilinear(
            f,
            m,
            w,
            h,
            r,
            i,
            j,
            across * u,
            down * u,
            (across * i) as int,
            (down * j) as int,
            0,
            0,
        );
    }
}

/// The corners stay the corners wherever the strides are exact.
pub proof fn law_last_sample_stays<F: Fn(Op, Real, Real) -> Real>(
    f: F,
    m: DepthMap,
    w: nat,
    h: nat,
    r: DepthMap,
    across: int,
    down: int,
)
    requires
        rounding::rounds(f),
        countable(m, w, h),
        m.resized_to(f, w, h, r),
        rounding::representable(across),
        rounding::representable(down),
        across * (w - 1) == (m.width - 1) * rounding::unit(),
        down * (h - 1) == (m.height - 1) * rounding::unit(),
    ensures
        r.sample(0, h - 1).equals(m.sample(0, m.height - 1)),
        r.sample(w - 1, 0).equals(m.sample(m.width - 1, 0)),
        r.sample(w - 1, h - 1).equals(m.sample(m.width - 1, m.height - 1)),
{
    let (x, y) = (m.width - 1, m.height - 1);
    let u = rounding::unit();
    rounding::lemma_constants();
    lemma_sample(m, 0, y);
    lemma_sample(m, x, 0);
    lemma_sample(m, x, y);
    if w != m.width || h != m.height {
        rounding::lemma_whole(x as nat);
        rounding::lemma_whole(y as nat);
        assert(number::whole(x as nat).quanta() == x * u);
        assert(number::whole(y as nat).quanta() == y * u);
        assert((Real { bits: ZERO }).quanta() == 0);
        let (i, j) = ((w - 1) as nat, (h - 1) as nat);
        assert(i * across == x * u && j * down == y * u && 0 * across == 0 && 0 * down == 0 && 0 * u
            == 0) by (nonlinear_arith)
            requires
                across * (w - 1) == x * u,
                down * (h - 1) == y * u,
                i == w - 1,
                j == h - 1,
        ;
        law_resampling_is_bilinear(f, m, w, h, r, 0, j, across, down, 0, y, 0, 0);
        law_resampling_is_bilinear(f, m, w, h, r, i, 0, across, down, x, 0, 0, 0);
        law_resampling_is_bilinear(f, m, w, h, r, i, j, across, down, x, y, 0, 0);
    }
}

/// Every row of the map is level, and none is lower than the one above it.
pub open spec fn rises_down(m: DepthMap) -> bool {
    &&& forall|x: int, y: int|
        0 <= x < m.width && 0 <= y < m.height ==> (#[trigger] m.sample(x, y)).quanta() == m.sample(
            0,
            y,
        ).quanta()
    &&& forall|y: int, z: int|
        0 <= y <= z < m.height ==> (#[trigger] m.sample(0, y)).quanta() <= (#[trigger] m.sample(
            0,
            z,
        )).quanta() && rounding::representable(m.sample(0, z).quanta() - m.sample(0, y).quanta())
}

/// Every column of the map is level, and none is lower than the one to the left
/// of it.
pub open spec fn rises_right(m: DepthMap) -> bool {
    &&& forall|x: int, y: int|
        0 <= x < m.width && 0 <= y < m.height ==> (#[trigger] m.sample(x, y)).quanta() == m.sample(
            x,
            0,
        ).quanta()
    &&& forall|x: int, z: int|
        0 <= x <= z < m.width ==> (#[trigger] m.sample(x, 0)).quanta() <= (#[trigger] m.sample(
            z,
            0,
        )).quanta() && rounding::representable(m.sample(z, 0).quanta() - m.sample(x, 0).quanta())
}

proof fn lemma_row_mean<F: Fn(Op, Real, Real) -> Real>(f: F, m: DepthMap, x: int, y: int, t: Real)
    requires
        rounding::rounds(f),
        m.wf(),
        heights::level_headed(m.data@),
        rises_down(m),
        x >= 0,
        y >= 0,
        t.finite(),
    ensures
        ({
            let v = depth::mix(f, m.sample(x, y), m.sample(x + 1, y), t);
            heights::modest(v) && v.quanta() == m.sample(0, grid::pin(y, m.height as int)).quanta()
        }),
{
    lemma_sample(m, x, y);
    lemma_sample(m, x + 1, y);
    let (a, b, c) = (
        grid::pin(x, m.width as int),
        grid::pin(x + 1, m.width as int),
        grid::pin(y, m.height as int),
    );
    assert(m.sample(x, y) == m.sample(a, c));
    assert(m.sample(x + 1, y) == m.sample(b, c));
    lemma_mix_start(f, m.sample(x, y), m.sample(x + 1, y), t);
}

/// Rows keep their order: a map that rises from row to row still does so when
/// resampled to any size.
pub proof fn law_rows_keep_their_order<F: Fn(Op, Real, Real) -> Real>(
    f: F,
    m: DepthMap,
    w: nat,
    h: nat,
    r: DepthMap,
    i: nat,
    j: nat,
    k: nat,
    l: nat,
)
    requires
        rounding::rounds(f),
        countable(m, w, h),
        m.resized_to(f, w, h, r),
        rises_down(m),
        i < w,
        k < w,
        j <= l < h,
    ensures
        r.sample(i as int, j as int).at_most(r.sample(k as int, l as int)),
{
    if w == m.width && h == m.height {
        assert(r.sample(i as int, j as int) == m.sample(i as int, j as int));
        assert(r.sample(k as int, l as int) == m.sample(k as int, l as int));
        lemma_sample(m, i as int, j as int);
        lemma_sample(m, k as int, l as int);
        assert(m.sample(0, j as int).quanta() <= m.sample(0, l as int).quanta());
        rounding::lemma_order(m.sample(i as int, j as int), m.sample(k as int, l as int));
    } else {
        lemma_pixel(f, m, w, h, r, i, j);
        lemma_pixel(f, m, w, h, r, k, l);
        lemma_landing(f, m.width as nat, w, i);
        lemma_landing(f, m.width as nat, w, k);
        lemma_landing(f, m.height as nat, h, j);
        lemma_landing(f, m.height as nat, h, l);
        lemma_landings(f, m.height as nat, h, j, l);
        let (x, tx) = depth::landing(f, i, depth::stride(f, m.width as nat, w));
        let (z, tz) = depth::landing(f, k, depth::stride(f, m.width as nat, w));
        let (y, ty) = depth::landing(f, j, depth::stride(f, m.height as nat, h));
        let (v, tv) = depth::landing(f, l, depth::stride(f, m.height as nat, h));
        lemma_row_mean(f, m, x, y, tx);
        lemma_row_mean(f, m, x, y + 1, tx);
        lemma_row_mean(f, m, z, v, tz);
        lemma_row_mean(f, m, z, v + 1, tz);
        let n = m.height as int;
        let (a, b, c, d) = (
            grid::pin(y, n),
            grid::pin(y + 1, n),
            grid::pin(v, n),
            grid::pin(v + 1, n),
        );
        assert(m.sample(0, a).quanta() <= m.sample(0, b).quanta());
        assert(m.sample(0, c).quanta() <= m.sample(0, d).quanta());
        let top = depth::mix(f, m.sample(x, y), m.sample(x + 1, y), tx);
        let bottom = depth::mix(f, m.sample(x, y + 1), m.sample(x + 1, y + 1), tx);
        let top2 = depth::mix(f, m.sample(z, v), m.sample(z + 1, v), tz);
        let bottom2 = depth::mix(f, m.sample(z, v + 1), m.sample(z + 1, v + 1), tz);
        lemma_mix_up(f, top, bottom, ty, ty);
        lemma_mix_up(f, top2, bottom2, tv, tv);
        let (p, q) = (depth::mix(f, top, bottom, ty), depth::mix(f, top2, bottom2, tv));
        if y < v {
            assert(m.sample(0, b).quanta() <= m.sample(0, c).quanta());
        } else {
            lemma_mix_up(f, top, bottom, ty, tv);
            lemma_mix_same(f, top, bottom, top2, bottom2, tv);
        }
        rounding::lemma_order(p, q);
    }
}

/// The outcome depends on values only.
proof fn lemma_mix_same<F: Fn(Op, Real, Real) -> Real>(
    f: F,
    a: Real,
    b: Real,
    c: Real,
    d: Real,
    t: Real,
)
    requires
        rounding::rounds(f),
        heights::modest(a) && heights::modest(b) && heights::modest(c) && heights::modest(d),
        a.quanta() == c.quanta(),
        b.quanta() == d.quanta(),
        a.quanta() <= b.quanta(),
        rounding::representable(b.quanta() - a.quanta()),
        t.finite(),
        0 <= t.quanta() <= rounding::unit(),
    ensures
        depth::mix(f, a, b, t).quanta() == depth::mix(f, c, d, t).quanta(),
{
    lemma_mix_up(f, a, b, t, t);
    lemma_mix_up(f, c, d, t, t);
    rounding::lemma_constants();
    rounding::lemma_sum_exact(f, Op::Minus, b, a);
    rounding::lemma_sum_exact(f, Op::Minus, d, c);
    let (g, h) = (number::minus(f, b, a), number::minus(f, d, c));
    rounding::lemma_products(f, g, t, h, t);
    rounding::lemma_products(f, h, t, g, t);
    let (p, q) = (number::times(f, g, t), number::times(f, h, t));
    let u = rounding::unit();
    let zero = Real { bits: ZERO };
    assert(0 * u <= g.quanta() * t.quanta() <= g.quanta() * u) by (nonlinear_arith)
        requires
            0 <= g.quanta(),
            0 <= t.quanta() <= u,
    ;
    rounding::lemma_product_side(f, g, t, zero);
    rounding::lemma_product_side(f, g, t, g);
    assert(p.finite() && q.finite());
    rounding::lemma_order(p, q);
    rounding::lemma_sums(f, Op::Plus, a, p, Op::Plus, c, q);
    rounding::lemma_sums(f, Op::Plus, c, q, Op::Plus, a, p);
    rounding::lemma_order(depth::mix(f, a, b, t), depth::mix(f, c, d, t));
}

/// Columns keep their order: a map that rises from column to column still does
/// so when resampled to any size.
pub proof fn law_columns_keep_their_order<F: Fn(Op, Real, Real) -> Real>(
    f: F,
    m: DepthMap,
    w: nat,
    h: nat,
    r: DepthMap,
    i: nat,
    j: nat,
    k: nat,
    l: nat,
)
    requires
        rounding::rounds(f),
        countable(m, w, h),
        m.resized_to(f, w, h, r),
        rises_right(m),
        i <= k < w,
        j < h,
        l < h,
    ensures
        r.sample(i as int, j as int).at_most(r.sample(k as int, l as int)),
{
    if w == m.width && h == m.height {
        assert(r.sample(i as int, j as int) == m.sample(i as int, j as int));
        assert(r.sample(k as int, l as int) == m.sample(k as int, l as int));
        lemma_sample(m, i as int, j as int);
        lemma_sample(m, k as int, l as int);
        assert(m.sample(i as int, 0).quanta() <= m.sample(k as int, 0).quanta());
        rounding::lemma_order(m.sample(i as int, j as int), m.sample(k as int, l as int));
    } else {
        lemma_pixel(f, m, w, h, r, i, j);
        lemma_pixel(f, m, w, h, r, k, l);
        lemma_landing(f, m.height as nat, h, j);
        lemma_landing(f, m.height as nat, h, l);
        lemma_landing(f, m.width as nat, w, i);
        lemma_landing(f, m.width as nat, w, k);
        lemma_landings(f, m.width as nat, w, i, k);
        let (x, tx) = depth::landing(f, i, depth::stride(f, m.width as nat, w));
        let (z, tz) = depth::landing(f, k, depth::stride(f, m.width as nat, w));
        let (y, ty) = depth::landing(f, j, depth::stride(f, m.height as nat, h));
        let (v, tv) = depth::landing(f, l, depth::stride(f, m.height as nat, h));
        let n = m.width as int;
        let (a, b, c, d) = (
            grid::pin(x, n),
            grid::pin(x + 1, n),
            grid::pin(z, n),
            grid::pin(z + 1, n),
        );
        assert(m.sample(a, 0).quanta() <= m.sample(b, 0).quanta());
        assert(m.sample(c, 0).quanta() <= m.sample(d, 0).quanta());
        lemma_column(f, m, x, y, tx, ty);
        lemma_column(f, m, z, v, tz, tv);
        let p = m.resample(f, w, h, i, j);
        let q = m.resample(f, w, h, k, l);
        let (s, t) = (m.sample(a, 0), m.sample(b, 0));
        lemma_sample(m, a, 0);
        lemma_sample(m, b, 0);
        lemma_sample(m, c, 0);
        lemma_sample(m, d, 0);
        lemma_mix_up(f, s, t, tx, tx);
        lemma_mix_up(f, m.sample(c, 0), m.sample(d, 0), tz, tz);
        if x < z {
            assert(m.sample(b, 0).quanta() <= m.sample(c, 0).quanta());
        } else {
            lemma_mix_up(f, s, t, tx, tz);
        }
        rounding::lemma_order(p, q);
    }
}

/// In a map of level columns, the row does not matter.
proof fn lemma_column<F: Fn(Op, Real, Real) -> Real>(
    f: F,
    m: DepthMap,
    x: int,
    y: int,
    tx: Real,
    ty: Real,
)
    requires
        rounding::rounds(f),
        m.wf(),
        heights::level_headed(m.data@),
        rises_right(m),
        x >= 0,
        y >= 0,
        tx.finite(),
        0 <= tx.quanta() <= rounding::unit(),
        ty.finite(),
    ensures
        ({
            let v = depth::mix(
                f,
                depth::mix(f, m.sample(x, y), m.sample(x + 1, y), tx),
                depth::mix(f, m.sample(x, y + 1), m.sample(x + 1, y + 1), tx),
                ty,
            );
            let (a, b) = (grid::pin(x, m.width as int), grid::pin(x + 1, m.width as int));
            v.finite() && v.quanta() == depth::mix(
                f,
                m.sample(a, 0),
                m.sample(b, 0),
                tx,
            ).quanta()
        }),
{
    lemma_sample(m, x, y);
    lemma_sample(m, x + 1, y);
    lemma_sample(m, x, y + 1);
    lemma_sample(m, x + 1, y + 1);
    let (a, b) = (grid::pin(x, m.width as int), grid::pin(x + 1, m.width as int));
    let (c, d) = (grid::pin(y, m.height as int), grid::pin(y + 1, m.height as int));
    lemma_sample(m, a, 0);
    lemma_sample(m, b, 0);
    assert(m.sample(x, y) == m.sample(a, c));
    assert(m.sample(x + 1, y) == m.sample(b, c));
    assert(m.sample(x, y + 1) == m.sample(a, d));
    assert(m.sample(x + 1, y + 1) == m.sample(b, d));
    assert(m.sample(a, 0).quanta() <= m.sample(b, 0).quanta());
    let (s, t) = (m.sample(a, 0), m.sample(b, 0));
    lemma_mix_same(f, m.sample(x, y), m.sample(x + 1, y), s, t, tx);
    lemma_mix_same(f, m.sample(x, y + 1), m.sample(x + 1, y + 1), s, t, tx);
    lemma_mix_up(f, m.sample(x, y), m.sample(x + 1, y), tx, tx);
    lemma_mix_up(f, m.sample(x, y + 1), m.sample(x + 1, y + 1), tx, tx);
    let top = depth::mix(f, m.sample(x, y), m.sample(x + 1, y), tx);
    let bottom = depth::mix(f, m.sample(x, y + 1), m.sample(x + 1, y + 1), tx);
    lemma_mix_start(f, top, bottom, ty);
}

} // verus!
