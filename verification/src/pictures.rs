//! What becomes of the pixels of a picture.

use vstd::prelude::*;
use vstd::arithmetic::power2;
use crate::depth;
use crate::depth::DepthMap;
use crate::export::obj;
use crate::grid;
use crate::mesh::{Block, Solid};
use crate::number;
use crate::number::{Op, Real, ONE, ZERO};
use crate::panel;
use crate::params;
use crate::rounding;
use crate::sample;

verus! {

// ---------------------------------------------------------------------------
// Levels
// ---------------------------------------------------------------------------

/// Grey has its own level as luma; colours have a mean of their channels, in
/// which green counts most and blue least, to the nearest level.
pub proof fn law_luma_is_a_mean(r: u16, g: u16, b: u16)
    ensures
        depth::rec601(r, r, r) == r,
        r <= g ==> depth::rec601(r, b, b) <= depth::rec601(g, b, b),
        r <= g ==> depth::rec601(b, r, b) <= depth::rec601(b, g, b),
        r <= g ==> depth::rec601(b, b, r) <= depth::rec601(b, b, g),
        r <= g ==> depth::rec601(r, g, b) >= depth::rec601(g, r, b),
        b <= r ==> depth::rec601(r, g, b) >= depth::rec601(b, g, r),
        -500 <= 299 * r + 587 * g + 114 * b - 1000 * depth::rec601(r, g, b) < 500,
        r <= b && g <= b ==> depth::rec601(r, g, b) <= b,
        r >= b && g >= b ==> depth::rec601(r, g, b) >= b,
{
    let t = 299 * r + 587 * g + 114 * b + 500;
    assert(0 <= t / 1000 <= 0xffff);
}

/// The constant is 1/65535 as near as it can be had.
proof fn lemma_scale()
    ensures
        ({
            let c = Real { bits: depth::LUMA_SCALE };
            let t = power2::pow2(117) as int;
            &&& c.finite() && c.quanta() == 0x1_0001 * t && t > 0
            &&& rounding::unit() == 0x1_0000_0000 * t
        }),
{
    let c = Real { bits: depth::LUMA_SCALE };
    assert(c.exponent() == 111 && c.significand() == 0x80_0080);
    power2::lemma_pow2_adds(32, 117);
    power2::lemma_pow2_adds(7, 110);
    power2::lemma_pow2_pos(117);
    vstd::arithmetic::power2::lemma2_to64();
    assert(c.quanta() == 0x80_0080 * power2::pow2(110));
    assert(0x80_0080 * power2::pow2(110) == 0x1_0001 * (128 * power2::pow2(110)));
}

/// A luma sample is its share of 65535: black is zero, nothing is above one,
/// white falls short of one by less than a number can show, and a brighter
/// level is no smaller.
pub proof fn law_samples_are_shares<F: Fn(Op, Real, Real) -> Real>(f: F, v: u16, w: u16)
    requires
        rounding::rounds(f),
        v <= w,
    ensures
        ({
            let (a, b) = (depth::fraction(f, v), depth::fraction(f, w));
            let u = rounding::unit();
            &&& a.finite() && 0 <= a.quanta() <= u
            &&& v == 0 ==> a.quanta() == 0
            &&& v == 0xffff ==> 0x100_0000 * (u - a.quanta()) <= u
            &&& a.at_most(b)
            &&& forall|c: Real|
                c.finite() && #[trigger] c.quanta() * 0x1_0000_0000 <= (v * 0x1_0001) * u
                    ==> c.at_most(a)
            &&& forall|c: Real|
                c.finite() && #[trigger] c.quanta() * 0x1_0000_0000 >= (v * 0x1_0001) * u
                    ==> a.at_most(c)
        }),
{
    rounding::lemma_constants();
    lemma_scale();
    let u = rounding::unit();
    let t = power2::pow2(117) as int;
    let s = Real { bits: depth::LUMA_SCALE };
    rounding::lemma_whole(v as nat);
    rounding::lemma_whole(w as nat);
    let (x, y) = (number::whole(v as nat), number::whole(w as nat));
    let (a, b) = (depth::fraction(f, v), depth::fraction(f, w));
    let g = s.quanta();
    assert(x.quanta() * g <= y.quanta() * g) by (nonlinear_arith)
        requires
            x.quanta() == v * u,
            y.quanta() == w * u,
            v <= w,
            u > 0,
            g == 0x1_0001 * t,
            t > 0,
    ;
    rounding::lemma_products(f, x, s, y, s);
    let (zero, one) = (Real { bits: ZERO }, Real { bits: ONE });
    assert(0 * u <= x.quanta() * g <= u * u) by (nonlinear_arith)
        requires
            x.quanta() == v * u,
            0 <= v <= 0xffff,
            g == 0x1_0001 * t,
            u == 0x1_0000_0000 * t,
            t > 0,
    ;
    rounding::lemma_product_side(f, x, s, zero);
    rounding::lemma_product_side(f, x, s, one);
    assert(a.finite());
    rounding::lemma_order(zero, a);
    rounding::lemma_order(a, one);
    if v == 0 {
        assert(0 * u == 0) by (nonlinear_arith);
        rounding::lemma_nothing(f, x, s);
    }
    if v == 0xffff {
        let p = power2::pow2(125) as int;
        power2::lemma_pow2_adds(24, 125);
        vstd::arithmetic::power2::lemma2_to64();
        rounding::lemma_representable(0xff_ffff, 125);
        let c = rounding::number_at(0xff_ffff * p);
        assert(c.quanta() * u <= x.quanta() * g) by (nonlinear_arith)
            requires
                c.quanta() == 0xff_ffff * p,
                u == 0x100_0000 * p,
                x.quanta() == 0xffff * u,
                g == 0x1_0001 * t,
                u == 0x1_0000_0000 * t,
                t > 0,
                p > 0,
        {
            assert(p == 256 * t);
            assert(c.quanta() == 0xff_ffff * (256 * t));
            assert(x.quanta() * g == (0xffff * 0x1_0001) * (u * t));
            assert(c.quanta() * u == (0xff_ffff * 256) * (t * u));
            assert(t * u == u * t);
            assert(t * u > 0);
        }
        rounding::lemma_product_side(f, x, s, c);
        rounding::lemma_order(c, a);
    }
    assert forall|c: Real|
        c.finite() && #[trigger] c.quanta() * 0x1_0000_0000 <= (v * 0x1_0001) * u implies c.at_most(
        a,
    ) by {
        let q = c.quanta();
        assert(q * u <= x.quanta() * g) by (nonlinear_arith)
            requires
                q * 0x1_0000_0000 <= (v * 0x1_0001) * u,
                x.quanta() == v * u,
                g == 0x1_0001 * t,
                u == 0x1_0000_0000 * t,
                t > 0,
        {
            assert(q * u == (q * 0x1_0000_0000) * t);
            assert(x.quanta() * g == ((v * 0x1_0001) * u) * t);
        }
        rounding::lemma_product_side(f, x, s, c);
    }
    assert forall|c: Real|
        c.finite() && #[trigger] c.quanta() * 0x1_0000_0000 >= (v * 0x1_0001) * u implies a.at_most(
        c,
    ) by {
        let q = c.quanta();
        assert(q * u >= x.quanta() * g) by (nonlinear_arith)
            requires
                q * 0x1_0000_0000 >= (v * 0x1_0001) * u,
                x.quanta() == v * u,
                g == 0x1_0001 * t,
                u == 0x1_0000_0000 * t,
                t > 0,
        {
            assert(q * u == (q * 0x1_0000_0000) * t);
            assert(x.quanta() * g == ((v * 0x1_0001) * u) * t);
        }
        rounding::lemma_product_side(f, x, s, c);
    }
}

/// The number 255.
proof fn lemma_full()
    ensures
        (Real { bits: sample::FULL_8 }).finite(),
        (Real { bits: sample::FULL_8 }).quanta() == 255 * rounding::unit(),
{
    let c = Real { bits: sample::FULL_8 };
    assert(c.exponent() == 134 && c.significand() == 0xff_0000);
    power2::lemma_pow2_adds(16, 133);
    vstd::arithmetic::power2::lemma2_to64();
    assert(0xff_0000 * power2::pow2(133) == 255 * (0x1_0000 * power2::pow2(133)));
}

/// A colour channel in an OBJ file goes from zero to one: none of a colour is
/// zero, all of it is one, and more of it is no less.
pub proof fn law_channels_go_to_one<F: Fn(Op, Real, Real) -> Real>(f: F, c: u8, d: u8)
    requires
        rounding::rounds(f),
        c <= d,
    ensures
        ({
            let (a, b, u) = (obj::channel(f, c), obj::channel(f, d), rounding::unit());
            &&& a.finite() && 0 <= a.quanta() <= u
            &&& c == 0 ==> a.quanta() == 0
            &&& c == 255 ==> a.quanta() == u
            &&& a.at_most(b)
            &&& forall|q: int| #[trigger]
                rounding::representable(q) && 255 * q == c * u ==> a.quanta() == q
        }),
{
    rounding::lemma_constants();
    lemma_full();
    let u = rounding::unit();
    let full = Real { bits: sample::FULL_8 };
    rounding::lemma_whole(c as nat);
    rounding::lemma_whole(d as nat);
    let (x, y) = (number::whole(c as nat), number::whole(d as nat));
    assert(0 <= c * u <= d * u && d * u <= 255 * u) by (nonlinear_arith)
        requires
            0 <= c <= d <= 255,
            u > 0,
    ;
    rounding::lemma_quotients(f, x, y, full);
    let (zero, one) = (Real { bits: ZERO }, Real { bits: ONE });
    let q = x.quanta();
    assert(0 * (255 * u) <= q * u <= u * (255 * u)) by (nonlinear_arith)
        requires
            0 <= q <= 255 * u,
            u > 0,
    ;
    rounding::lemma_quotient_side(f, x, full, zero);
    rounding::lemma_quotient_side(f, x, full, one);
    let a = obj::channel(f, c);
    assert(a.finite());
    rounding::lemma_order(zero, a);
    rounding::lemma_order(a, one);
    assert forall|q: int| #[trigger]
        rounding::representable(q) && 255 * q == c * u implies a.quanta() == q by {
        assert((c * u) * u == q * (255 * u)) by (nonlinear_arith)
            requires
                255 * q == c * u,
        ;
        rounding::lemma_quotient_exact(f, x, full, q);
    }
    assert(zero.quanta() == 0 && one.quanta() == u);
    assert(rounding::representable(0) && rounding::representable(u));
    assert(0 * u == 0) by (nonlinear_arith);
}

/// The depth picture is dark in front and bright behind: the front plane is
/// black, the deepest point is white, and what is deeper is no darker.
pub proof fn law_depth_picture_is_dark_in_front<F: Fn(Op, Real, Real) -> Real>(
    f: F,
    z: Real,
    y: Real,
    deep: Real,
)
    requires
        rounding::rounds(f),
        z.finite(),
        y.finite(),
        deep.finite(),
        deep.quanta() > 0,
        -deep.quanta() <= y.quanta() <= z.quanta() <= 0,
    ensures
        panel::grey(f, z, deep) <= panel::grey(f, y, deep),
        z.quanta() == 0 ==> panel::grey(f, z, deep) == 0,
        y.quanta() == -deep.quanta() ==> panel::grey(f, y, deep) == 255,
{
    rounding::lemma_constants();
    lemma_full();
    let u = rounding::unit();
    rounding::lemma_opposite(z);
    rounding::lemma_opposite(y);
    let (zero, one, full) = (
        Real { bits: ZERO },
        Real { bits: ONE },
        Real { bits: sample::FULL_8 },
    );
    let (a, b) = (z.opposite(), y.opposite());
    rounding::lemma_quotients(f, a, b, deep);
    let (s, t) = (number::over(f, a, deep), number::over(f, b, deep));
    let (p, q, d) = (a.quanta(), b.quanta(), deep.quanta());
    assert(0 * d <= p * u && q * u <= u * d) by (nonlinear_arith)
        requires
            0 <= p,
            q <= d,
            u > 0,
    ;
    rounding::lemma_quotient_side(f, a, deep, zero);
    rounding::lemma_quotient_side(f, b, deep, one);
    assert(s.finite() && t.finite());
    rounding::lemma_order(zero, s);
    rounding::lemma_order(s, t);
    rounding::lemma_order(t, one);
    rounding::lemma_order(one, t);
    rounding::lemma_order(s, zero);
    let (sc, tc) = (s.between(zero, one), t.between(zero, one));
    assert(sc.quanta() == s.quanta() && tc.quanta() == t.quanta());
    let (m, n) = (number::times(f, sc, full), number::times(f, tc, full));
    assert(sc.quanta() * full.quanta() <= tc.quanta() * full.quanta()) by (nonlinear_arith)
        requires
            sc.quanta() <= tc.quanta(),
            full.quanta() == 255 * u,
            u > 0,
    ;
    rounding::lemma_products(f, sc, full, tc, full);
    assert(0 * u <= sc.quanta() * full.quanta() && tc.quanta() * full.quanta() <= full.quanta()
        * u) by (nonlinear_arith)
        requires
            0 <= sc.quanta(),
            0 <= tc.quanta() <= u,
            full.quanta() == 255 * u,
            u > 0,
    ;
    rounding::lemma_product_side(f, sc, full, zero);
    rounding::lemma_product_side(f, tc, full, full);
    assert(m.finite() && n.finite());
    rounding::lemma_order(zero, m);
    rounding::lemma_order(m, n);
    rounding::lemma_order(n, full);
    rounding::lemma_floored(m);
    rounding::lemma_floored(n);
    let (x, w) = (m.floored(), n.floored());
    assert(x <= w) by (nonlinear_arith)
        requires
            x * u <= m.quanta(),
            m.quanta() <= n.quanta(),
            n.quanta() < (w + 1) * u,
            u > 0,
    ;
    if z.quanta() == 0 {
        rounding::lemma_nothing(f, a, deep);
        rounding::lemma_nothing(f, sc, full);
        assert(x == 0) by (nonlinear_arith)
            requires
                x * u <= 0,
                x >= 0,
                u > 0,
        ;
    }
    if y.quanta() == -deep.quanta() {
        assert(u * d <= q * u) by (nonlinear_arith)
            requires
                q == d,
        ;
        assert(tc.quanta() == u);
        assert(full.quanta() * u <= tc.quanta() * full.quanta()) by (nonlinear_arith)
            requires
                tc.quanta() == u,
        ;
        rounding::lemma_order(full, n);
        assert(w >= 255) by (nonlinear_arith)
            requires
                255 * u < (w + 1) * u,
                u > 0,
        ;
    }
}

/// The arithmetic rounds to the nearest whole number.
pub open spec fn rounds_off<F: Fn(Op, Real, Real) -> Real>(f: F) -> bool {
    forall|a: Real|
        a.finite() && 0 <= a.quanta() <= 0x1_0000 * rounding::unit() ==> nearest_whole(
            a,
            #[trigger] number::round(f, a),
        )
}

/// One number is the whole number nearest to another.
pub open spec fn nearest_whole(a: Real, r: Real) -> bool {
    r.finite() && exists|n: int|
        #![trigger n * rounding::unit()]
        r.quanta() == n * rounding::unit() && -rounding::unit() <= 2 * (a.quanta() - n
            * rounding::unit()) <= rounding::unit()
}

/// An encoded sample is the level nearest to its share of the range: nothing is
/// the lowest level, and one is the highest.
pub proof fn law_levels_are_nearest<F: Fn(Op, Real, Real) -> Real>(
    f: F,
    v: Real,
    wide: bool,
    product: int,
)
    requires
        rounding::rounds(f),
        rounds_off(f),
        v.finite(),
        0 <= v.quanta() <= rounding::unit(),
        rounding::representable(product),
        product == v.quanta() * (if wide {
            65535int
        } else {
            255int
        }),
    ensures
        ({
            let n = if wide {
                sample::level_of(f, v, sample::FULL_16, 0xffff)
            } else {
                sample::level_of(f, v, sample::FULL_8, 0xff)
            };
            let u = rounding::unit();
            &&& -u <= 2 * (product - n * u) <= u
            &&& v.quanta() == 0 ==> n == 0
            &&& v.quanta() == u && wide ==> n == 65535
            &&& v.quanta() == u && !wide ==> n == 255
        }),
{
    rounding::lemma_constants();
    lemma_full();
    let u = rounding::unit();
    let wider = Real { bits: sample::FULL_16 };
    assert(wider.finite() && wider.quanta() == 65535 * u) by {
        assert(wider.exponent() == 142 && wider.significand() == 0xff_ff00);
        power2::lemma_pow2_adds(8, 141);
        vstd::arithmetic::power2::lemma2_to64();
        assert(0xff_ff00 * power2::pow2(141) == 65535 * (256 * power2::pow2(141)));
    }
    let (full, top) = if wide {
        (wider, 65535int)
    } else {
        (Real { bits: sample::FULL_8 }, 255int)
    };
    let (zero, one) = (Real { bits: ZERO }, Real { bits: ONE });
    rounding::lemma_order(v, zero);
    rounding::lemma_order(one, v);
    assert(sample::unit(v) == v);
    let x = v.quanta();
    assert(x * full.quanta() == product * u) by (nonlinear_arith)
        requires
            full.quanta() == top * u,
            product == x * top,
    ;
    rounding::lemma_product_exact(f, v, full, product);
    let p = number::times(f, v, full);
    assert(0 <= product <= top * u) by (nonlinear_arith)
        requires
            product == x * top,
            0 <= x <= u,
            top >= 0,
    ;
    let r = number::round(f, p);
    assert(nearest_whole(p, r));
    let n = choose|n: int|
        #![trigger n * rounding::unit()]
        r.quanta() == n * u && -u <= 2 * (p.quanta() - n * u) <= u;
    assert(0 <= n <= top) by (nonlinear_arith)
        requires
            -u <= 2 * (product - n * u) <= u,
            0 <= product <= top * u,
            u > 0,
    ;
    assert(0 <= n * u <= 0x100_0000 * u) by (nonlinear_arith)
        requires
            0 <= n <= 65535,
            u > 0,
    ;
    rounding::lemma_floored(r);
    let m = r.floored();
    assert(m == n) by (nonlinear_arith)
        requires
            m * u <= n * u < (m + 1) * u,
            u > 0,
    ;
    if x == 0 {
        assert(product == 0);
        assert(n == 0) by (nonlinear_arith)
            requires
                -u <= 2 * (0 - n * u),
                n >= 0,
                u > 0,
        ;
    }
    if x == u {
        assert(n == top) by (nonlinear_arith)
            requires
                2 * (product - n * u) <= u,
                product == u * top,
                n <= top,
                u > 0,
        ;
    }
}

// ---------------------------------------------------------------------------
// Places
// ---------------------------------------------------------------------------

/// A photo on the grid colours every vertex of the relief with its own pixel,
/// and nothing else with any.
pub proof fn law_photo_colours_the_relief_in_place(s: Solid, a: depth::Albedo, b: Block)
    requires
        s.albedo == Some(&a),
        a.w == s.layout.w,
        a.h == s.layout.h,
        a.rgb@.len() == a.w * a.h,
    ensures
        match b {
            Block::Surface { i, j } => i < s.layout.w && j < s.layout.h ==> s.paint(b)
                == a.rgb@[j * s.layout.w + i],
            _ => s.paint(b) == [0x80u8, 0x80u8, 0x80u8],
        },
{
    if let Block::Surface { i, j } = b {
        if i < s.layout.w && j < s.layout.h {
            grid::lemma_index(s.layout.w as int, s.layout.h as int, i as int, j as int);
        }
    }
}

/// The grid has the shape of its source: the longer side has as many vertices
/// as were asked for, the other side has its share of them, rounded down, and
/// neither has fewer than two.
pub proof fn law_grid_keeps_the_shape(size: u32, w: u32, h: u32)
    requires
        w >= 1,
        h >= 1,
    ensures
        ({
            let (x, y) = (params::grid_side(size, w, h), params::grid_side(size, h, w));
            &&& x >= 2 && y >= 2
            &&& size >= 2 && w >= h ==> x == size
            &&& size >= 2 && h >= w ==> y == size
            &&& w == h ==> x == y
            &&& w >= h ==> y * w <= size * h || y == 2
            &&& w >= h ==> size * h < (y + 1) * w
            &&& h >= w ==> x * h <= size * w || x == 2
            &&& h >= w ==> size * w < (x + 1) * h
        }),
{
    lemma_side(size as int, w as int, h as int);
    lemma_side(size as int, h as int, w as int);
}

proof fn lemma_side(size: int, side: int, other: int)
    requires
        0 <= size <= u32::MAX,
        1 <= side <= u32::MAX,
        1 <= other <= u32::MAX,
    ensures
        ({
            let longest = if side >= other {
                side
            } else {
                other
            };
            let n = size * side / longest;
            &&& n * longest <= size * side < (n + 1) * longest
            &&& n < 2 ==> size * side < 3 * longest
            &&& side >= other ==> n == size
            &&& n >= 0
        }),
{
    let longest = if side >= other {
        side
    } else {
        other
    };
    let m = size * side;
    assert(m >= 0) by (nonlinear_arith)
        requires
            m == size * side,
            size >= 0,
            side >= 0,
    ;
    vstd::arithmetic::div_mod::lemma_fundamental_div_mod(m, longest);
    vstd::arithmetic::div_mod::lemma_mod_bound(m, longest);
    vstd::arithmetic::div_mod::lemma_div_pos_is_pos(m, longest);
    let n = m / longest;
    assert(n * longest <= m < (n + 1) * longest) by (nonlinear_arith)
        requires
            m == longest * n + m % longest,
            0 <= m % longest < longest,
    ;
    assert(n < 2 ==> (n + 1) * longest <= 3 * longest) by (nonlinear_arith)
        requires
            longest >= 1,
    ;
    if side >= other {
        vstd::arithmetic::div_mod::lemma_div_multiples_vanish(size, side);
        assert(size * side == side * size) by (nonlinear_arith);
    }
}

/// A photo of the map's own shape is never refused, nor is one that is less
/// than a hundredth off; one that is three hundredths off or more always is.
pub proof fn law_shapes_have_to_match<F: Fn(Op, Real, Real) -> Real>(
    f: F,
    m: DepthMap,
    w: u32,
    h: u32,
)
    requires
        rounding::rounds(f),
        1 <= m.width <= 0x1_0000,
        1 <= m.height <= 0x1_0000,
        1 <= w <= 0x1_0000,
        1 <= h <= 0x1_0000,
    ensures
        ({
            let (got, want) = (w * m.height, m.width * h);
            &&& got == want ==> !depth::misfit(f, m, w, h)
            &&& -want <= 100 * (got - want) <= want ==> !depth::misfit(f, m, w, h)
            &&& 100 * (got - want) >= 3 * want ==> depth::misfit(f, m, w, h)
            &&& 100 * (got - want) <= -3 * want ==> depth::misfit(f, m, w, h)
        }),
{
    rounding::lemma_constants();
    let (mw, mh) = (m.width as nat, m.height as nat);
    lemma_ratio(f, mw, mh);
    lemma_ratio(f, w as nat, h as nat);
    rounding::lemma_two(-16);
    let want = m.shape(f);
    let got = number::over(f, number::whole(w as nat), number::whole(h as nat));
    lemma_slack(f, want);
    let slack = number::times(f, Real { bits: depth::ASPECT_SLACK }, want);
    let gap = number::minus(f, want, got);
    let (x, y) = (want.quanta(), got.quanta());
    let (a, b) = (w * m.height, m.width * h);
    lemma_compared(x, y, mw as int, mh as int, w as int, h as int, rounding::unit());
    lemma_gap(f, want, got, x);
    rounding::lemma_opposite(gap);
    rounding::lemma_order(slack, gap.unsigned());
}

/// The difference of two ratios, held against the first.
proof fn lemma_compared(x: int, y: int, mw: int, mh: int, w: int, h: int, u: int)
    requires
        1 <= mw,
        1 <= mh,
        1 <= w,
        1 <= h,
        u > 0,
        x > 0,
        -(mw * u) <= 0x80_0000 * (x * mh - mw * u) <= mw * u,
        -(w * u) <= 0x80_0000 * (y * h - w * u) <= w * u,
    ensures
        ({
            let (got, want) = (w * mh, mw * h);
            &&& -want <= 100 * (got - want) <= want ==> -11 * x <= 1000 * (y - x) <= 11 * x
            &&& 100 * (got - want) >= 3 * want ==> 1000 * (y - x) >= 29 * x
            &&& 100 * (got - want) <= -3 * want ==> 1000 * (y - x) <= -29 * x
        }),
{
    let (got, want) = (w * mh, mw * h);
    let k = mh * h;
    let (p, q, g, v) = (x * k, y * k, got * u, want * u);
    assert(-v <= 0x80_0000 * (p - v) <= v && -g <= 0x80_0000 * (q - g) <= g && k > 0 && v > 0)
        by (nonlinear_arith)
        requires
            -(mw * u) <= 0x80_0000 * (x * mh - mw * u) <= mw * u,
            -(w * u) <= 0x80_0000 * (y * h - w * u) <= w * u,
            k == mh * h,
            p == x * k,
            q == y * k,
            g == (w * mh) * u,
            v == (mw * h) * u,
            mh >= 1,
            h >= 1,
            mw >= 1,
            u > 0,
    {
        assert(p == (x * mh) * h);
        assert(v == (mw * u) * h);
        assert(q == (y * h) * mh);
        assert(g == (w * u) * mh);
        let (i, j) = (x * mh - mw * u, y * h - w * u);
        assert(p - v == i * h);
        assert(q - g == j * mh);
        assert(-(mw * u) * h <= (0x80_0000 * i) * h <= (mw * u) * h);
        assert(-(w * u) * mh <= (0x80_0000 * j) * mh <= (w * u) * mh);
        assert(mw * h >= 1);
    }
    lemma_scaled(100 * (got - want), want, u);
    lemma_scaled(100 * (got - want), -want, u);
    lemma_scaled(100 * (got - want), 3 * want, u);
    lemma_scaled(100 * (got - want), -3 * want, u);
    assert((100 * (got - want)) * u == 100 * (g - v) && (-want) * u == -v && (3 * want) * u == 3 * v
        && (-3 * want) * u == -3 * v) by (nonlinear_arith)
        requires
            g == got * u,
            v == want * u,
    ;
    lemma_scaled(1000 * (y - x), 11 * x, k);
    lemma_scaled(1000 * (y - x), -11 * x, k);
    lemma_scaled(1000 * (y - x), 29 * x, k);
    lemma_scaled(1000 * (y - x), -29 * x, k);
    assert((1000 * (y - x)) * k == 1000 * (q - p) && (11 * x) * k == 11 * p && (-11 * x) * k == -11
        * p && (29 * x) * k == 29 * p && (-29 * x) * k == -29 * p) by (nonlinear_arith)
        requires
            p == x * k,
            q == y * k,
    ;
}

/// A factor above zero does not turn an order around.
proof fn lemma_scaled(a: int, b: int, k: int)
    requires
        k > 0,
    ensures
        a <= b <==> a * k <= b * k,
        a >= b <==> a * k >= b * k,
{
    assert(a <= b <==> a * k <= b * k) by (nonlinear_arith)
        requires
            k > 0,
    ;
    assert(a >= b <==> a * k >= b * k) by (nonlinear_arith)
        requires
            k > 0,
    ;
}

/// Two hundredths of a ratio.
proof fn lemma_slack<F: Fn(Op, Real, Real) -> Real>(f: F, want: Real)
    requires
        rounding::rounds(f),
        want.finite(),
        rounding::two(-16) <= want.quanta() <= rounding::two(16),
    ensures
        ({
            let s = number::times(f, Real { bits: depth::ASPECT_SLACK }, want);
            s.finite() && 19 * want.quanta() <= 1000 * s.quanta() <= 21 * want.quanta()
        }),
{
    let c = Real { bits: depth::ASPECT_SLACK };
    let t = power2::pow2(120) as int;
    assert(c.exponent() == 121 && c.significand() == 0xa3_d70a);
    power2::lemma_pow2_adds(29, 120);
    power2::lemma_pow2_pos(120);
    power2::lemma_pow2_adds(24, 96);
    power2::lemma_pow2_adds(16, 149);
    power2::lemma_pow2_adds(16, 133);
    vstd::arithmetic::power2::lemma2_to64();
    let (u, x, g) = (rounding::unit(), want.quanta(), c.quanta());
    assert(g == 0xa3_d70a * t && u == 0x2000_0000 * t);
    number::lemma_pow2_order(32, 133);
    number::lemma_pow2_order(165, 250);
    let z = rounding::two(-16);
    assert(g * x >= 0x100_0000 * u) by (nonlinear_arith)
        requires
            g == 0xa3_d70a * t,
            u == 0x2000_0000 * t,
            t > 0,
            x >= z,
            z >= 0x1_0000_0000,
    ;
    assert(g * x < power2::pow2(250) * u) by (nonlinear_arith)
        requires
            g == 0xa3_d70a * t,
            u == 0x2000_0000 * t,
            t > 0,
            0 < x <= power2::pow2(165),
            power2::pow2(165) <= power2::pow2(250),
    ;
    rounding::lemma_near(f, Op::Times, c, want);
    let s = number::times(f, c, want).quanta();
    assert(19 * x <= 1000 * s <= 21 * x) by (nonlinear_arith)
        requires
            -(g * x) <= 0x80_0000 * (s * u - g * x) <= g * x,
            g == 0xa3_d70a * t,
            u == 0x2000_0000 * t,
            t > 0,
            x > 0,
    {
        let w = t * x;
        assert(g * x == 0xa3_d70a * w);
        assert(s * u == 0x2000_0000 * (s * t));
        let v = s * t;
        assert(19 * w <= 1000 * v <= 21 * w);
        assert(19 * (x * t) <= (1000 * s) * t <= 21 * (x * t));
        assert((19 * x) * t <= (1000 * s) * t);
        assert((1000 * s) * t <= (21 * x) * t);
    }
}

/// A gap of a hundredth is less than the slack, and one of three hundredths is
/// more.
proof fn lemma_gap<F: Fn(Op, Real, Real) -> Real>(f: F, want: Real, got: Real, x: int)
    requires
        rounding::rounds(f),
        want.finite(),
        got.finite(),
        x == want.quanta(),
        rounding::two(-16) <= want.quanta() <= rounding::two(16),
        0 < got.quanta() <= rounding::two(16),
    ensures
        ({
            let gap = number::minus(f, want, got);
            let d = got.quanta() - x;
            &&& gap.finite()
            &&& -11 * x <= 1000 * d <= 11 * x ==> -15 * x <= 1000 * gap.quanta() <= 15 * x
            &&& 1000 * d >= 29 * x ==> 1000 * gap.quanta() <= -25 * x
            &&& 1000 * d <= -29 * x ==> 1000 * gap.quanta() >= 25 * x
        }),
{
    rounding::lemma_constants();
    rounding::lemma_two(16);
    rounding::lemma_two(-16);
    power2::lemma_pow2_adds(16, 133);
    vstd::arithmetic::power2::lemma2_to64();
    number::lemma_pow2_order(32, 133);
    number::lemma_pow2_order(166, 250);
    power2::lemma_pow2_unfold(166);
    let gap = number::minus(f, want, got);
    let d = x - got.quanta();
    let zero = Real { bits: ZERO };
    if d >= 0x100_0000 {
        rounding::lemma_near(f, Op::Minus, want, got);
        assert(rounding::outcome(Op::Minus, want, got) == (d, 1int));
    } else if d <= -0x100_0000 {
        rounding::lemma_near(f, Op::Minus, got, want);
        assert(rounding::outcome(Op::Minus, got, want) == (-d, 1int));
        assert(rounding::mirrored(Op::Minus, want, got, Op::Minus, got, want));
        let other = number::minus(f, got, want);
        assert(gap.equals(other.opposite()));
        rounding::lemma_opposite(other);
        assert(gap.finite());
        rounding::lemma_order(gap, other.opposite());
    } else {
        vstd::arithmetic::power2::lemma2_to64();
        rounding::lemma_representable(d, 0);
        assert(d * power2::pow2(0) == d);
        rounding::lemma_sum_exact(f, Op::Minus, want, got);
    }
}

/// A ratio of whole numbers is a number above zero.
proof fn lemma_ratio<F: Fn(Op, Real, Real) -> Real>(f: F, a: nat, b: nat)
    requires
        rounding::rounds(f),
        1 <= a <= 0x1_0000,
        1 <= b <= 0x1_0000,
    ensures
        ({
            let r = number::over(f, number::whole(a), number::whole(b));
            let u = rounding::unit();
            &&& r.finite() && rounding::two(-16) <= r.quanta() <= rounding::two(16)
            &&& -(a * u) <= 0x80_0000 * (r.quanta() * b - a * u) <= a * u
        }),
{
    rounding::lemma_constants();
    rounding::lemma_whole(a);
    rounding::lemma_whole(b);
    rounding::lemma_two(-16);
    rounding::lemma_two(16);
    let u = rounding::unit();
    power2::lemma_pow2_adds(16, 149);
    power2::lemma_pow2_adds(16, 133);
    vstd::arithmetic::power2::lemma2_to64();
    number::lemma_pow2_order(32, 133);
    number::lemma_pow2_order(165, 249);
    power2::lemma_pow2_unfold(250);
    let (lo, hi) = (
        rounding::number_at(rounding::two(-16)),
        rounding::number_at(rounding::two(16)),
    );
    let (x, y) = (number::whole(a), number::whole(b));
    let t = rounding::two(-16);
    assert(y.quanta() > 0 && t * y.quanta() <= x.quanta() * u && x.quanta() * u <= (0x1_0000 * u)
        * y.quanta()) by (nonlinear_arith)
        requires
            x.quanta() == a * u,
            y.quanta() == b * u,
            1 <= a <= 0x1_0000,
            1 <= b <= 0x1_0000,
            u == 0x1_0000 * t,
            t > 0,
    {
        assert(t * (b * u) <= t * (0x1_0000 * u));
        assert(t * (0x1_0000 * u) == u * u);
        assert((a * u) * u >= u * u);
        assert((a * u) * u <= (0x1_0000 * u) * u);
        assert((0x1_0000 * u) * (b * u) >= (0x1_0000 * u) * u);
    }
    rounding::lemma_quotient_side(f, x, y, lo);
    rounding::lemma_quotient_side(f, x, y, hi);
    let r = number::over(f, x, y);
    assert(r.finite());
    rounding::lemma_order(lo, r);
    rounding::lemma_order(r, hi);
    let (n, d) = (x.quanta() * u, y.quanta());
    assert(n >= 0x100_0000 * d) by (nonlinear_arith)
        requires
            n >= t * d,
            t >= 0x1_0000_0000,
            d > 0,
    ;
    assert(n < power2::pow2(250) * d) by (nonlinear_arith)
        requires
            n <= (0x1_0000 * u) * d,
            0x1_0000 * u < power2::pow2(250),
            d > 0,
    ;
    rounding::lemma_near(f, Op::Over, x, y);
    let q = r.quanta();
    assert(-(a * u) <= 0x80_0000 * (q * b - a * u) <= a * u) by (nonlinear_arith)
        requires
            -n <= 0x80_0000 * (q * d - n) <= n,
            n == (a * u) * u,
            d == b * u,
            u > 0,
    {
        assert(q * d == (q * b) * u);
        let z = 0x80_0000 * (q * b - a * u);
        assert(0x80_0000 * (q * d - n) == z * u);
        assert(-(a * u) * u <= z * u <= (a * u) * u);
    }
}

} // verus!
