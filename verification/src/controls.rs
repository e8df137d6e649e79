//! What settings and views answer to.

use vstd::prelude::*;
use vstd::arithmetic::power2;
use crate::number;
use crate::number::{Op, Real, HALF, ONE, ZERO};
use crate::panel;
use crate::panel::{Control, Field, Value};
use crate::params;
use crate::params::{Orientation, Params, Units};
use crate::rounding;
use crate::shading;
use crate::state::AppState;
use crate::stats;
use crate::vector;
use crate::vector::Vector;
use crate::view;

verus! {

// ---------------------------------------------------------------------------
// Settings
// ---------------------------------------------------------------------------

/// Clamping changes nothing that is within its limits.
pub proof fn law_clamping_keeps_what_is_allowed(p: Params, w: Real)
    requires
        params::widest(params::legal_size(p), w),
        p.in_range(),
        p.leaves_room(),
        !p.size_mm.nan(),
    ensures
        params::clamped(p, w) == p,
        params::legal(p) == p,
{
    assert(params::legal_size(p) == p.size_mm);
    assert(p.size_mm.finite());
    let t = p.frame_thickness_mm;
    if !t.nan() {
        let zero = Real { bits: ZERO };
        assert(zero.at_most(t));
        if t.finite() {
            rounding::lemma_constants();
            rounding::lemma_order(zero, t);
            rounding::lemma_order(w, t);
            assert(t.negative() ==> t.magnitude() == 0);
            assert(t.quanta() == t.value());
        } else {
            lemma_infinite(t);
            let (e, m) = (p.size_mm.exponent(), p.size_mm.significand());
            assert(e <= 136);
            number::lemma_pow2_order((e - 1) as nat, 135);
            power2::lemma_pow2_adds(24, 135);
            number::lemma_pow2_order(159, 200);
            vstd::arithmetic::power2::lemma2_to64();
            let (x, y) = (power2::pow2((e - 1) as nat) as int, power2::pow2(135) as int);
            assert(m * x <= 0x100_0000 * y) by (nonlinear_arith)
                requires
                    0 <= m < 0x100_0000,
                    0 <= x <= y,
            ;
            power2::lemma_pow2_pos(149);
            assert(false);
        }
    }
    assert(params::widest(params::legal_size(p), w));
    params::lemma_widest_unique(params::legal_size(p), w, params::widest_for(params::legal_size(p)));
}

/// What is not finite is counted as more than any bezel may have.
proof fn lemma_infinite(t: Real)
    requires
        !t.nan(),
        !t.finite(),
    ensures
        t.value() >= power2::pow2(200),
{
    assert(t.magnitude() == 0x7f80_0000);
    assert(t.exponent() == 255 && t.significand() == 0x80_0000);
    number::lemma_pow2_order(200, 254);
    let q = power2::pow2(254) as int;
    assert(0x80_0000 * q >= q) by (nonlinear_arith)
        requires
            q >= 0,
    ;
}

/// Every control changes the setting that it is named for, to what it was set
/// to, and leaves the others alone.
pub proof fn law_controls_change_their_setting<F: Fn(Op, Real, Real) -> Real>(
    f: F,
    a: AppState,
    field: Field,
    v: Value,
    now: u64,
    max_px: u32,
    c: Control,
)
    requires
        panel::control_fits(field, max_px, c),
        max_px <= params::SIZE_PX_MAX,
        panel::offered(c, v),
        a.params.in_range(),
        a.params.leaves_room(),
        !a.params.size_mm.nan(),
        a.params.near.below(a.params.far),
    ensures
        ({
            let b = panel::after_set(f, a, field, v, now);
            let (p, q) = (a.params, b.params);
            match (field, v) {
                (Field::Emboss, Value::Number(x)) => q == (Params { emboss_mm: x, ..p }),
                (Field::Invert, Value::Flag(on)) => q == (Params { invert: on, ..p }),
                (Field::SizePx, Value::Count(n)) => q == (Params { size_px: n, ..p }),
                (Field::Tolerance, Value::Number(x)) => q == (Params { tolerance_mm: x, ..p }),
                (Field::FilterSize, Value::Count(n)) => q == (Params { filter_size: n, ..p }),
                (Field::Presmooth, Value::Number(x)) => q == (Params { presmooth: x, ..p }),
                (Field::FrameNear, Value::Number(x)) => q == (Params { frame_near_mm: x, ..p }),
                (Field::FrameBack, Value::Number(x)) => q == (Params { frame_back_mm: x, ..p }),
                (Field::Layer, Value::Number(x)) => q == (Params { layer_mm: x, ..p }),
                (Field::Orientation, Value::Flag(on)) => q == (Params {
                    orientation: q.orientation,
                    ..p
                }) && (on <==> q.orientation == Orientation::Upright),
                (Field::Units, Value::Flag(on)) => q == (Params { units: q.units, ..p }) && (on
                    <==> q.units == Units::In),
                (Field::SizeMm, Value::Number(x)) => q.size_mm == x && q == (Params {
                    size_mm: x,
                    frame_thickness_mm: q.frame_thickness_mm,
                    ..p
                }),
                (Field::Thickness, Value::Number(x)) => q == (Params {
                    frame_thickness_mm: q.frame_thickness_mm,
                    ..p
                }) && (q.frame_thickness_mm == x || q.frame_thickness_mm.below(x)),
                (Field::ShowTiles, Value::Flag(on)) => q == p && b.show_tiles == on,
                _ => true,
            }
        }),
        field == Field::ShowTiles ==> panel::after_set(f, a, field, v, now).dirty_since
            == a.dirty_since,
        field != Field::ShowTiles ==> panel::after_set(f, a, field, v, now).dirty_since == Some(now)
            && panel::after_set(f, a, field, v, now).show_tiles == a.show_tiles,
{
    let p = a.params;
    let q = panel::changed(f, p, field, v);
    if field != Field::Near && field != Field::Far && field != Field::SizeMm && field
        != Field::Thickness && field != Field::ShowTiles {
        lemma_widest_exists(q);
        law_clamping_keeps_what_is_allowed(q, params::widest_for(params::legal_size(q)));
    } else if field == Field::SizeMm || field == Field::Thickness {
        lemma_widest_exists(q);
        let w = params::widest_for(params::legal_size(q));
        let l = params::legal(q);
        assert(l.near == p.near && l.far == p.far);
    }
}

/// A size within its limits leaves room for a bezel.
proof fn lemma_widest_exists(p: Params)
    requires
        !p.size_mm.nan(),
        params::within(
            p.size_mm,
            Real { bits: params::SIZE_MM_MIN },
            Real { bits: params::SIZE_MM_MAX },
        ),
    ensures
        params::widest(params::legal_size(p), params::widest_for(params::legal_size(p))),
{
    let size = params::legal_size(p);
    let (e, m) = (size.exponent(), size.significand());
    assert(130 <= e <= 136 && !size.negative());
    let (q, g) = (power2::pow2((e - 2) as nat) as int, power2::pow2((151 - e) as nat) as int);
    power2::lemma_pow2_unfold((e - 1) as nat);
    power2::lemma_pow2_adds((e - 2) as nat, (151 - e) as nat);
    power2::lemma_pow2_pos((e - 2) as nat);
    number::lemma_pow2_order(15, (151 - e) as nat);
    number::lemma_pow2_order((151 - e) as nat, 21);
    vstd::arithmetic::power2::lemma2_to64();
    let n = m - g;
    rounding::lemma_representable(n, (e - 2) as nat);
    let r = rounding::number_at(n * q);
    assert(n * q > 0) by (nonlinear_arith)
        requires
            n > 0,
            q > 0,
    ;
    assert(2 * (n * q) == m * (2 * q) - 2 * (q * g)) by (nonlinear_arith)
        requires
            n == m - g,
    ;
    rounding::lemma_constants();
    rounding::lemma_order(Real { bits: ZERO }, r);
    assert(!r.negative());
    assert(params::widest(size, r));
}

/// The planes are set and shown as percentages: nothing is zero and one is a
/// hundred, both ways, and a larger share is no smaller percentage.
pub proof fn law_planes_are_percentages<F: Fn(Op, Real, Real) -> Real>(
    f: F,
    a: AppState,
    b: AppState,
    p: Params,
)
    requires
        rounding::rounds(f),
        a.params.near.finite() && a.params.far.finite(),
        b.params.near.finite() && b.params.far.finite(),
        a.params.near.at_most(b.params.near),
        a.params.far.at_most(b.params.far),
    ensures
        ({
            let hundred = Real { bits: stats::HUNDRED };
            let (x, y) = (panel::shown(f, a, Field::Near), panel::shown(f, b, Field::Near));
            let (z, w) = (panel::shown(f, a, Field::Far), panel::shown(f, b, Field::Far));
            let (c, d) = (
                panel::changed(f, p, Field::Near, Value::Number(hundred)),
                panel::changed(f, p, Field::Far, Value::Number(hundred)),
            );
            &&& x matches Value::Number(m) && y matches Value::Number(n) && m.at_most(n)
                && (a.params.near == (Real { bits: ZERO }) ==> m.quanta() == 0)
                && (a.params.near == (Real { bits: ONE }) ==> m.quanta() == 100
                * rounding::unit())
            &&& z matches Value::Number(m) && w matches Value::Number(n) && m.at_most(n)
                && (a.params.far == (Real { bits: ZERO }) ==> m.quanta() == 0)
                && (a.params.far == (Real { bits: ONE }) ==> m.quanta() == 100 * rounding::unit())
            &&& c == (Params { near: c.near, ..p }) && c.near.quanta() == rounding::unit()
            &&& d == (Params { far: d.far, ..p }) && d.far.quanta() == rounding::unit()
        }),
{
    rounding::lemma_constants();
    lemma_hundred();
    let h = Real { bits: stats::HUNDRED };
    lemma_percent(f, a.params.near, b.params.near);
    lemma_percent(f, a.params.far, b.params.far);
    rounding::lemma_self(f, h);
}

proof fn lemma_hundred()
    ensures
        (Real { bits: stats::HUNDRED }).finite(),
        (Real { bits: stats::HUNDRED }).quanta() == 100 * rounding::unit(),
{
    let c = Real { bits: stats::HUNDRED };
    rounding::lemma_constants();
    assert(c.exponent() == 133 && c.significand() == 0xc8_0000);
    power2::lemma_pow2_adds(17, 132);
    vstd::arithmetic::power2::lemma2_to64();
    assert(0xc8_0000 * power2::pow2(132) == 100 * (0x2_0000 * power2::pow2(132)));
}

proof fn lemma_percent<F: Fn(Op, Real, Real) -> Real>(f: F, x: Real, y: Real)
    requires
        rounding::rounds(f),
        x.finite(),
        y.finite(),
        x.at_most(y),
    ensures
        ({
            let h = Real { bits: stats::HUNDRED };
            let m = number::times(f, x, h);
            &&& m.at_most(number::times(f, y, h))
            &&& x == (Real { bits: ZERO }) ==> m.quanta() == 0
            &&& x == (Real { bits: ONE }) ==> m.quanta() == 100 * rounding::unit()
        }),
{
    rounding::lemma_constants();
    lemma_hundred();
    let h = Real { bits: stats::HUNDRED };
    rounding::lemma_order(x, y);
    assert(x.quanta() * h.quanta() <= y.quanta() * h.quanta()) by (nonlinear_arith)
        requires
            x.quanta() <= y.quanta(),
            h.quanta() >= 0,
    ;
    rounding::lemma_products(f, x, h, y, h);
    rounding::lemma_nothing(f, Real { bits: ZERO }, h);
    rounding::lemma_once(f, h);
}

/// After every edit there is a window: the near plane lies in front of the far
/// one, and both lie in the map's range.
pub proof fn law_planes_are_kept_apart<F: Fn(Op, Real, Real) -> Real>(f: F, p: Params)
    requires
        rounding::rounds(f),
        !p.near.nan(),
        !p.far.nan(),
    ensures
        ({
            let q = panel::edited(f, p);
            &&& q.near.below(q.far)
            &&& (Real { bits: ZERO }).at_most(q.near)
            &&& q.far.at_most(Real { bits: ONE })
        }),
{
    let l = params::legal(p);
    let q = panel::edited(f, p);
    let (zero, one, milli) = (
        Real { bits: ZERO },
        Real { bits: ONE },
        Real { bits: panel::MILLI },
    );
    rounding::lemma_constants();
    let u = rounding::unit();
    lemma_milli();
    let m = milli.quanta();
    assert(zero.at_most(l.near) && l.near.at_most(one));
    if l.far.at_most(l.near) {
        rounding::lemma_order(zero, l.near);
        rounding::lemma_order(l.near, one);
        let s = number::plus(f, l.near, milli);
        rounding::lemma_two(1);
        rounding::lemma_two(0);
        let two = Real { bits: number::TWO };
        rounding::lemma_sum_side(f, Op::Plus, l.near, milli, milli);
        rounding::lemma_sum_side(f, Op::Plus, l.near, milli, two);
        assert(s.finite());
        rounding::lemma_order(milli, s);
        rounding::lemma_order(one, s);
        let far = s.smaller(one);
        assert(q.far == far);
        let d = far.quanta() - m;
        assert(0 <= d && far.quanta() <= u);
        rounding::lemma_sum_side(f, Op::Minus, far, milli, zero);
        let near = number::minus(f, far, milli);
        if d >= 0x100_0000 {
            number::lemma_pow2_order(149, 249);
            power2::lemma_pow2_unfold(250);
            assert(rounding::outcome(Op::Minus, far, milli) == (d, 1int));
            rounding::lemma_near(f, Op::Minus, far, milli);
        } else {
            vstd::arithmetic::power2::lemma2_to64();
            rounding::lemma_representable(d, 0);
            assert(d * power2::pow2(0) == d);
            rounding::lemma_sum_exact(f, Op::Minus, far, milli);
        }
        rounding::lemma_order(near, far);
        rounding::lemma_order(far, one);
    }
}

/// A thousandth, nearly.
proof fn lemma_milli()
    ensures
        (Real { bits: panel::MILLI }).finite(),
        ({
            let m = (Real { bits: panel::MILLI }).quanta();
            0 < m && m < rounding::unit() && 0x80_0000 * m > 2 * rounding::unit()
        }),
{
    let c = Real { bits: panel::MILLI };
    let t = power2::pow2(116) as int;
    assert(c.exponent() == 117 && c.significand() == 0x83_126f);
    power2::lemma_pow2_pos(116);
    power2::lemma_pow2_adds(32, 116);
    power2::lemma_pow2_adds(1, 148);
    vstd::arithmetic::power2::lemma2_to64();
    assert(c.quanta() == 0x83_126f * t);
    assert(rounding::unit() == 2 * (0x1_0000_0000 * t));
}

// ---------------------------------------------------------------------------
// Views
// ---------------------------------------------------------------------------

/// The off-screen target follows its panel: once it has been resized it stays,
/// it is never far from what was asked for, and it never leaves its limits.
pub proof fn law_target_follows_its_panel(desired: (u32, u32), size: (u32, u32))
    ensures
        match view::resized(desired, size) {
            None => {
                &&& 16 <= desired.0 <= 2048 ==> -8 < desired.0 - size.0 < 8
                &&& 16 <= desired.1 <= 2048 ==> -8 < desired.1 - size.1 < 8
            },
            Some(r) => {
                &&& view::resized(desired, r) is None
                &&& 16 <= r.0 <= 2048 && 16 <= r.1 <= 2048
                &&& 16 <= desired.0 <= 2048 ==> r.0 == desired.0
                &&& 16 <= desired.1 <= 2048 ==> r.1 == desired.1
                &&& desired.0 < 16 ==> r.0 == 16
                &&& desired.1 < 16 ==> r.1 == 16
                &&& desired.0 > 2048 ==> r.0 == 2048
                &&& desired.1 > 2048 ==> r.1 == 2048
                &&& r != size
            },
        },
{
}

/// The camera stays until the model's size has really changed: once it has been
/// moved for a model, it stays for that model.
pub proof fn law_camera_stays_for_the_same_model<F: Fn(Op, Real, Real) -> Real>(
    f: F,
    e: [Real; 3],
    last: Real,
    tangent: Real,
)
    requires
        rounding::rounds(f),
        view::half_diagonal(f, e).finite(),
        view::half_diagonal(f, e).quanta() >= 0,
        view::half_diagonal(f, e).quanta() <= rounding::two(60),
        e[2].finite(),
        e[2].quanta() % 2 == 0,
        rounding::representable(-(e[2].quanta() / 2)),
    ensures
        view::framing_of(f, e, view::half_diagonal(f, e), tangent) is None,
        view::framing_of(f, e, last, tangent) matches Some(c) ==> {
            &&& c.radius == view::half_diagonal(f, e)
            &&& 2 * c.centre_z.quanta() == -e[2].quanta()
            &&& view::framing_of(f, e, c.radius, tangent) is None
        },
{
    rounding::lemma_constants();
    let r = view::half_diagonal(f, e);
    rounding::lemma_self(f, r);
    let gap = number::minus(f, r, r);
    rounding::lemma_opposite(gap);
    let slack = Real { bits: view::REFRAME };
    let one = Real { bits: ONE };
    rounding::lemma_order(r, one);
    let t = r.larger(one);
    let zero = Real { bits: ZERO };
    assert(slack.finite() && slack.quanta() >= 0) by {
        assert(!slack.negative());
        rounding::lemma_order(zero, slack);
    }
    assert(slack.quanta() * t.quanta() >= 0 * rounding::unit()) by (nonlinear_arith)
        requires
            slack.quanta() >= 0,
            t.quanta() >= 0,
    ;
    rounding::lemma_product_side(f, slack, t, zero);
    let s = number::times(f, slack, t);
    if s.finite() {
        rounding::lemma_order(zero, s);
        rounding::lemma_order(s, gap.unsigned());
    }
    let half = Real { bits: HALF };
    rounding::lemma_opposite(half);
    let q = e[2].quanta() / 2;
    assert(e[2].quanta() == 2 * q);
    assert(half.opposite().quanta() * e[2].quanta() == (-q) * rounding::unit()) by (nonlinear_arith)
        requires
            2 * half.quanta() == rounding::unit(),
            half.opposite().quanta() == -half.quanta(),
            e[2].quanta() == 2 * q,
    ;
    rounding::lemma_product_exact(f, half.opposite(), e[2], -q);
}

/// The camera's radius is half the model's diagonal, as far as powers of two
/// tell: not less than half of its longest side, and not more than the whole.
pub proof fn law_radius_is_half_the_diagonal<F: Fn(Op, Real, Real) -> Real>(
    f: F,
    e: [Real; 3],
    g: int,
)
    requires
        rounding::rounds(f),
        -20 <= g <= 40,
        shading::sized(Vector { x: e[0], y: e[1], z: e[2] }, g, g + 1),
    ensures
        view::half_diagonal(f, e).finite(),
        rounding::two(g - 1) <= view::half_diagonal(f, e).quanta() <= rounding::two(g + 1),
{
    rounding::lemma_constants();
    let v = Vector { x: e[0], y: e[1], z: e[2] };
    shading::lemma_length(f, v, g, g + 1);
    let h = number::root(f, vector::dot(f, v, v));
    let half = Real { bits: HALF };
    rounding::lemma_two(g);
    rounding::lemma_two(g - 1);
    rounding::lemma_two(g + 1);
    rounding::lemma_two(g + 2);
    let u = rounding::unit();
    let (lo, hi) = (
        rounding::number_at(rounding::two(g - 1)),
        rounding::number_at(rounding::two(g + 1)),
    );
    let (x, y) = (half.quanta(), h.quanta());
    assert(rounding::two(g - 1) * u <= x * y && x * y <= rounding::two(g + 1) * u)
        by (nonlinear_arith)
        requires
            2 * x == u,
            rounding::two(g) <= y <= rounding::two(g + 2),
            rounding::two(g) == 2 * rounding::two(g - 1),
            rounding::two(g + 2) == 2 * rounding::two(g + 1),
            u > 0,
    ;
    rounding::lemma_product_side(f, half, h, lo);
    rounding::lemma_product_side(f, half, h, hi);
    let r = view::half_diagonal(f, e);
    assert(r.finite());
    rounding::lemma_order(lo, r);
    rounding::lemma_order(r, hi);
}

/// From where the camera stands, the model's radius fills 82 hundredths of half
/// the view: the distance times the tangent times that is the radius, wherever
/// this needs no rounding.
pub proof fn law_camera_fills_the_frame<F: Fn(Op, Real, Real) -> Real>(
    f: F,
    e: [Real; 3],
    last: Real,
    tangent: Real,
    near: int,
    far: int,
)
    requires
        rounding::rounds(f),
        tangent.finite(),
        tangent.quanta() > 0,
        view::half_diagonal(f, e).finite(),
        rounding::representable(near),
        rounding::representable(far),
        near * tangent.quanta() == view::half_diagonal(f, e).quanta() * rounding::unit(),
        far * (Real { bits: view::FILL }).quanta() == near * rounding::unit(),
    ensures
        -(82 * rounding::unit()) <= 10_000_000 * (100 * (Real { bits: view::FILL }).quanta() - 82
            * rounding::unit()) <= 82 * rounding::unit(),
        view::framing_of(f, e, last, tangent) matches Some(c) ==> c.distance.finite()
            && c.distance.quanta() == far,
{
    rounding::lemma_constants();
    let r = view::half_diagonal(f, e);
    let g = Real { bits: view::FILL };
    let t = power2::pow2(125) as int;
    assert(g.exponent() == 126 && g.significand() == 0xd1_eb85);
    power2::lemma_pow2_pos(125);
    power2::lemma_pow2_adds(24, 125);
    vstd::arithmetic::power2::lemma2_to64();
    assert(g.finite() && g.quanta() == 0xd1_eb85 * t);
    assert(rounding::unit() == 0x100_0000 * t);
    rounding::lemma_quotient_exact(f, r, tangent, near);
    rounding::lemma_quotient_exact(f, number::over(f, r, tangent), g, far);
}

/// A side in pixels is the points times the scale, rounded down, and at least
/// 16.
pub proof fn law_pixels_are_scaled_points<F: Fn(Op, Real, Real) -> Real>(
    f: F,
    points: Real,
    scale: Real,
    n: int,
)
    requires
        rounding::rounds(f),
        points.finite(),
        scale.finite(),
        points.quanta() >= 0,
        scale.quanta() >= 0,
        0 <= n <= 0x1_0000,
        n * (rounding::unit() * rounding::unit()) <= points.quanta() * scale.quanta(),
        points.quanta() * scale.quanta() <= 0x100_0000 * (rounding::unit() * rounding::unit()),
    ensures
        view::pixels(f, points, scale) >= 16,
        view::pixels(f, points, scale) >= n,
        forall|m: int|
            16 <= m <= 0x1_0000 && #[trigger] (m * (rounding::unit() * rounding::unit()))
                >= points.quanta() * scale.quanta() ==> view::pixels(f, points, scale) <= m,
{
    rounding::lemma_constants();
    let u = rounding::unit();
    let least = Real { bits: view::MIN_SIDE };
    assert(least.finite() && least.quanta() == 16 * u) by {
        assert(least.exponent() == 131 && least.significand() == 0x80_0000);
        power2::lemma_pow2_adds(23, 130);
        power2::lemma_pow2_adds(4, 149);
        vstd::arithmetic::power2::lemma2_to64();
    }
    let zero = Real { bits: ZERO };
    let p = points.quanta() * scale.quanta();
    rounding::lemma_whole(n as nat);
    rounding::lemma_whole(0x100_0000);
    assert((n * u) * u == n * (u * u) && (0x100_0000 * u) * u == 0x100_0000 * (u * u)) by (nonlinear_arith);
    rounding::lemma_product_side(f, points, scale, number::whole(n as nat));
    rounding::lemma_product_side(f, points, scale, number::whole(0x100_0000));
    let t = number::times(f, points, scale);
    assert(t.finite()) by {
        assert(number::whole(n as nat).at_most(t) && t.at_most(number::whole(0x100_0000)));
    }
    rounding::lemma_order(number::whole(n as nat), t);
    rounding::lemma_order(t, number::whole(0x100_0000));
    rounding::lemma_order(t, least);
    let s = t.larger(least);
    rounding::lemma_floored(s);
    let r = s.floored();
    assert(r >= 16 && r >= n) by (nonlinear_arith)
        requires
            16 * u <= s.quanta(),
            n * u <= s.quanta(),
            s.quanta() < (r + 1) * u,
            u > 0,
    ;
    assert forall|m: int|
        16 <= m <= 0x1_0000 && #[trigger] (m * (u * u)) >= p implies view::pixels(f, points, scale)
        <= m by {
        rounding::lemma_whole(m as nat);
        assert((m * u) * u == m * (u * u)) by (nonlinear_arith);
        rounding::lemma_product_side(f, points, scale, number::whole(m as nat));
        rounding::lemma_order(t, number::whole(m as nat));
        assert(16 * u <= m * u) by (nonlinear_arith)
            requires
                16 <= m,
                u > 0,
        ;
        assert(r <= m) by (nonlinear_arith)
            requires
                r * u <= s.quanta(),
                s.quanta() <= m * u,
                u > 0,
        ;
    }
}

} // verus!
