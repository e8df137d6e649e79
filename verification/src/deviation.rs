//! What the measured deviations mean.

use vstd::prelude::*;
use crate::depth;
use crate::depth::HeightField;
use crate::fit;
use crate::number;
use crate::number::{Op, Real, ZERO};
use crate::resampling;
use crate::rounding;
use crate::shading;
use crate::square::Point;
use crate::triangle;

verus! {

/// Lifting a corner by `climb` lifts a point with this share of the triangle by
/// `part`, and nothing of it needs rounding.
pub open spec fn lifts(whole: int, share: int, climb: int, part: int) -> bool {
    &&& rounding::representable(climb)
    &&& rounding::representable(part)
    &&& whole * part == share * climb
    &&& exists|s: int| #[trigger]
        rounding::representable(s) && s * whole == share * rounding::unit()
}

proof fn lemma_lifted<F: Fn(Op, Real, Real) -> Real>(
    f: F,
    whole: int,
    share: int,
    a: Real,
    b: Real,
    part: int,
)
    requires
        rounding::rounds(f),
        0 < whole <= 0x100_0000,
        0 <= share <= whole,
        a.finite(),
        b.finite(),
        lifts(whole, share, b.quanta() - a.quanta(), part),
    ensures
        ({
            let s = number::over(f, number::whole(share as nat), number::whole(whole as nat));
            let r = number::times(f, number::minus(f, b, a), s);
            r.finite() && r.quanta() == part
        }),
{
    let u = rounding::unit();
    rounding::lemma_constants();
    shading::lemma_share(f, whole as nat, share as nat);
    let q = choose|q: int| #[trigger] rounding::representable(q) && q * whole == share * u;
    let s = shading::share(f, whole as nat, share as nat);
    assert(s.quanta() == q);
    rounding::lemma_sum_exact(f, Op::Minus, b, a);
    let d = number::minus(f, b, a);
    let c = d.quanta();
    assert(c * q == part * u) by (nonlinear_arith)
        requires
            q * whole == share * u,
            whole * part == share * c,
            whole > 0,
    {
        assert((c * q) * whole == c * (share * u));
        assert((part * u) * whole == (whole * part) * u);
        assert(c * (share * u) == (share * c) * u);
    }
    rounding::lemma_product_exact(f, d, s, part);
}

/// The height of a triangle over a point is the mean of its corners' heights,
/// each weighed with the part of the triangle that lies across from it. So the
/// gap is how far the sample lies from the plane through the corners: where
/// nothing needs rounding, it is exact.
pub proof fn law_gap_is_the_distance_from_the_plane<F: Fn(Op, Real, Real) -> Real>(
    f: F,
    field: HeightField,
    t: [Point; 3],
    p: Point,
    one: int,
    two: int,
)
    requires
        rounding::rounds(f),
        0 < triangle::area(t[0], t[1], t[2]) <= 0x100_0000,
        triangle::on(t, p),
        p != t[0] && p != t[1] && p != t[2],
        field.height(t[0].0, t[0].1).finite(),
        field.height(t[1].0, t[1].1).finite(),
        field.height(t[2].0, t[2].1).finite(),
        field.height(p.0, p.1).finite(),
        ({
            let whole = triangle::area(t[0], t[1], t[2]);
            let a = field.height(t[0].0, t[0].1).quanta();
            let b = field.height(t[1].0, t[1].1).quanta();
            let c = field.height(t[2].0, t[2].1).quanta();
            let z = field.height(p.0, p.1).quanta();
            &&& lifts(whole, triangle::area(t[0], p, t[2]), b - a, one)
            &&& lifts(whole, triangle::area(t[0], t[1], p), c - a, two)
            &&& rounding::representable(a + one)
            &&& rounding::representable(a + one + two)
            &&& rounding::representable(z - (a + one + two))
        }),
    ensures
        ({
            let whole = triangle::area(t[0], t[1], t[2]);
            let a = field.height(t[0].0, t[0].1).quanta();
            let b = field.height(t[1].0, t[1].1).quanta();
            let c = field.height(t[2].0, t[2].1).quanta();
            let z = field.height(p.0, p.1).quanta();
            let mean = triangle::area(p, t[1], t[2]) * a + triangle::area(t[0], p, t[2]) * b
                + triangle::area(t[0], t[1], p) * c;
            let gap = fit::gap(f, field, t, p);
            &&& gap.finite() && gap.quanta() >= 0
            &&& whole * gap.quanta() == whole * z - mean || whole * gap.quanta() == mean - whole
                * z
        }),
{
    let whole = triangle::area(t[0], t[1], t[2]);
    let (a, b, c) = (
        field.height(t[0].0, t[0].1),
        field.height(t[1].0, t[1].1),
        field.height(t[2].0, t[2].1),
    );
    let z = field.height(p.0, p.1);
    let (r, s, v) = (
        triangle::area(p, t[1], t[2]),
        triangle::area(t[0], p, t[2]),
        triangle::area(t[0], t[1], p),
    );
    triangle::lemma_parts(t[0], t[1], t[2], p);
    lemma_lifted(f, whole, s, a, b, one);
    lemma_lifted(f, whole, v, a, c, two);
    let x = number::times(
        f,
        number::minus(f, b, a),
        number::over(f, number::whole(s as nat), number::whole(whole as nat)),
    );
    let y = number::times(
        f,
        number::minus(f, c, a),
        number::over(f, number::whole(v as nat), number::whole(whole as nat)),
    );
    rounding::lemma_sum_exact(f, Op::Plus, a, x);
    rounding::lemma_sum_exact(f, Op::Plus, number::plus(f, a, x), y);
    let l = fit::level(f, field, t, p);
    rounding::lemma_sum_exact(f, Op::Minus, z, l);
    rounding::lemma_opposite(number::minus(f, z, l));
    let (i, j, k, o) = (a.quanta(), b.quanta(), c.quanta(), z.quanta());
    let q = i + one + two;
    assert(whole * q == r * i + s * j + v * k && whole * (o - q) == whole * o - whole * q && whole
        * (q - o) == whole * q - whole * o) by (nonlinear_arith)
        requires
            q == i + one + two,
            whole * one == s * (j - i),
            whole * two == v * (k - i),
            whole == r + s + v,
    ;
}

/// A block's bend is how far the sample lies from the bilinear surface through
/// the block's corners: where nothing needs rounding, it is exact.
pub proof fn law_bend_is_the_distance_from_the_quad<F: Fn(Op, Real, Real) -> Real>(
    f: F,
    field: HeightField,
    x0: int,
    y0: int,
    span: int,
    i: int,
    j: int,
    across: int,
    down: int,
    top: int,
    bottom: int,
    v: int,
)
    requires
        rounding::rounds(f),
        1 <= span <= 0x100_0000,
        0 <= i <= span,
        0 <= j <= span,
        rounding::representable(across),
        rounding::representable(down),
        across * span == i * rounding::unit(),
        down * span == j * rounding::unit(),
        field.height(x0, y0).finite(),
        field.height(x0 + span, y0).finite(),
        field.height(x0, y0 + span).finite(),
        field.height(x0 + span, y0 + span).finite(),
        field.height(x0 + i, y0 + j).finite(),
        resampling::leads(
            field.height(x0, y0).quanta(),
            field.height(x0 + span, y0).quanta(),
            across,
            top,
        ),
        resampling::leads(
            field.height(x0, y0 + span).quanta(),
            field.height(x0 + span, y0 + span).quanta(),
            across,
            bottom,
        ),
        resampling::leads(top, bottom, down, v),
        rounding::representable(field.height(x0 + i, y0 + j).quanta() - v),
    ensures
        ({
            let b = fit::bend(f, field, x0, y0, span, i, j);
            let z = field.height(x0 + i, y0 + j).quanta();
            &&& b.finite() && b.quanta() >= 0
            &&& b.quanta() == z - v || b.quanta() == v - z
        }),
{
    shading::lemma_share(f, span as nat, i as nat);
    shading::lemma_share(f, span as nat, j as nat);
    let (s, t) = (shading::share(f, span as nat, i as nat), shading::share(f, span as nat, j as nat));
    let (a, b) = (field.height(x0, y0), field.height(x0 + span, y0));
    let (c, d) = (field.height(x0, y0 + span), field.height(x0 + span, y0 + span));
    resampling::lemma_mix_exact(f, a, b, s, top);
    resampling::lemma_mix_exact(f, c, d, s, bottom);
    let (m, n) = (depth::mix(f, a, b, s), depth::mix(f, c, d, s));
    resampling::lemma_mix_exact(f, m, n, t, v);
    let z = field.height(x0 + i, y0 + j);
    rounding::lemma_sum_exact(f, Op::Minus, z, depth::mix(f, m, n, t));
    rounding::lemma_opposite(number::minus(f, z, depth::mix(f, m, n, t)));
}

// ---------------------------------------------------------------------------
// Depth
// ---------------------------------------------------------------------------

/// The depth of a field is that of its deepest point: none lies deeper, and one
/// lies there, unless nothing lies below zero at all.
pub proof fn law_depth_is_the_deepest(field: HeightField, k: int)
    requires
        forall|i: int| 0 <= i < field.z@.len() ==> (#[trigger] field.z@[i]).finite(),
        0 <= k < field.z@.len(),
    ensures
        ({
            let d = field.deepest();
            &&& d.finite() && d.quanta() >= 0
            &&& field.z@[k].quanta() >= -d.quanta()
            &&& d.quanta() == 0 || exists|i: int|
                0 <= i < field.z@.len() && (#[trigger] field.z@[i]).quanta() == -d.quanta()
        }),
{
    lemma_lowest(field.z@, field.z@.len());
    rounding::lemma_opposite(depth::lowest(field.z@, field.z@.len()));
}

proof fn lemma_lowest(z: Seq<Real>, n: nat)
    requires
        n <= z.len(),
        forall|i: int| 0 <= i < z.len() ==> (#[trigger] z[i]).finite(),
    ensures
        ({
            let l = depth::lowest(z, n);
            &&& l.finite() && l.quanta() <= 0
            &&& forall|i: int| 0 <= i < n ==> l.quanta() <= (#[trigger] z[i]).quanta()
            &&& l.quanta() == 0 || exists|i: int| 0 <= i < n && (#[trigger] z[i]).quanta()
                == l.quanta()
        }),
    decreases n,
{
    rounding::lemma_constants();
    if n > 0 {
        lemma_lowest(z, (n - 1) as nat);
        let l = depth::lowest(z, (n - 1) as nat);
        rounding::lemma_order(z[n - 1], l);
        assert(z[n - 1].finite());
    } else {
        assert((Real { bits: ZERO }).quanta() == 0);
    }
}

} // verus!
