//! What conditioning makes of a depth map, in millimetres.

use vstd::prelude::*;
use vstd::arithmetic::power2;
use crate::depth;
use crate::depth::{DepthMap, HeightField};
use crate::number;
use crate::number::{Op, Real, ONE, ZERO};
use crate::params::Params;
use crate::pictures;
use crate::rounding;

verus! {

/// A number whose sums and products stay far from the largest one.
pub open spec fn modest(a: Real) -> bool {
    a.finite() && -power2::pow2(200) <= a.quanta() <= power2::pow2(200)
}

/// A window inside the map's range, and an emboss depth.
pub open spec fn shapely(p: Params) -> bool {
    &&& p.near.finite() && p.far.finite() && modest(p.emboss_mm)
    &&& 0 <= p.near.quanta() < p.far.quanta() <= rounding::unit()
    &&& p.emboss_mm.quanta() >= 0
}

/// Samples that can be told apart and taken from each other.
pub open spec fn level_headed(v: Seq<Real>) -> bool {
    forall|k: int| 0 <= k < v.len() ==> modest(#[trigger] v[k])
}

/// The smallest and the largest sample are samples, and no sample lies outside.
proof fn lemma_extremes(v: Seq<Real>, n: nat)
    requires
        level_headed(v),
        1 <= n <= v.len(),
    ensures
        ({
            let (lo, hi) = depth::extremes(v, n);
            &&& modest(lo) && modest(hi)
            &&& forall|k: int|
                0 <= k < n ==> lo.quanta() <= (#[trigger] v[k]).quanta() <= hi.quanta()
            &&& exists|k: int| 0 <= k < n && lo == #[trigger] v[k]
            &&& exists|k: int| 0 <= k < n && hi == #[trigger] v[k]
        }),
    decreases n,
{
    let (lo, hi) = depth::extremes(v, n);
    let x = v[n - 1];
    if n == 1 {
        reveal_with_fuel(depth::extremes, 2);
        assert(lo == x && hi == x);
    } else {
        lemma_extremes(v, (n - 1) as nat);
        let (a, b) = depth::extremes(v, (n - 1) as nat);
        rounding::lemma_order(x, a);
        rounding::lemma_order(b, x);
    }
}

/// The window is open, and not wider than one.
proof fn lemma_window<F: Fn(Op, Real, Real) -> Real>(f: F, p: Params)
    requires
        rounding::rounds(f),
        shapely(p),
    ensures
        ({
            let w = number::minus(f, p.far, p.near);
            w.finite() && 0 < w.quanta() <= rounding::unit()
        }),
{
    rounding::lemma_constants();
    let w = number::minus(f, p.far, p.near);
    let one = Real { bits: ONE };
    rounding::lemma_sum_side(f, Op::Minus, p.far, p.near, one);
    rounding::lemma_representable(1, 0);
    vstd::arithmetic::power2::lemma2_to64();
    let c = choose|c: Real| c.finite() && #[trigger] c.quanta() == 1;
    rounding::lemma_sum_side(f, Op::Minus, p.far, p.near, c);
    assert(w.finite()) by {
        rounding::lemma_order(c, one);
    }
    rounding::lemma_order(w, one);
    rounding::lemma_order(c, w);
}

/// The range is not empty, and finite.
proof fn lemma_spread<F: Fn(Op, Real, Real) -> Real>(f: F, lo: Real, hi: Real)
    requires
        rounding::rounds(f),
        modest(lo),
        modest(hi),
        lo.quanta() <= hi.quanta(),
    ensures
        ({
            let s = depth::spread(f, lo, hi);
            &&& s.finite() && s.quanta() > 0
            &&& lo.quanta() < hi.quanta() ==> s == number::minus(f, hi, lo)
            &&& lo.quanta() == hi.quanta() ==> s.quanta() == rounding::unit()
        }),
{
    rounding::lemma_constants();
    rounding::lemma_order(lo, hi);
    let s = number::minus(f, hi, lo);
    if lo.quanta() < hi.quanta() {
        rounding::lemma_representable(1, 201);
        power2::lemma_pow2_unfold(201);
        let c = choose|c: Real| c.finite() && #[trigger] c.quanta() == 1 * power2::pow2(201);
        rounding::lemma_sum_side(f, Op::Minus, hi, lo, c);
        rounding::lemma_representable(1, 0);
        vstd::arithmetic::power2::lemma2_to64();
        let d = choose|d: Real| d.finite() && #[trigger] d.quanta() == 1;
        rounding::lemma_sum_side(f, Op::Minus, hi, lo, d);
        assert(s.finite()) by {
            rounding::lemma_order(d, c);
        }
        rounding::lemma_order(d, s);
    }
}

/// Where a sample stands in the range, from zero to one.
spec fn stand<F: Fn(Op, Real, Real) -> Real>(f: F, lo: Real, hi: Real, x: Real) -> Real {
    number::over(f, number::minus(f, x, lo), depth::spread(f, lo, hi))
}

proof fn lemma_stand<F: Fn(Op, Real, Real) -> Real>(f: F, lo: Real, hi: Real, x: Real)
    requires
        rounding::rounds(f),
        modest(lo),
        modest(hi),
        modest(x),
        lo.quanta() <= x.quanta() <= hi.quanta(),
    ensures
        ({
            let u = number::minus(f, x, lo);
            let t = stand(f, lo, hi, x);
            &&& u.finite() && 0 <= u.quanta() <= depth::spread(f, lo, hi).quanta()
            &&& t.finite() && 0 <= t.quanta() <= rounding::unit()
            &&& x.quanta() == lo.quanta() ==> t.quanta() == 0
            &&& x.quanta() == hi.quanta() && lo.quanta() < hi.quanta() ==> t.quanta()
                == rounding::unit()
        }),
{
    lemma_spread(f, lo, hi);
    rounding::lemma_constants();
    let s = depth::spread(f, lo, hi);
    let u = number::minus(f, x, lo);
    let (zero, one) = (Real { bits: ZERO }, Real { bits: ONE });
    rounding::lemma_sum_side(f, Op::Minus, x, lo, zero);
    if lo.quanta() < hi.quanta() {
        rounding::lemma_sums(f, Op::Minus, x, lo, Op::Minus, hi, lo);
    } else {
        rounding::lemma_sum_side(f, Op::Minus, x, lo, s);
    }
    assert(u.finite());
    rounding::lemma_order(zero, u);
    rounding::lemma_order(u, s);
    if x.quanta() == hi.quanta() && lo.quanta() < hi.quanta() {
        rounding::lemma_sums(f, Op::Minus, hi, lo, Op::Minus, x, lo);
        rounding::lemma_order(s, u);
    }
    if x.quanta() == lo.quanta() {
        assert(zero.quanta() == 0);
        rounding::lemma_sum_exact(f, Op::Minus, x, lo);
    }
    let (a, b, e) = (u.quanta(), s.quanta(), rounding::unit());
    let t = stand(f, lo, hi, x);
    assert(a * e <= e * b && 0 * b <= a * e) by (nonlinear_arith)
        requires
            0 <= a <= b,
            e > 0,
    ;
    rounding::lemma_quotient_side(f, u, s, zero);
    rounding::lemma_quotient_side(f, u, s, one);
    assert(t.finite());
    rounding::lemma_order(zero, t);
    rounding::lemma_order(t, one);
    if a == b {
        assert(e * b <= a * e) by (nonlinear_arith)
            requires
                a == b,
        ;
        rounding::lemma_order(one, t);
    }
    if a == 0 {
        assert(a * e <= 0 * b) by (nonlinear_arith)
            requires
                a == 0,
        ;
        rounding::lemma_order(t, zero);
    }
}

/// The height of what stands at `t`.
spec fn drop_at<F: Fn(Op, Real, Real) -> Real>(f: F, p: Params, t: Real) -> Real {
    number::over(
        f,
        number::times(f, p.emboss_mm.opposite(), number::minus(f, t, p.near)),
        number::minus(f, p.far, p.near),
    )
}

proof fn lemma_product_bounds<F: Fn(Op, Real, Real) -> Real>(f: F, e: Real, d: Real)
    requires
        rounding::rounds(f),
        modest(e),
        e.quanta() <= 0,
        d.finite(),
        0 <= d.quanta() <= rounding::unit(),
    ensures
        ({
            let y = number::times(f, e, d);
            y.finite() && e.quanta() <= y.quanta() <= 0
        }),
{
    rounding::lemma_constants();
    let zero = Real { bits: ZERO };
    let (a, b, u) = (e.quanta(), d.quanta(), rounding::unit());
    assert(a * u <= a * b <= 0 * u) by (nonlinear_arith)
        requires
            a <= 0,
            0 <= b <= u,
    ;
    rounding::lemma_product_side(f, e, d, zero);
    rounding::lemma_product_side(f, e, d, e);
    let y = number::times(f, e, d);
    assert(y.finite());
    rounding::lemma_order(y, zero);
    rounding::lemma_order(e, y);
}

proof fn lemma_drop<F: Fn(Op, Real, Real) -> Real>(f: F, p: Params, t: Real, s: Real)
    requires
        rounding::rounds(f),
        shapely(p),
        t.finite(),
        s.finite(),
        p.near.quanta() <= t.quanta() <= s.quanta() <= p.far.quanta(),
    ensures
        ({
            let zero = Real { bits: ZERO };
            &&& drop_at(f, p, t).at_most(zero)
            &&& drop_at(f, p, s).at_most(drop_at(f, p, t))
            &&& t.quanta() == p.near.quanta() ==> drop_at(f, p, t).equals(zero)
        }),
{
    lemma_window(f, p);
    rounding::lemma_constants();
    rounding::lemma_opposite(p.emboss_mm);
    let zero = Real { bits: ZERO };
    let e = p.emboss_mm.opposite();
    let w = number::minus(f, p.far, p.near);
    let (a, b) = (number::minus(f, t, p.near), number::minus(f, s, p.near));
    rounding::lemma_sum_side(f, Op::Minus, t, p.near, zero);
    rounding::lemma_sums(f, Op::Minus, t, p.near, Op::Minus, s, p.near);
    rounding::lemma_sums(f, Op::Minus, s, p.near, Op::Minus, p.far, p.near);
    assert(a.finite() && b.finite());
    rounding::lemma_order(zero, a);
    rounding::lemma_order(a, b);
    rounding::lemma_order(b, w);
    lemma_product_bounds(f, e, a);
    lemma_product_bounds(f, e, b);
    let (x, y) = (number::times(f, e, a), number::times(f, e, b));
    assert(e.quanta() * b.quanta() <= e.quanta() * a.quanta()) by (nonlinear_arith)
        requires
            e.quanta() <= 0,
            a.quanta() <= b.quanta(),
    ;
    rounding::lemma_products(f, e, b, e, a);
    rounding::lemma_order(y, x);
    rounding::lemma_quotients(f, y, x, w);
    let (xq, wq, u) = (x.quanta(), w.quanta(), rounding::unit());
    assert(xq * u <= 0 * wq) by (nonlinear_arith)
        requires
            xq <= 0,
            u > 0,
    ;
    rounding::lemma_quotient_side(f, x, w, zero);
    if t.quanta() == p.near.quanta() {
        rounding::lemma_sum_exact(f, Op::Minus, t, p.near);
        rounding::lemma_nothing(f, a, e);
        rounding::lemma_nothing(f, x, w);
        rounding::lemma_order(drop_at(f, p, t), zero);
    }
}

/// Clamped into the window.
proof fn lemma_clamped(p: Params, t: Real)
    requires
        shapely(p),
        t.finite(),
    ensures
        ({
            let c = t.between(p.near, p.far);
            &&& c.finite()
            &&& c.quanta() == if t.quanta() < p.near.quanta() {
                p.near.quanta()
            } else if t.quanta() > p.far.quanta() {
                p.far.quanta()
            } else {
                t.quanta()
            }
        }),
{
    rounding::lemma_order(t, p.near);
    rounding::lemma_order(p.far, t);
}

/// The heights of a conditioned map never rise above the front plane, the
/// nearest sample lies in it, and what is farther away is no higher.
pub proof fn law_heights_keep_the_order<F: Fn(Op, Real, Real) -> Real>(
    f: F,
    m: DepthMap,
    p: Params,
    r: HeightField,
    a: int,
    b: int,
)
    requires
        rounding::rounds(f),
        m.conditioned(f, p, r),
        shapely(p),
        level_headed(m.filtered(f, p)),
        0 <= a < r.z@.len(),
        0 <= b < r.z@.len(),
    ensures
        r.z@[a].at_most(Real { bits: ZERO }),
        m.filtered(f, p)[a].at_most(m.filtered(f, p)[b]) ==> r.z@[b].at_most(r.z@[a]),
        (forall|k: int|
            0 <= k < r.z@.len() ==> m.filtered(f, p)[a].at_most(#[trigger] m.filtered(f, p)[k]))
            ==> r.z@[a].equals(Real { bits: ZERO }),
{
    let v = m.filtered(f, p);
    let (lo, hi) = depth::extremes(v, v.len());
    lemma_extremes(v, v.len());
    let (x, y) = (v[a], v[b]);
    lemma_stand(f, lo, hi, x);
    lemma_stand(f, lo, hi, y);
    let (t, s) = (stand(f, lo, hi, x), stand(f, lo, hi, y));
    lemma_clamped(p, t);
    lemma_clamped(p, s);
    let (c, d) = (t.between(p.near, p.far), s.between(p.near, p.far));
    lemma_drop(f, p, c, c);
    rounding::lemma_order(x, y);
    if x.at_most(y) {
        lemma_spread(f, lo, hi);
        rounding::lemma_sums(f, Op::Minus, x, lo, Op::Minus, y, lo);
        rounding::lemma_order(number::minus(f, x, lo), number::minus(f, y, lo));
        rounding::lemma_quotients(
            f,
            number::minus(f, x, lo),
            number::minus(f, y, lo),
            depth::spread(f, lo, hi),
        );
        rounding::lemma_order(t, s);
        lemma_drop(f, p, c, d);
    }
    if forall|k: int| 0 <= k < v.len() ==> x.at_most(#[trigger] v[k]) {
        let k = choose|k: int| 0 <= k < v.len() && lo == #[trigger] v[k];
        assert(x.at_most(v[k]));
        rounding::lemma_order(x, lo);
    }
}

/// The range of the samples needs no rounding, nor does this sample's place in
/// it.
pub open spec fn ranges_exactly(v: Seq<Real>, lo: int, hi: int, k: int) -> bool {
    &&& forall|i: int| 0 <= i < v.len() ==> lo <= (#[trigger] v[i]).quanta() <= hi
    &&& exists|i: int| 0 <= i < v.len() && lo == (#[trigger] v[i]).quanta()
    &&& exists|i: int| 0 <= i < v.len() && hi == (#[trigger] v[i]).quanta()
    &&& rounding::representable(hi - lo)
    &&& rounding::representable(v[k].quanta() - lo)
}

proof fn lemma_range(v: Seq<Real>, lo: int, hi: int, k: int)
    requires
        level_headed(v),
        0 <= k < v.len(),
        ranges_exactly(v, lo, hi, k),
    ensures
        ({
            let (a, b) = depth::extremes(v, v.len());
            a.quanta() == lo && b.quanta() == hi && modest(a) && modest(b)
        }),
{
    lemma_extremes(v, v.len());
    let (a, b) = depth::extremes(v, v.len());
    let i = choose|i: int| 0 <= i < v.len() && lo == (#[trigger] v[i]).quanta();
    let j = choose|j: int| 0 <= j < v.len() && hi == (#[trigger] v[j]).quanta();
    let s = choose|s: int| 0 <= s < v.len() && a == #[trigger] v[s];
    let t = choose|t: int| 0 <= t < v.len() && b == #[trigger] v[t];
    assert(a.quanta() <= v[i].quanta() && v[j].quanta() <= b.quanta());
    assert(lo <= v[s].quanta() && v[t].quanta() <= hi);
}

/// The window is what it says. A sample whose share of the range is at most
/// `near` has height zero, and one whose share is at least `far` lies at the
/// bottom, below which nothing lies. The bottom is the emboss depth, wherever
/// the depth times the window needs no rounding; and it is on the same side of
/// any other depth for which that holds.
pub proof fn law_window_spans_the_emboss<F: Fn(Op, Real, Real) -> Real>(
    f: F,
    m: DepthMap,
    p: Params,
    r: HeightField,
    lo: int,
    hi: int,
    k: int,
    i: int,
)
    requires
        rounding::rounds(f),
        m.conditioned(f, p, r),
        shapely(p),
        level_headed(m.filtered(f, p)),
        0 <= k < r.z@.len(),
        0 <= i < r.z@.len(),
        ranges_exactly(m.filtered(f, p), lo, hi, k),
    ensures
        ({
            let x = m.filtered(f, p)[k].quanta();
            let (near, far, deep) = (p.near.quanta(), p.far.quanta(), p.emboss_mm.quanta());
            let u = rounding::unit();
            &&& (x - lo) * u <= near * (hi - lo) ==> r.z@[k].equals(Real { bits: ZERO })
            &&& lo < hi && (x - lo) * u >= far * (hi - lo) ==> {
                &&& r.z@[k].at_most(r.z@[i])
                &&& rounding::representable(far - near) ==> {
                    &&& settles(p, p.emboss_mm.opposite()) ==> r.z@[k].equals(
                        p.emboss_mm.opposite(),
                    )
                    &&& forall|c: Real| #[trigger]
                        settles(p, c) && -deep <= c.quanta() ==> r.z@[k].at_most(c)
                    &&& forall|c: Real| #[trigger]
                        settles(p, c) && c.quanta() <= -deep ==> c.at_most(r.z@[k])
                }
            }
        }),
{
    let v = m.filtered(f, p);
    let (a, b) = depth::extremes(v, v.len());
    lemma_extremes(v, v.len());
    lemma_range(v, lo, hi, k);
    let x = v[k];
    lemma_stand(f, a, b, x);
    lemma_spread(f, a, b);
    rounding::lemma_constants();
    let t = stand(f, a, b, x);
    let s = depth::spread(f, a, b);
    rounding::lemma_sum_exact(f, Op::Minus, x, a);
    let d = number::minus(f, x, a);
    let u = rounding::unit();
    if lo < hi {
        rounding::lemma_sum_exact(f, Op::Minus, b, a);
        rounding::lemma_quotient_side(f, d, s, p.near);
        rounding::lemma_quotient_side(f, d, s, p.far);
    }
    lemma_clamped(p, t);
    let c = t.between(p.near, p.far);
    lemma_drop(f, p, c, c);
    rounding::lemma_order(t, p.near);
    rounding::lemma_order(p.far, t);
    if lo < hi && (x.quanta() - lo) * u >= p.far.quanta() * (hi - lo) {
        lemma_stand(f, a, b, v[i]);
        lemma_clamped(p, stand(f, a, b, v[i]));
        lemma_drop(f, p, stand(f, a, b, v[i]).between(p.near, p.far), c);
        if rounding::representable(p.far.quanta() - p.near.quanta()) {
            lemma_bottom(f, p, c);
        }
    }
}

/// A depth times the window needs no rounding.
pub open spec fn settles(p: Params, c: Real) -> bool {
    c.finite() && exists|q: int| #[trigger]
        rounding::representable(q) && c.quanta() * (p.far.quanta() - p.near.quanta()) == q
            * rounding::unit()
}

proof fn lemma_bottom<F: Fn(Op, Real, Real) -> Real>(f: F, p: Params, t: Real)
    requires
        rounding::rounds(f),
        shapely(p),
        t.finite(),
        t.quanta() == p.far.quanta(),
        rounding::representable(p.far.quanta() - p.near.quanta()),
    ensures
        ({
            let z = drop_at(f, p, t);
            let deep = p.emboss_mm.quanta();
            &&& settles(p, p.emboss_mm.opposite()) ==> z.equals(p.emboss_mm.opposite())
            &&& forall|c: Real| #[trigger] settles(p, c) && -deep <= c.quanta() ==> z.at_most(c)
            &&& forall|c: Real| #[trigger] settles(p, c) && c.quanta() <= -deep ==> c.at_most(z)
        }),
{
    let z = drop_at(f, p, t);
    let deep = p.emboss_mm.quanta();
    let u = rounding::unit();
    rounding::lemma_constants();
    rounding::lemma_opposite(p.emboss_mm);
    rounding::lemma_sum_exact(f, Op::Minus, p.far, p.near);
    rounding::lemma_sum_exact(f, Op::Minus, t, p.near);
    let w = number::minus(f, p.far, p.near);
    let d = number::minus(f, t, p.near);
    let e = p.emboss_mm.opposite();
    lemma_window(f, p);
    lemma_product_bounds(f, e, d);
    let y = number::times(f, e, d);
    let wq = w.quanta();
    assert forall|c: Real| #[trigger]
        settles(p, c) && -deep <= c.quanta() implies z.at_most(c) by {
        let q = choose|q: int| #[trigger]
            rounding::representable(q) && c.quanta() * wq == q * u;
        let n = choose|n: Real| n.finite() && #[trigger] n.quanta() == q;
        let g = c.quanta();
        assert((-deep) * wq <= q * u) by (nonlinear_arith)
            requires
                g * wq == q * u,
                -deep <= g,
                wq > 0,
        ;
        rounding::lemma_product_side(f, e, d, n);
        rounding::lemma_order(y, n);
        assert(y.quanta() * u <= g * wq) by (nonlinear_arith)
            requires
                g * wq == q * u,
                y.quanta() <= q,
                u > 0,
        ;
        rounding::lemma_quotient_side(f, y, w, c);
    }
    assert forall|c: Real| #[trigger]
        settles(p, c) && c.quanta() <= -deep implies c.at_most(z) by {
        let q = choose|q: int| #[trigger]
            rounding::representable(q) && c.quanta() * wq == q * u;
        let n = choose|n: Real| n.finite() && #[trigger] n.quanta() == q;
        let g = c.quanta();
        assert(q * u <= (-deep) * wq) by (nonlinear_arith)
            requires
                g * wq == q * u,
                g <= -deep,
                wq > 0,
        ;
        rounding::lemma_product_side(f, e, d, n);
        rounding::lemma_order(n, y);
        assert(g * wq <= y.quanta() * u) by (nonlinear_arith)
            requires
                g * wq == q * u,
                q <= y.quanta(),
                u > 0,
        ;
        rounding::lemma_quotient_side(f, y, w, c);
    }
}

/// Between the planes, the height falls off evenly: where nothing needs
/// rounding, the drop is to the emboss depth as the sample's share of the range
/// beyond `near` is to the window.
pub proof fn law_drop_is_even<F: Fn(Op, Real, Real) -> Real>(
    f: F,
    m: DepthMap,
    p: Params,
    r: HeightField,
    lo: int,
    hi: int,
    k: int,
    share: int,
    product: int,
    drop: int,
)
    requires
        rounding::rounds(f),
        m.conditioned(f, p, r),
        shapely(p),
        level_headed(m.filtered(f, p)),
        0 <= k < r.z@.len(),
        ranges_exactly(m.filtered(f, p), lo, hi, k),
        lo < hi,
        share * (hi - lo) == (m.filtered(f, p)[k].quanta() - lo) * rounding::unit(),
        rounding::representable(share),
        p.near.quanta() <= share <= p.far.quanta(),
        rounding::representable(share - p.near.quanta()),
        rounding::representable(p.far.quanta() - p.near.quanta()),
        p.emboss_mm.quanta() * (share - p.near.quanta()) == product * rounding::unit(),
        rounding::representable(-product),
        drop * (p.far.quanta() - p.near.quanta()) == product * rounding::unit(),
        rounding::representable(-drop),
    ensures
        r.z@[k].finite(),
        r.z@[k].quanta() == -drop,
        drop * (p.far.quanta() - p.near.quanta()) == p.emboss_mm.quanta() * (share
            - p.near.quanta()),
{
    let v = m.filtered(f, p);
    let (a, b) = depth::extremes(v, v.len());
    lemma_extremes(v, v.len());
    lemma_range(v, lo, hi, k);
    let x = v[k];
    lemma_spread(f, a, b);
    rounding::lemma_constants();
    rounding::lemma_sum_exact(f, Op::Minus, x, a);
    rounding::lemma_sum_exact(f, Op::Minus, b, a);
    let t = stand(f, a, b, x);
    rounding::lemma_quotient_exact(f, number::minus(f, x, a), depth::spread(f, a, b), share);
    lemma_clamped(p, t);
    let c = t.between(p.near, p.far);
    rounding::lemma_opposite(p.emboss_mm);
    let e = p.emboss_mm.opposite();
    rounding::lemma_sum_exact(f, Op::Minus, c, p.near);
    rounding::lemma_sum_exact(f, Op::Minus, p.far, p.near);
    let d = number::minus(f, c, p.near);
    let w = number::minus(f, p.far, p.near);
    let u = rounding::unit();
    assert(e.quanta() * d.quanta() == (-product) * u) by (nonlinear_arith)
        requires
            e.quanta() == -p.emboss_mm.quanta(),
            p.emboss_mm.quanta() * d.quanta() == product * u,
    ;
    rounding::lemma_product_exact(f, e, d, -product);
    assert((-product) * u == (-drop) * w.quanta()) by (nonlinear_arith)
        requires
            drop * w.quanta() == product * u,
    ;
    rounding::lemma_quotient_exact(f, number::times(f, e, d), w, -drop);
}

/// Without inversion the darkest sample is the nearest; with it, the brightest
/// is. So inverting turns the order of the heights around.
pub proof fn law_inverting_turns_the_relief<F: Fn(Op, Real, Real) -> Real>(
    f: F,
    m: DepthMap,
    p: Params,
    r: HeightField,
    a: int,
    b: int,
)
    requires
        rounding::rounds(f),
        m.wf(),
        m.conditioned(f, p, r),
        shapely(p),
        p.filter_size <= 1,
        p.presmooth.equals(Real { bits: ZERO }),
        forall|k: int|
            0 <= k < m.data@.len() ==> (#[trigger] m.data@[k]).finite() && 0
                <= m.data@[k].quanta() <= rounding::unit(),
        0 <= a < m.data@.len(),
        0 <= b < m.data@.len(),
        m.data@[a].at_most(m.data@[b]),
    ensures
        !p.invert ==> r.z@[b].at_most(r.z@[a]),
        p.invert ==> r.z@[a].at_most(r.z@[b]),
{
    let v = m.filtered(f, p);
    rounding::lemma_constants();
    number::lemma_pow2_order(149, 200);
    let (zero, one) = (Real { bits: ZERO }, Real { bits: ONE });
    if p.invert {
        assert forall|k: int| 0 <= k < v.len() implies modest(#[trigger] v[k]) by {
            let x = m.data@[k];
            assert(v[k] == number::minus(f, one, x));
            rounding::lemma_sum_side(f, Op::Minus, one, x, zero);
            rounding::lemma_sum_side(f, Op::Minus, one, x, one);
            rounding::lemma_order(zero, v[k]);
            rounding::lemma_order(v[k], one);
        }
        let (x, y) = (m.data@[a], m.data@[b]);
        rounding::lemma_order(x, y);
        rounding::lemma_sums(f, Op::Minus, one, y, Op::Minus, one, x);
        assert(v[b].at_most(v[a]));
        law_heights_keep_the_order(f, m, p, r, b, a);
    } else {
        assert(v == m.data@);
        law_heights_keep_the_order(f, m, p, r, a, b);
    }
}

/// A relief has the shape of its map: across the longer side it has the
/// vertices that were asked for, and across the other its share of them.
pub proof fn law_relief_keeps_the_shape<F: Fn(Op, Real, Real) -> Real>(
    f: F,
    m: DepthMap,
    p: Params,
    r: HeightField,
)
    requires
        m.wf(),
        m.relief(f, p, r),
        p.size_px >= 2,
    ensures
        r.wf(),
        r.bits == m.bits,
        r.w >= 2 && r.h >= 2,
        m.width >= m.height ==> r.w == p.size_px && (r.h * m.width <= p.size_px * m.height || r.h
            == 2) && p.size_px * m.height < (r.h + 1) * m.width,
        m.height >= m.width ==> r.h == p.size_px && (r.w * m.height <= p.size_px * m.width || r.w
            == 2) && p.size_px * m.width < (r.w + 1) * m.height,
{
    pictures::law_grid_keeps_the_shape(p.size_px, m.width, m.height);
}

} // verus!
