//! What the reported figures mean.

use vstd::prelude::*;
use crate::check;
use crate::decimate;
use crate::depth::BitDepth;
use crate::export::Format;
use crate::measure;
use crate::mesh;
use crate::mesh::Solid;
use crate::number;
use crate::number::{Double, Op, Real, HALF, ONE, ZERO};
use crate::params::Params;
use crate::rounding;
use crate::shading;
use crate::stats;
use crate::stats::Stats;
use crate::topology;
use crate::vector;
use crate::vector::Vector;

verus! {

// ---------------------------------------------------------------------------
// Exact vectors
// ---------------------------------------------------------------------------

/// A number is `n` steps of a power of two.
pub open spec fn steps(a: Real, n: int, k: int) -> bool {
    a.finite() && a.quanta() == n * rounding::two(k)
}

proof fn lemma_steps<F: Fn(Op, Real, Real) -> Real>(
    f: F,
    op: Op,
    a: Real,
    b: Real,
    m: int,
    n: int,
    k: int,
)
    requires
        rounding::rounds(f),
        op == Op::Plus || op == Op::Minus,
        -149 <= k <= 101,
        steps(a, m, k),
        steps(b, n, k),
        -0x80_0000 <= m <= 0x80_0000,
        -0x80_0000 <= n <= 0x80_0000,
    ensures
        steps(
            number::apply(f, op, a, b),
            if op == Op::Plus {
                m + n
            } else {
                m - n
            },
            k,
        ),
{
    let r = if op == Op::Plus {
        m + n
    } else {
        m - n
    };
    rounding::lemma_representable(r, (149 + k) as nat);
    let t = rounding::two(k);
    assert(m * t + n * t == (m + n) * t && m * t - n * t == (m - n) * t) by (nonlinear_arith);
    rounding::lemma_sum_exact(f, op, a, b);
}

proof fn lemma_area<F: Fn(Op, Real, Real) -> Real>(
    f: F,
    a: Real,
    b: Real,
    m: int,
    n: int,
    j: int,
    k: int,
)
    requires
        rounding::rounds(f),
        -149 <= j,
        -149 <= k,
        -149 <= j + k <= 101,
        steps(a, m, j),
        steps(b, n, k),
        -0x100_0000 <= m * n <= 0x100_0000,
    ensures
        steps(number::times(f, a, b), m * n, j + k),
{
    rounding::lemma_representable(m * n, (149 + j + k) as nat);
    rounding::lemma_two_product(j, k);
    let (s, t, p, u) = (rounding::two(j), rounding::two(k), rounding::two(j + k), rounding::unit());
    assert((m * s) * (n * t) == ((m * n) * p) * u) by (nonlinear_arith)
        requires
            s * t == p * u,
    ;
    rounding::lemma_product_exact(f, a, b, (m * n) * p);
}

/// A point on a grid of whole steps, at most 100 from the origin each way.
pub open spec fn placed_on(v: Vector, p: (int, int, int), k: int) -> bool {
    &&& steps(v.x, p.0, k) && steps(v.y, p.1, k) && steps(v.z, p.2, k)
    &&& -100 <= p.0 <= 100 && -100 <= p.1 <= 100 && -100 <= p.2 <= 100
}

/// The area vector of two edges.
pub open spec fn spanned(u: (int, int, int), v: (int, int, int)) -> (int, int, int) {
    (u.1 * v.2 - v.1 * u.2, u.2 * v.0 - v.2 * u.0, u.0 * v.1 - v.0 * u.1)
}

proof fn lemma_small(m: int, n: int, b: int, c: int)
    requires
        -b <= m <= b,
        -c <= n <= c,
        0 <= b,
        0 <= c,
    ensures
        -(b * c) <= m * n <= b * c,
{
    assert(-(b * c) <= m * n <= b * c) by (nonlinear_arith)
        requires
            -b <= m <= b,
            -c <= n <= c,
            0 <= b,
            0 <= c,
    ;
}

proof fn lemma_minor<F: Fn(Op, Real, Real) -> Real>(
    f: F,
    a: Real,
    b: Real,
    c: Real,
    d: Real,
    p: int,
    q: int,
    r: int,
    s: int,
    k: int,
)
    requires
        rounding::rounds(f),
        -20 <= k <= 20,
        steps(a, p, k) && steps(b, q, k) && steps(c, r, k) && steps(d, s, k),
        -200 <= p <= 200 && -200 <= q <= 200 && -200 <= r <= 200 && -200 <= s <= 200,
    ensures
        steps(
            number::minus(f, number::times(f, a, b), number::times(f, c, d)),
            p * q - r * s,
            2 * k,
        ),
        -80_000 <= p * q - r * s <= 80_000,
{
    lemma_small(p, q, 200, 200);
    lemma_small(r, s, 200, 200);
    lemma_area(f, a, b, p, q, k, k);
    lemma_area(f, c, d, r, s, k, k);
    lemma_steps(
        f,
        Op::Minus,
        number::times(f, a, b),
        number::times(f, c, d),
        p * q,
        r * s,
        2 * k,
    );
}

proof fn lemma_cross<F: Fn(Op, Real, Real) -> Real>(
    f: F,
    a: Vector,
    b: Vector,
    p: (int, int, int),
    q: (int, int, int),
    k: int,
)
    requires
        rounding::rounds(f),
        -20 <= k <= 20,
        steps(a.x, p.0, k) && steps(a.y, p.1, k) && steps(a.z, p.2, k),
        steps(b.x, q.0, k) && steps(b.y, q.1, k) && steps(b.z, q.2, k),
        -200 <= p.0 <= 200 && -200 <= p.1 <= 200 && -200 <= p.2 <= 200,
        -200 <= q.0 <= 200 && -200 <= q.1 <= 200 && -200 <= q.2 <= 200,
    ensures
        ({
            let c = vector::cross(f, a, b);
            let r = spanned(p, q);
            &&& steps(c.x, r.0, 2 * k) && steps(c.y, r.1, 2 * k) && steps(c.z, r.2, 2 * k)
            &&& -80_000 <= r.0 <= 80_000 && -80_000 <= r.1 <= 80_000 && -80_000 <= r.2 <= 80_000
        }),
{
    lemma_minor(f, a.y, b.z, b.y, a.z, p.1, q.2, q.1, p.2, k);
    lemma_minor(f, a.z, b.x, b.z, a.x, p.2, q.0, q.2, p.0, k);
    lemma_minor(f, a.x, b.y, b.x, a.y, p.0, q.1, q.0, p.1, k);
}

proof fn lemma_spanned(u: (int, int, int), v: (int, int, int))
    requires
        -100 <= u.0 <= 100 && -100 <= u.1 <= 100 && -100 <= u.2 <= 100,
        -100 <= v.0 <= 100 && -100 <= v.1 <= 100 && -100 <= v.2 <= 100,
    ensures
        ({
            let r = spanned(u, v);
            -20_000 <= r.0 <= 20_000 && -20_000 <= r.1 <= 20_000 && -20_000 <= r.2 <= 20_000
        }),
{
    lemma_small(u.1, v.2, 100, 100);
    lemma_small(v.1, u.2, 100, 100);
    lemma_small(u.2, v.0, 100, 100);
    lemma_small(v.2, u.0, 100, 100);
    lemma_small(u.0, v.1, 100, 100);
    lemma_small(v.0, u.1, 100, 100);
}

/// What a triangle adds to the volume is six times the signed volume between it
/// and the origin: above zero where its corners run counter-clockwise as seen
/// from outside, and exact on a grid.
pub proof fn law_wedge_is_a_volume<F: Fn(Op, Real, Real) -> Real>(
    f: F,
    a: Vector,
    b: Vector,
    c: Vector,
    p: (int, int, int),
    q: (int, int, int),
    r: (int, int, int),
    k: int,
)
    requires
        rounding::rounds(f),
        -20 <= k <= 20,
        placed_on(a, p, k),
        placed_on(b, q, k),
        placed_on(c, r, k),
    ensures
        steps(check::wedge(f, a, b, c), measure::volume(p, q, r), 3 * k),
{
    lemma_cross(f, b, c, q, r, k);
    lemma_spanned(q, r);
    let (d, s) = (vector::cross(f, b, c), spanned(q, r));
    lemma_small(p.0, s.0, 100, 20_000);
    lemma_small(p.1, s.1, 100, 20_000);
    lemma_small(p.2, s.2, 100, 20_000);
    lemma_area(f, a.x, d.x, p.0, s.0, k, 2 * k);
    lemma_area(f, a.y, d.y, p.1, s.1, k, 2 * k);
    lemma_area(f, a.z, d.z, p.2, s.2, k, 2 * k);
    let (x, y, z) = (
        number::times(f, a.x, d.x),
        number::times(f, a.y, d.y),
        number::times(f, a.z, d.z),
    );
    lemma_steps(f, Op::Plus, x, y, p.0 * s.0, p.1 * s.1, 3 * k);
    lemma_steps(f, Op::Plus, number::plus(f, x, y), z, p.0 * s.0 + p.1 * s.1, p.2 * s.2, 3 * k);
    assert(p.0 * s.0 + p.1 * s.1 + p.2 * s.2 == measure::volume(p, q, r)) by (nonlinear_arith)
        requires
            s == spanned(q, r),
    ;
}

// ---------------------------------------------------------------------------
// Facets
// ---------------------------------------------------------------------------

/// A triangle's normal points to the side from which its corners run
/// counter-clockwise: each of its parts has the sign of the area that the
/// triangle shows along that axis, and a larger area gives a larger part.
pub proof fn law_facet_normal_follows_the_corners<F: Fn(Op, Real, Real) -> Real>(
    f: F,
    a: Vector,
    b: Vector,
    c: Vector,
    p: (int, int, int),
    q: (int, int, int),
    r: (int, int, int),
    k: int,
)
    requires
        rounding::rounds(f),
        -14 <= k <= 14,
        placed_on(a, p, k),
        placed_on(b, q, k),
        placed_on(c, r, k),
    ensures
        ({
            let n = vector::normal_of(f, a, b, c);
            let s = spanned(measure::way(p, q), measure::way(p, r));
            s != (0int, 0int, 0int) ==> {
                &&& follows(n.x, s.0) && follows(n.y, s.1) && follows(n.z, s.2)
                &&& s.0 <= s.1 ==> n.x.at_most(n.y)
                &&& s.1 <= s.0 ==> n.y.at_most(n.x)
                &&& s.0 <= s.2 ==> n.x.at_most(n.z)
                &&& s.2 <= s.0 ==> n.z.at_most(n.x)
                &&& s.1 <= s.2 ==> n.y.at_most(n.z)
                &&& s.2 <= s.1 ==> n.z.at_most(n.y)
                &&& s.0 == -s.1 ==> n.x.equals(n.y.opposite())
                &&& s.0 == -s.2 ==> n.x.equals(n.z.opposite())
                &&& s.1 == -s.2 ==> n.y.equals(n.z.opposite())
            }
        }),
{
    let (e, g) = (measure::way(p, q), measure::way(p, r));
    lemma_steps(f, Op::Minus, b.x, a.x, q.0, p.0, k);
    lemma_steps(f, Op::Minus, b.y, a.y, q.1, p.1, k);
    lemma_steps(f, Op::Minus, b.z, a.z, q.2, p.2, k);
    lemma_steps(f, Op::Minus, c.x, a.x, r.0, p.0, k);
    lemma_steps(f, Op::Minus, c.y, a.y, r.1, p.1, k);
    lemma_steps(f, Op::Minus, c.z, a.z, r.2, p.2, k);
    let (u, w) = (vector::difference(f, b, a), vector::difference(f, c, a));
    lemma_cross(f, u, w, e, g, k);
    let v = vector::cross(f, u, w);
    let s = spanned(e, g);
    let t = rounding::two(2 * k);
    rounding::lemma_two(2 * k);
    rounding::lemma_constants();
    let zero = Real { bits: ZERO };
    if s != (0int, 0int, 0int) {
        // at most 17 bits, so between two(2k) and two(2k + 17)
        lemma_seventeen(2 * k);
        let m = rounding::two(2 * k + 17);
        lemma_within(s.0, t, m);
        lemma_within(s.1, t, m);
        lemma_within(s.2, t, m);
        assert(shading::sized(v, 2 * k, 2 * k + 17));
        shading::lemma_recip(f, v, 2 * k, 2 * k + 17);
        let l = vector::length_recip(f, v);
        rounding::lemma_two(-2 * k - 18);
        rounding::lemma_order(zero, l);
        rounding::lemma_two(-2 * k);
        lemma_follows(f, v.x, s.0, l, 2 * k);
        lemma_follows(f, v.y, s.1, l, 2 * k);
        lemma_follows(f, v.z, s.2, l, 2 * k);
        lemma_ordered(f, v.x, v.y, s.0, s.1, t, l);
        lemma_ordered(f, v.y, v.x, s.1, s.0, t, l);
        lemma_ordered(f, v.x, v.z, s.0, s.2, t, l);
        lemma_ordered(f, v.z, v.x, s.2, s.0, t, l);
        lemma_ordered(f, v.y, v.z, s.1, s.2, t, l);
        lemma_ordered(f, v.z, v.y, s.2, s.1, t, l);
    }
}

/// A number is above, below or at zero as an area is.
pub open spec fn follows(n: Real, area: int) -> bool {
    &&& n.finite()
    &&& area > 0 ==> n.quanta() > 0
    &&& area < 0 ==> n.quanta() < 0
    &&& area == 0 ==> n.quanta() == 0
}

proof fn lemma_seventeen(k: int)
    requires
        -149 <= k,
    ensures
        rounding::two(k + 17) == 0x2_0000 * rounding::two(k),
{
    vstd::arithmetic::power2::lemma_pow2_adds(17, (149 + k) as nat);
    vstd::arithmetic::power2::lemma2_to64();
}

proof fn lemma_within(n: int, t: int, m: int)
    requires
        -80_000 <= n <= 80_000,
        t > 0,
        m == 0x2_0000 * t,
    ensures
        -m <= n * t <= m,
        n > 0 ==> n * t >= t,
        n < 0 ==> n * t <= -t,
{
    assert(-m <= n * t <= m) by (nonlinear_arith)
        requires
            -80_000 <= n <= 80_000,
            t > 0,
            m == 0x2_0000 * t,
    ;
    assert(n > 0 ==> n * t >= t) by (nonlinear_arith)
        requires
            t > 0,
    ;
    assert(n < 0 ==> n * t <= -t) by (nonlinear_arith)
        requires
            t > 0,
    ;
}

proof fn lemma_follows<F: Fn(Op, Real, Real) -> Real>(f: F, x: Real, n: int, l: Real, k: int)
    requires
        rounding::rounds(f),
        -30 <= k <= 30,
        steps(x, n, k),
        -80_000 <= n <= 80_000,
        l.finite(),
        rounding::two(-k - 18) <= l.quanta() <= rounding::two(-k),
    ensures
        follows(number::times(f, x, l), n),
{
    rounding::lemma_constants();
    let u = rounding::unit();
    let (t, y) = (rounding::two(k), l.quanta());
    rounding::lemma_two(k);
    rounding::lemma_two(-k);
    rounding::lemma_two(-k - 18);
    rounding::lemma_two(-18);
    rounding::lemma_two(17);
    rounding::lemma_two_product(k, -k - 18);
    rounding::lemma_two_product(k, -k);
    rounding::lemma_two(0);
    lemma_seventeen(0);
    let (zero, small, big) = (
        Real { bits: ZERO },
        rounding::number_at(rounding::two(-18)),
        rounding::number_at(rounding::two(17)),
    );
    rounding::lemma_opposite(small);
    rounding::lemma_opposite(big);
    let (lo, hi) = (rounding::two(-k - 18), rounding::two(-k));
    let (g, h) = (rounding::two(-18), rounding::two(17));
    let r = number::times(f, x, l);
    let q = x.quanta();
    lemma_within(n, t, 0x2_0000 * t);
    assert(q * y <= h * u && (-h) * u <= q * y) by (nonlinear_arith)
        requires
            -(0x2_0000 * t) <= q <= 0x2_0000 * t,
            0 < y <= hi,
            t * hi == u * u,
            h == 0x2_0000 * u,
            t > 0,
            u > 0,
    {
        assert(t * y <= t * hi);
        assert(q * y <= (0x2_0000 * t) * y);
        assert((0x2_0000 * t) * y == 0x2_0000 * (t * y));
        assert(q * y >= -((0x2_0000 * t) * y));
        assert(h * u == 0x2_0000 * (u * u));
    }
    assert(n > 0 ==> g * u <= q * y) by (nonlinear_arith)
        requires
            n > 0 ==> q >= t,
            y >= lo,
            t * lo == g * u,
            t > 0,
            lo > 0,
    ;
    assert(n < 0 ==> q * y <= (-g) * u) by (nonlinear_arith)
        requires
            n < 0 ==> q <= -t,
            y >= lo,
            t * lo == g * u,
            t > 0,
            lo > 0,
    ;
    rounding::lemma_product_side(f, x, l, big);
    rounding::lemma_product_side(f, x, l, big.opposite());
    rounding::lemma_product_side(f, x, l, small);
    rounding::lemma_product_side(f, x, l, small.opposite());
    assert(r.finite());
    rounding::lemma_order(small, r);
    rounding::lemma_order(r, small.opposite());
    if n == 0 {
        assert(0 * t == 0) by (nonlinear_arith);
        rounding::lemma_nothing(f, x, l);
    }
}

proof fn lemma_ordered<F: Fn(Op, Real, Real) -> Real>(
    f: F,
    x: Real,
    y: Real,
    m: int,
    n: int,
    t: int,
    l: Real,
)
    requires
        rounding::rounds(f),
        x.finite(),
        y.finite(),
        l.finite(),
        l.quanta() >= 0,
        x.quanta() == m * t,
        y.quanta() == n * t,
        t > 0,
    ensures
        m <= n ==> number::times(f, x, l).at_most(number::times(f, y, l)),
        m == -n ==> number::times(f, x, l).equals(number::times(f, y, l).opposite()),
{
    if m <= n {
        assert(x.quanta() * l.quanta() <= y.quanta() * l.quanta()) by (nonlinear_arith)
            requires
                x.quanta() == m * t,
                y.quanta() == n * t,
                m <= n,
                t > 0,
                l.quanta() >= 0,
        ;
        rounding::lemma_products(f, x, l, y, l);
    }
    if m == -n {
        assert(m * t == -(n * t)) by (nonlinear_arith)
            requires
                m == -n,
        ;
        rounding::lemma_mirrored(f, x, y, l);
    }
}

/// So does the normal that an exported facet carries, of the corners that it is
/// exported with.
pub proof fn law_exported_normals_face_out<F: Fn(Op, Real, Real) -> Real>(
    f: F,
    s: Solid,
    t: [u32; 3],
    p: (int, int, int),
    q: (int, int, int),
    r: (int, int, int),
    k: int,
)
    requires
        rounding::rounds(f),
        -14 <= k <= 14,
        placed_on(s.facet_of(f, t).a, p, k),
        placed_on(s.facet_of(f, t).b, q, k),
        placed_on(s.facet_of(f, t).c, r, k),
    ensures
        ({
            let n = s.facet_of(f, t).normal;
            let a = spanned(measure::way(p, q), measure::way(p, r));
            &&& s.facet_of(f, t).a == s.written(f, t[0] as int)
            &&& s.facet_of(f, t).b == s.written(f, t[1] as int)
            &&& s.facet_of(f, t).c == s.written(f, t[2] as int)
            &&& a != (0int, 0int, 0int) ==> follows(n.x, a.0) && follows(n.y, a.1) && follows(
                n.z,
                a.2,
            )
        }),
{
    let g = s.facet_of(f, t);
    law_facet_normal_follows_the_corners(f, g.a, g.b, g.c, p, q, r, k);
}

// ---------------------------------------------------------------------------
// Bounds
// ---------------------------------------------------------------------------

/// The vertex that is corner `c` of triangle `i`.
pub open spec fn corner<F: Fn(Op, Real, Real) -> Real>(f: F, s: Solid, i: int, c: int) -> Vector {
    s.place(f, s.at(s.mesh()[i][c] as int))
}

/// The vertex has a place.
pub open spec fn somewhere(v: Vector) -> bool {
    v.x.finite() && v.y.finite() && v.z.finite()
}

/// One of the three coordinates.
pub open spec fn part(v: Vector, axis: int) -> Real {
    if axis == 0 {
        v.x
    } else if axis == 1 {
        v.y
    } else {
        v.z
    }
}

/// One of the first `n` triangles has a corner there.
pub open spec fn attained<F: Fn(Op, Real, Real) -> Real>(
    f: F,
    s: Solid,
    n: nat,
    axis: int,
    x: Real,
) -> bool {
    exists|i: int, c: int|
        0 <= i < n && 0 <= c < 3 && part(#[trigger] corner(f, s, i, c), axis) == x
}

proof fn lemma_axis<F: Fn(Op, Real, Real) -> Real, D: Fn(Double, Real) -> Double>(
    f: F,
    d: D,
    s: Solid,
    n: nat,
    axis: int,
)
    requires
        n <= s.mesh().len(),
        0 <= axis < 3,
        forall|i: int, c: int|
            0 <= i < s.mesh().len() && 0 <= c < 3 ==> somewhere(#[trigger] corner(f, s, i, c)),
    ensures
        ({
            let lo = part(check::swept(f, d, s, n).1, axis);
            let hi = part(check::swept(f, d, s, n).2, axis);
            &&& n == 0 ==> lo == (Real { bits: number::INFINITY }) && hi == (Real {
                bits: number::NEG_INFINITY,
            })
            &&& n > 0 ==> lo.finite() && hi.finite() && attained(f, s, n, axis, lo) && attained(
                f,
                s,
                n,
                axis,
                hi,
            )
            &&& forall|i: int, c: int|
                0 <= i < n && 0 <= c < 3 ==> lo.at_most(part(#[trigger] corner(f, s, i, c), axis))
                    && part(corner(f, s, i, c), axis).at_most(hi)
        }),
    decreases n,
{
    if n > 0 {
        lemma_axis(f, d, s, (n - 1) as nat, axis);
        let before = check::swept(f, d, s, (n - 1) as nat);
        let after = check::swept(f, d, s, n);
        let (va, vb, vc) = (
            corner(f, s, n - 1, 0),
            corner(f, s, n - 1, 1),
            corner(f, s, n - 1, 2),
        );
        assert(somewhere(va) && somewhere(vb) && somewhere(vc));
        let (a, b, c) = (part(va, axis), part(vb, axis), part(vc, axis));
        let (l, h) = (part(before.1, axis), part(before.2, axis));
        let (lo, hi) = (part(after.1, axis), part(after.2, axis));
        lemma_lower(before.1, va, axis);
        lemma_lower(check::lower(before.1, va), vb, axis);
        lemma_lower(check::lower(check::lower(before.1, va), vb), vc, axis);
        lemma_upper(before.2, va, axis);
        lemma_upper(check::upper(before.2, va), vb, axis);
        lemma_upper(check::upper(check::upper(before.2, va), vb), vc, axis);
        assert(after.1 == check::lower(check::lower(check::lower(before.1, va), vb), vc));
        assert(after.2 == check::upper(check::upper(check::upper(before.2, va), vb), vc));
        lemma_attained(f, s, n, axis, l, lo);
        lemma_attained(f, s, n, axis, h, hi);
        assert forall|i: int, e: int| 0 <= i < n && 0 <= e < 3 implies lo.at_most(
            part(#[trigger] corner(f, s, i, e), axis),
        ) && part(corner(f, s, i, e), axis).at_most(hi) by {
            if i < n - 1 {
                assert(l.at_most(part(corner(f, s, i, e), axis)));
            } else {
                assert(e == 0 || e == 1 || e == 2);
            }
        }
    }
}

proof fn lemma_lower(a: Vector, b: Vector, axis: int)
    requires
        0 <= axis < 3,
    ensures
        part(check::lower(a, b), axis) == (if part(a, axis).below(part(b, axis)) {
            part(a, axis)
        } else {
            part(b, axis)
        }),
{
}

proof fn lemma_upper(a: Vector, b: Vector, axis: int)
    requires
        0 <= axis < 3,
    ensures
        part(check::upper(a, b), axis) == (if part(b, axis).below(part(a, axis)) {
            part(a, axis)
        } else {
            part(b, axis)
        }),
{
}

/// An extreme is one of the four that it was picked from.
proof fn lemma_attained<F: Fn(Op, Real, Real) -> Real>(
    f: F,
    s: Solid,
    n: nat,
    axis: int,
    was: Real,
    now: Real,
)
    requires
        n >= 1,
        ({
            ||| now == was && attained(f, s, (n - 1) as nat, axis, was)
            ||| now == part(corner(f, s, n - 1, 0), axis)
            ||| now == part(corner(f, s, n - 1, 1), axis)
            ||| now == part(corner(f, s, n - 1, 2), axis)
        }),
    ensures
        attained(f, s, n, axis, now),
{
    if now == was && attained(f, s, (n - 1) as nat, axis, was) {
        let (i, c) = choose|i: int, c: int|
            0 <= i < n - 1 && 0 <= c < 3 && part(#[trigger] corner(f, s, i, c), axis) == was;
        assert(part(corner(f, s, i, c), axis) == now);
    }
}

/// The reported bounds are the tightest box around the solid: every vertex lies
/// in it, and each of its six sides touches one.
pub proof fn law_bounds_are_tight<F: Fn(Op, Real, Real) -> Real, D: Fn(Double, Real) -> Double>(
    f: F,
    d: D,
    s: Solid,
    v: int,
    axis: int,
)
    requires
        s.wf(),
        0 <= v < s.vertex_total(),
        0 <= axis < 3,
        forall|i: int, c: int|
            0 <= i < s.mesh().len() && 0 <= c < 3 ==> somewhere(#[trigger] corner(f, s, i, c)),
    ensures
        ({
            let r = check::summary_of(f, d, s);
            let x = part(s.place(f, s.at(v)), axis);
            let n = s.mesh().len();
            &&& part(r.min_mm, axis).at_most(x)
            &&& x.at_most(part(r.max_mm, axis))
            &&& attained(f, s, n, axis, part(r.min_mm, axis))
            &&& attained(f, s, n, axis, part(r.max_mm, axis))
        }),
{
    let t = s.mesh();
    mesh::law_every_vertex_is_used(s);
    lemma_axis(f, d, s, t.len(), axis);
    s.lemma_surface();
    let w = v as u32;
    assert(topology::occurs(t, w));
    let (i, c) = choose|i: int, c: int| topology::slot(t, i, c) && #[trigger] t[i][c] == w;
    assert(t[i][c] == w);
    assert(corner(f, s, i, c) == s.place(f, s.at(v)));
}

// ---------------------------------------------------------------------------
// Readouts
// ---------------------------------------------------------------------------

/// The step is the relief shared out among the source's levels: 255 of them for
/// an 8-bit source and 65535 for a 16-bit one. It is exact where it needs no
/// rounding, grows with the relief, and is finer for the finer source.
pub proof fn law_step_shares_out_the_relief<
    F: Fn(Op, Real, Real) -> Real,
    D: Fn(Double, Real) -> Double,
    N: Fn(Double) -> Real,
>(f: F, d: D, n: N, s: Solid, t: Solid, format: Format, p: Params)
    requires
        rounding::rounds(f),
        s.layout.emboss_mm.finite(),
        t.layout.emboss_mm.finite(),
        0 <= s.layout.emboss_mm.quanta() <= t.layout.emboss_mm.quanta(),
    ensures
        ({
            let (a, b) = (stats::stats_of(f, d, n, s, format, p), stats::stats_of(f, d, n, t, format, p));
            let levels: int = if s.field.bits == BitDepth::Eight {
                255
            } else {
                65535
            };
            &&& a.levels == levels + 1
            &&& a.relief_mm == s.layout.emboss_mm
            &&& s.field.bits == t.field.bits ==> a.step_mm.at_most(b.step_mm)
            &&& s.field.bits == BitDepth::Sixteen && t.field.bits == BitDepth::Eight
                ==> a.step_mm.at_most(b.step_mm)
            &&& forall|q: int| #[trigger]
                rounding::representable(q) && q * levels == a.relief_mm.quanta()
                    ==> a.step_mm.finite() && a.step_mm.quanta() == q
            &&& forall|c: Real|
                c.finite() && #[trigger] c.quanta() * levels <= a.relief_mm.quanta() ==> c.at_most(
                    a.step_mm,
                )
            &&& forall|c: Real|
                c.finite() && #[trigger] c.quanta() * levels >= a.relief_mm.quanta()
                    ==> a.step_mm.at_most(c)
        }),
{
    let a = stats::stats_of(f, d, n, s, format, p);
    let levels: int = if s.field.bits == BitDepth::Eight {
        255
    } else {
        65535
    };
    rounding::lemma_constants();
    let u = rounding::unit();
    rounding::lemma_whole(255);
    rounding::lemma_whole(65535);
    let e = s.layout.emboss_mm;
    let b = number::whole(levels as nat);
    assert(b.quanta() > 0) by (nonlinear_arith)
        requires
            b.quanta() == levels * u,
            levels >= 255,
            u > 0,
    ;
    if s.field.bits == t.field.bits {
        rounding::lemma_quotients(f, e, t.layout.emboss_mm, b);
    } else if s.field.bits == BitDepth::Sixteen {
        let (x, y) = (e.quanta(), t.layout.emboss_mm.quanta());
        assert((x * u) * (255 * u) <= (y * u) * (65535 * u)) by (nonlinear_arith)
            requires
                0 <= x <= y,
                u > 0,
        ;
        rounding::lemma_monotone(
            f,
            Op::Over,
            e,
            number::whole(65535),
            Op::Over,
            t.layout.emboss_mm,
            number::whole(255),
        );
    }
    assert forall|q: int| #[trigger]
        rounding::representable(q) && q * levels == e.quanta() implies a.step_mm.finite()
        && a.step_mm.quanta() == q by {
        assert(e.quanta() * u == q * b.quanta()) by (nonlinear_arith)
            requires
                q * levels == e.quanta(),
                b.quanta() == levels * u,
        ;
        rounding::lemma_quotient_exact(f, e, b, q);
    }
    assert forall|c: Real|
        c.finite() && #[trigger] c.quanta() * levels <= e.quanta() implies c.at_most(a.step_mm) by {
        assert(c.quanta() * b.quanta() <= e.quanta() * u) by (nonlinear_arith)
            requires
                c.quanta() * levels <= e.quanta(),
                b.quanta() == levels * u,
                u > 0,
        ;
        rounding::lemma_quotient_side(f, e, b, c);
    }
    assert forall|c: Real|
        c.finite() && #[trigger] c.quanta() * levels >= e.quanta() implies a.step_mm.at_most(c) by {
        assert(e.quanta() * u <= c.quanta() * b.quanta()) by (nonlinear_arith)
            requires
                c.quanta() * levels >= e.quanta(),
                b.quanta() == levels * u,
                u > 0,
        ;
        rounding::lemma_quotient_side(f, e, b, c);
    }
}

/// The filament weighs 1.24 grams for every cubic centimetre of the volume.
pub proof fn law_filament_is_pla<
    F: Fn(Op, Real, Real) -> Real,
    D: Fn(Double, Real) -> Double,
    N: Fn(Double) -> Real,
>(f: F, d: D, n: N, s: Solid, format: Format, p: Params)
    requires
        rounding::rounds(f),
        stats::narrowed(n, check::summary_of(f, d, s).volume_mm3).finite(),
    ensures
        ({
            let a = stats::stats_of(f, d, n, s, format, p);
            let v = stats::narrowed(n, a.volume_mm3);
            exists|g: int|
                {
                    &&& 0 <= 0x400_0000 * (100_000 * g - 124 * rounding::unit()) <= 124
                        * rounding::unit()
                    &&& #[trigger] weighs(v, g, a.filament_g)
                }
        }),
{
    let a = stats::stats_of(f, d, n, s, format, p);
    let v = stats::narrowed(n, a.volume_mm3);
    let c = Real { bits: stats::PLA_G_PER_MM3 };
    let g = c.quanta();
    let t = vstd::arithmetic::power2::pow2(116) as int;
    vstd::arithmetic::power2::lemma_pow2_adds(33, 116);
    vstd::arithmetic::power2::lemma_pow2_adds(32, 1);
    vstd::arithmetic::power2::lemma2_to64();
    vstd::arithmetic::power2::lemma_pow2_pos(116);
    assert(c.exponent() == 117 && c.significand() == 0xa2_877f);
    assert(c.finite() && g == 0xa2_877f * t);
    assert(rounding::unit() == 0x2_0000_0000 * t);
    assert forall|x: Real|
        x.finite() && #[trigger] x.quanta() * rounding::unit() <= v.quanta() * g implies x.at_most(
        a.filament_g,
    ) by {
        rounding::lemma_product_side(f, v, c, x);
    }
    assert forall|x: Real|
        x.finite() && #[trigger] x.quanta() * rounding::unit() >= v.quanta() * g implies a.filament_g.at_most(
        x,
    ) by {
        rounding::lemma_product_side(f, v, c, x);
    }
    assert(weighs(v, g, a.filament_g));
}

/// A weight is a volume times a density, on the same side of every number.
pub open spec fn weighs(volume: Real, density: int, weight: Real) -> bool {
    &&& forall|x: Real|
        x.finite() && #[trigger] x.quanta() * rounding::unit() <= volume.quanta() * density
            ==> x.at_most(weight)
    &&& forall|x: Real|
        x.finite() && #[trigger] x.quanta() * rounding::unit() >= volume.quanta() * density
            ==> weight.at_most(x)
}

/// The reduction is the share of the triangles that is gone: none where none
/// are, and more where fewer are left.
pub proof fn law_reduction_is_a_share<F: Fn(Op, Real, Real) -> Real>(f: F, a: Stats, b: Stats)
    requires
        rounding::rounds(f),
        0 < a.full_triangles <= 0x100_0000,
        a.triangles <= a.full_triangles,
        b.full_triangles == a.full_triangles,
        a.triangles <= b.triangles <= b.full_triangles,
    ensures
        ({
            let (x, y, u) = (a.removed(f), b.removed(f), rounding::unit());
            let (left, full) = (a.triangles as int, a.full_triangles as int);
            &&& x.finite() && 0 <= x.quanta() <= u
            &&& y.at_most(x)
            &&& left == full ==> x.quanta() == 0
            &&& left == 0 ==> x.quanta() == u
            &&& forall|q: int| #[trigger]
                rounding::representable(q) && rounding::representable(u - q) && q * full == (full
                    - left) * u ==> x.quanta() == q
        }),
{
    let (full, left) = (a.full_triangles as nat, a.triangles as nat);
    let more = b.triangles as nat;
    let u = rounding::unit();
    rounding::lemma_constants();
    let (zero, one) = (Real { bits: ZERO }, Real { bits: ONE });
    shading::lemma_share(f, full, left);
    shading::lemma_share(f, full, more);
    shading::lemma_shares(f, full, left, more);
    let (s, t) = (shading::share(f, full, left), shading::share(f, full, more));
    rounding::lemma_sums(f, Op::Minus, one, t, Op::Minus, one, s);
    rounding::lemma_sum_side(f, Op::Minus, one, s, zero);
    rounding::lemma_sum_side(f, Op::Minus, one, s, one);
    let x = a.removed(f);
    assert(x.finite());
    rounding::lemma_order(zero, x);
    rounding::lemma_order(x, one);
    assert(zero.quanta() == 0 && one.quanta() == u);
    if left == full || left == 0 {
        rounding::lemma_sum_exact(f, Op::Minus, one, s);
    }
    assert forall|q: int| #[trigger]
        rounding::representable(q) && rounding::representable(u - q) && q * full == (full - left)
            * u implies x.quanta() == q by {
        assert((u - q) * full == left * u) by (nonlinear_arith)
            requires
                q * full == (full - left) * u,
        ;
        rounding::lemma_sum_exact(f, Op::Minus, one, s);
    }
}

/// A tolerance worth asking for is half a layer or one step of the source,
/// whichever is more.
pub proof fn law_tolerance_floor<F: Fn(Op, Real, Real) -> Real>(f: F, step: Real, layer: Real)
    requires
        rounding::rounds(f),
        step.finite(),
        layer.finite(),
        layer.quanta() % 2 == 0,
        rounding::representable(layer.quanta() / 2),
    ensures
        ({
            let r = decimate::tolerance_floor(f, step, layer);
            &&& r.finite()
            &&& r.quanta() >= step.quanta()
            &&& 2 * r.quanta() >= layer.quanta()
            &&& r.quanta() == step.quanta() || 2 * r.quanta() == layer.quanta()
        }),
{
    rounding::lemma_constants();
    let half = Real { bits: HALF };
    let (q, u) = (layer.quanta() / 2, rounding::unit());
    assert(layer.quanta() == 2 * q);
    assert(layer.quanta() * half.quanta() == q * u) by (nonlinear_arith)
        requires
            layer.quanta() == 2 * q,
            2 * half.quanta() == u,
    ;
    rounding::lemma_product_exact(f, layer, half, q);
    rounding::lemma_order(number::times(f, layer, half), step);
}

} // verus!
