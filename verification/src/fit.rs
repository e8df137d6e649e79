//! How far a triangle, or a quad, strays from the samples under it.
//!
//! Error is vertical deviation: the distance, at a sample, between the height
//! that was measured there and the height of the triangle that is put there
//! instead.

use vstd::prelude::*;
use crate::depth;
use crate::depth::HeightField;
use crate::grid;
use crate::number;
use crate::number::{Op, Real, ZERO};
use crate::square::{Point, Square};
use crate::triangle;

verus! {

/// The height of the triangle over a point of it: that of its first corner, and
/// the share of the climbs to the other two.
pub open spec fn level<F: Fn(Op, Real, Real) -> Real>(
    arith: F,
    field: HeightField,
    f: [Point; 3],
    p: Point,
) -> Real {
    let whole = number::whole(triangle::area(f[0], f[1], f[2]) as nat);
    let s = number::over(arith, number::whole(triangle::area(f[0], p, f[2]) as nat), whole);
    let t = number::over(arith, number::whole(triangle::area(f[0], f[1], p) as nat), whole);
    let (a, b, c) = (
        field.height(f[0].0, f[0].1),
        field.height(f[1].0, f[1].1),
        field.height(f[2].0, f[2].1),
    );
    number::plus(
        arith,
        number::plus(arith, a, number::times(arith, number::minus(arith, b, a), s)),
        number::times(arith, number::minus(arith, c, a), t),
    )
}

/// How far the triangle lies from the sample at a point of it. At its corners
/// it is the samples.
pub open spec fn gap<F: Fn(Op, Real, Real) -> Real>(
    arith: F,
    field: HeightField,
    f: [Point; 3],
    p: Point,
) -> Real {
    if p == f[0] || p == f[1] || p == f[2] {
        Real { bits: ZERO }
    } else {
        number::minus(arith, field.height(p.0, p.1), level(arith, field, f, p)).unsigned()
    }
}

/// More than a tolerance allows, or not a number.
pub open spec fn unfit(gap: Real, tolerance: Real) -> bool {
    gap.nan() || tolerance.below(gap)
}

/// The triangle lies too far from one of its samples.
pub open spec fn too_far<F: Fn(Op, Real, Real) -> Real>(
    arith: F,
    field: HeightField,
    f: [Point; 3],
    tolerance: Real,
) -> bool {
    exists|p: Point| triangle::on(f, p) && unfit(#[trigger] gap(arith, field, f, p), tolerance)
}

/// Nothing exceeds a value that is not a number.
pub open spec fn covers(worst: Real, gap: Real) -> bool {
    worst.nan() || gap.at_most(worst)
}

/// No gap on the triangle exceeds this.
pub open spec fn covered<F: Fn(Op, Real, Real) -> Real>(
    arith: F,
    field: HeightField,
    f: [Point; 3],
    worst: Real,
) -> bool {
    forall|p: Point| triangle::on(f, p) ==> covers(worst, #[trigger] gap(arith, field, f, p))
}

/// One of the gaps on the triangle is this.
pub open spec fn reached<F: Fn(Op, Real, Real) -> Real>(
    arith: F,
    field: HeightField,
    f: [Point; 3],
    worst: Real,
) -> bool {
    exists|p: Point| triangle::on(f, p) && #[trigger] gap(arith, field, f, p) == worst
}

/// The largest gap on a triangle, or one that is not a number.
pub open spec fn worst_on<F: Fn(Op, Real, Real) -> Real>(
    arith: F,
    field: HeightField,
    f: [Point; 3],
    worst: Real,
) -> bool {
    covered(arith, field, f, worst) && reached(arith, field, f, worst)
}

/// The larger; one that is not a number stays.
pub open spec fn worse(a: Real, b: Real) -> Real {
    if a.nan() {
        a
    } else if b.nan() {
        b
    } else {
        a.larger(b)
    }
}

pub(crate) fn worse_of(a: Real, b: Real) -> (r: Real)
    ensures
        r == worse(a, b),
{
    if a.is_nan() {
        a
    } else if b.is_nan() {
        b
    } else {
        a.max(b)
    }
}

/// The worst gap decides.
pub proof fn lemma_worst_decides<F: Fn(Op, Real, Real) -> Real>(
    arith: F,
    field: HeightField,
    f: [Point; 3],
    worst: Real,
    tolerance: Real,
)
    requires
        worst_on(arith, field, f, worst),
    ensures
        too_far(arith, field, f, tolerance) == unfit(worst, tolerance),
{
    if unfit(worst, tolerance) {
        let p = choose|p: Point|
            triangle::on(f, p) && #[trigger] gap(arith, field, f, p) == worst;
        assert(unfit(gap(arith, field, f, p), tolerance));
    }
    if too_far(arith, field, f, tolerance) {
        let p = choose|p: Point|
            triangle::on(f, p) && unfit(#[trigger] gap(arith, field, f, p), tolerance);
        assert(covers(worst, gap(arith, field, f, p)));
    }
}

/// Points on a square whose sides have at most this many cells can be reckoned
/// with in machine words.
pub const MAX_SPAN: usize = 0xffff;

/// A corner in machine words.
pub open spec fn point(p: (usize, usize)) -> Point {
    (p.0 as int, p.1 as int)
}

pub open spec fn close(a: (usize, usize), b: (usize, usize)) -> bool {
    &&& -MAX_SPAN <= b.0 - a.0 <= MAX_SPAN
    &&& -MAX_SPAN <= b.1 - a.1 <= MAX_SPAN
}

/// A signed distance.
fn offset(a: usize, b: usize) -> (r: i64)
    requires
        -MAX_SPAN <= b - a <= MAX_SPAN,
    ensures
        r == b - a,
{
    if b >= a {
        (b - a) as i64
    } else {
        -((a - b) as i64)
    }
}

fn area_of(a: (usize, usize), b: (usize, usize), c: (usize, usize)) -> (r: i64)
    requires
        close(a, b),
        close(a, c),
    ensures
        r == triangle::area(point(a), point(b), point(c)),
{
    let (bx, by): (i64, i64) = (offset(a.0, b.0), offset(a.1, b.1));
    let (cx, cy): (i64, i64) = (offset(a.0, c.0), offset(a.1, c.1));
    assert(-0x1_0000_0000 <= cx * by <= 0x1_0000_0000) by (nonlinear_arith)
        requires
            -0xffff <= cx <= 0xffff,
            -0xffff <= by <= 0xffff,
    ;
    assert(-0x1_0000_0000 <= cy * bx <= 0x1_0000_0000) by (nonlinear_arith)
        requires
            -0xffff <= cy <= 0xffff,
            -0xffff <= bx <= 0xffff,
    ;
    cx * by - cy * bx
}

/// Three corners in machine words.
pub open spec fn face(a: (usize, usize), b: (usize, usize), c: (usize, usize)) -> [Point; 3] {
    [point(a), point(b), point(c)]
}

/// A triangle within reach, inside the field.
pub open spec fn measurable(
    field: HeightField,
    a: (usize, usize),
    b: (usize, usize),
    c: (usize, usize),
) -> bool {
    &&& field.wf()
    &&& close(a, b)
    &&& close(a, c)
    &&& close(b, c)
    &&& a.0 < field.w && b.0 < field.w && c.0 < field.w
    &&& a.1 < field.h && b.1 < field.h && c.1 < field.h
    &&& triangle::area(point(a), point(b), point(c)) > 0
}

fn least(a: usize, b: usize, c: usize) -> (r: usize)
    ensures
        r <= a && r <= b && r <= c,
        r == a || r == b || r == c,
{
    let m: usize = if a <= b {
        a
    } else {
        b
    };
    if m <= c {
        m
    } else {
        c
    }
}

fn most(a: usize, b: usize, c: usize) -> (r: usize)
    ensures
        r >= a && r >= b && r >= c,
        r == a || r == b || r == c,
{
    let m: usize = if a >= b {
        a
    } else {
        b
    };
    if m >= c {
        m
    } else {
        c
    }
}

/// The gap at a point of the triangle, or nothing off it.
fn gap_at<F: Fn(Op, Real, Real) -> Real>(
    field: &HeightField,
    a: (usize, usize),
    b: (usize, usize),
    c: (usize, usize),
    area: Real,
    p: (usize, usize),
    arith: &F,
) -> (r: Option<Real>)
    requires
        number::steady(*arith),
        measurable(*field, a, b, c),
        area == number::whole(triangle::area(point(a), point(b), point(c)) as nat),
        close(p, b),
        close(p, c),
        close(a, p),
        p.0 < field.w,
        p.1 < field.h,
    ensures
        match r {
            None => !triangle::on(face(a, b, c), point(p)),
            Some(g) => triangle::on(face(a, b, c), point(p)) && g == gap(
                *arith,
                *field,
                face(a, b, c),
                point(p),
            ),
        },
{
    let ghost f = face(a, b, c);
    let n: i64 = area_of(p, b, c);
    let s: i64 = area_of(a, p, c);
    let t: i64 = area_of(a, b, p);
    assert(f[0] == point(a) && f[1] == point(b) && f[2] == point(c));
    if n < 0 || s < 0 || t < 0 {
        return None;
    }
    if (p.0 == a.0 && p.1 == a.1) || (p.0 == b.0 && p.1 == b.1) || (p.0 == c.0 && p.1 == c.1) {
        return Some(Real { bits: ZERO });
    }
    let u = number::ask(arith, Op::Over, Real::from_int(s as u64), area);
    let v = number::ask(arith, Op::Over, Real::from_int(t as u64), area);
    let (za, zb, zc) = (field.at(a.0, a.1), field.at(b.0, b.1), field.at(c.0, c.1));
    let first = number::ask(arith, Op::Times, number::ask(arith, Op::Minus, zb, za), u);
    let second = number::ask(arith, Op::Times, number::ask(arith, Op::Minus, zc, za), v);
    let flat = number::ask(arith, Op::Plus, number::ask(arith, Op::Plus, za, first), second);
    Some(number::ask(arith, Op::Minus, field.at(p.0, p.1), flat).abs())
}

/// The gaps at the points before one of a box, row by row.
spec fn swept<F: Fn(Op, Real, Real) -> Real>(
    arith: F,
    field: HeightField,
    f: [Point; 3],
    left: int,
    right: int,
    top: int,
    x: int,
    y: int,
    worst: Real,
) -> bool {
    forall|p: Point|
        triangle::on(f, p) && left <= p.0 <= right && top <= p.1 && (p.1 < y || p.1 == y && p.0 < x)
            ==> covers(worst, #[trigger] gap(arith, field, f, p))
}

/// The largest gap on a triangle.
fn deviation<F: Fn(Op, Real, Real) -> Real>(
    field: &HeightField,
    a: (usize, usize),
    b: (usize, usize),
    c: (usize, usize),
    arith: &F,
) -> (r: Real)
    requires
        number::steady(*arith),
        measurable(*field, a, b, c),
    ensures
        worst_on(*arith, *field, face(a, b, c), r),
{
    let ghost f = face(a, b, c);
    let (left, right): (usize, usize) = (least(a.0, b.0, c.0), most(a.0, b.0, c.0));
    let (top, bottom): (usize, usize) = (least(a.1, b.1, c.1), most(a.1, b.1, c.1));
    let area = Real::from_int(area_of(a, b, c) as u64);
    let mut worst = Real { bits: ZERO };
    assert(triangle::on(f, f[0]) && gap(*arith, *field, f, f[0]) == worst) by {
        assert(f[0] == point(a) && f[1] == point(b) && f[2] == point(c));
        triangle::lemma_corners(f);
    }
    let mut y: usize = top;
    while y <= bottom
        invariant
            number::steady(*arith),
            measurable(*field, a, b, c),
            f == face(a, b, c),
            area == number::whole(triangle::area(point(a), point(b), point(c)) as nat),
            left <= a.0 <= right && left <= b.0 <= right && left <= c.0 <= right,
            top <= a.1 <= bottom && top <= b.1 <= bottom && top <= c.1 <= bottom,
            right - left <= MAX_SPAN,
            bottom - top <= MAX_SPAN,
            right < field.w,
            bottom < field.h,
            top <= y <= bottom + 1,
            swept(
                *arith,
                *field,
                f,
                left as int,
                right as int,
                top as int,
                left as int,
                y as int,
                worst,
            ),
            exists|p: Point| triangle::on(f, p) && #[trigger] gap(*arith, *field, f, p) == worst,
        decreases bottom + 1 - y,
    {
        let mut x: usize = left;
        while x <= right
            invariant
                number::steady(*arith),
                measurable(*field, a, b, c),
                f == face(a, b, c),
                area == number::whole(triangle::area(point(a), point(b), point(c)) as nat),
                left <= a.0 <= right && left <= b.0 <= right && left <= c.0 <= right,
                top <= a.1 <= bottom && top <= b.1 <= bottom && top <= c.1 <= bottom,
                right - left <= MAX_SPAN,
                bottom - top <= MAX_SPAN,
                right < field.w,
                bottom < field.h,
                top <= y <= bottom,
                left <= x <= right + 1,
                swept(
                    *arith,
                    *field,
                    f,
                    left as int,
                    right as int,
                    top as int,
                    x as int,
                    y as int,
                    worst,
                ),
                exists|p: Point|
                    triangle::on(f, p) && #[trigger] gap(*arith, *field, f, p) == worst,
            decreases right + 1 - x,
        {
            let ghost was = worst;
            if let Some(g) = gap_at(field, a, b, c, area, (x, y), arith) {
                worst = worse_of(worst, g);
                assert(gap(*arith, *field, f, (x as int, y as int)) == g);
            }
            x = x + 1;
            assert(swept(
                *arith,
                *field,
                f,
                left as int,
                right as int,
                top as int,
                x as int,
                y as int,
                worst,
            )) by {
                assert forall|p: Point|
                    triangle::on(f, p) && left <= p.0 <= right && top <= p.1 && (p.1 < y || p.1 == y
                        && p.0 < x) implies covers(
                    worst,
                    #[trigger] gap(*arith, *field, f, p),
                ) by {
                    if p.1 == y && p.0 == x - 1 {
                        assert(p == (x - 1, y as int));
                    } else {
                        assert(covers(was, gap(*arith, *field, f, p)));
                    }
                }
            }
        }
        y = y + 1;
    }
    assert forall|p: Point| triangle::on(f, p) implies covers(
        worst,
        #[trigger] gap(*arith, *field, f, p),
    ) by {
        assert(f[0] == point(a) && f[1] == point(b) && f[2] == point(c));
        triangle::lemma_box(f, p);
    }
    worst
}

/// Wedge `n` of a square counts: each of them, or those that it shows.
pub open spec fn counts(q: Square, all: bool, n: int) -> bool {
    0 <= n < 12 && (all || q.shows(n / 3, n % 3))
}

/// The largest gap on the wedges of a square that count, or one that is not a
/// number.
pub open spec fn worst_of<F: Fn(Op, Real, Real) -> Real>(
    arith: F,
    field: HeightField,
    q: Square,
    all: bool,
    worst: Real,
) -> bool {
    &&& forall|n: int| #[trigger]
        counts(q, all, n) ==> covered(arith, field, q.wedge(n / 3, n % 3), worst)
    &&& exists|n: int| #[trigger]
        counts(q, all, n) && reached(arith, field, q.wedge(n / 3, n % 3), worst)
}

fn corner_at(x0: usize, y0: usize, span: usize, d: usize) -> (r: (usize, usize))
    requires
        x0 + span <= usize::MAX,
        y0 + span <= usize::MAX,
        d <= 4,
    ensures
        forall|q: Square|
            q.x == x0 && q.y == y0 && q.span == span ==> point(r) == #[trigger] q.corner(d as int),
{
    if d == 1 {
        (x0, y0 + span)
    } else if d == 2 {
        (x0 + span, y0 + span)
    } else if d == 3 {
        (x0 + span, y0)
    } else {
        (x0, y0)
    }
}

fn mid_at(x0: usize, y0: usize, span: usize, d: usize) -> (r: (usize, usize))
    requires
        x0 + span <= usize::MAX,
        y0 + span <= usize::MAX,
        d < 4,
    ensures
        forall|q: Square|
            q.x == x0 && q.y == y0 && q.span == span ==> point(r) == #[trigger] q.mid(d as int),
{
    let half: usize = span / 2;
    if d == 0 {
        (x0, y0 + half)
    } else if d == 1 {
        (x0 + half, y0 + span)
    } else if d == 2 {
        (x0 + span, y0 + half)
    } else {
        (x0 + half, y0)
    }
}

/// The largest gap on one wedge.
fn wedge_error<F: Fn(Op, Real, Real) -> Real>(
    field: &HeightField,
    x0: usize,
    y0: usize,
    span: usize,
    d: usize,
    r: usize,
    Ghost(q): Ghost<Square>,
    arith: &F,
) -> (e: Real)
    requires
        number::steady(*arith),
        field.wf(),
        q.wf(),
        q.x == x0 && q.y == y0 && q.span == span,
        2 <= span <= MAX_SPAN,
        x0 + span < field.w,
        y0 + span < field.h,
        d < 4,
        r < 3,
    ensures
        worst_on(*arith, *field, q.wedge(d as int, r as int), e),
{
    let half: usize = span / 2;
    let centre: (usize, usize) = (x0 + half, y0 + half);
    let from: (usize, usize) = if r == 2 {
        mid_at(x0, y0, span, d)
    } else {
        corner_at(x0, y0, span, d)
    };
    let to: (usize, usize) = if r == 1 {
        mid_at(x0, y0, span, d)
    } else {
        corner_at(x0, y0, span, d + 1)
    };
    proof {
        q.lemma_wedge(d as int, r as int);
        assert(point(centre) == q.centre());
        assert(face(centre, from, to) =~= q.wedge(d as int, r as int));
    }
    deviation(field, centre, from, to, arith)
}

/// The largest gap on the wedges of a square that count.
pub(crate) fn fan_error<F: Fn(Op, Real, Real) -> Real>(
    field: &HeightField,
    x0: usize,
    y0: usize,
    span: usize,
    stitches: [bool; 4],
    all: bool,
    Ghost(q): Ghost<Square>,
    arith: &F,
) -> (r: Real)
    requires
        number::steady(*arith),
        field.wf(),
        q.wf(),
        q.x == x0 && q.y == y0 && q.span == span,
        2 <= span <= MAX_SPAN,
        x0 + span < field.w,
        y0 + span < field.h,
        !all ==> q.left == stitches[0] && q.bottom == stitches[1] && q.right == stitches[2]
            && q.top == stitches[3],
    ensures
        worst_of(*arith, *field, q, all, r),
{
    let mut worst: Option<Real> = None;
    let mut n: usize = 0;
    while n < 12
        invariant
            number::steady(*arith),
            field.wf(),
            q.wf(),
            q.x == x0 && q.y == y0 && q.span == span,
            2 <= span <= MAX_SPAN,
            x0 + span < field.w,
            y0 + span < field.h,
            !all ==> q.left == stitches[0] && q.bottom == stitches[1] && q.right == stitches[2]
                && q.top == stitches[3],
            n <= 12,
            worst is None ==> forall|m: int| 0 <= m < n ==> !#[trigger] counts(q, all, m),
            worst matches Some(w) ==> {
                &&& forall|m: int| #[trigger]
                    counts(q, all, m) && m < n ==> covered(
                        *arith,
                        *field,
                        q.wedge(m / 3, m % 3),
                        w,
                    )
                &&& exists|m: int| #[trigger]
                    counts(q, all, m) && reached(*arith, *field, q.wedge(m / 3, m % 3), w)
            },
        decreases 12 - n,
    {
        let d: usize = n / 3;
        let r: usize = n % 3;
        let shown: bool = all || (stitches[d] == (r > 0));
        assert(shown == counts(q, all, n as int)) by {
            assert(d == 0 || d == 1 || d == 2 || d == 3);
        }
        if shown {
            let e = wedge_error(field, x0, y0, span, d, r, Ghost(q), arith);
            let ghost f = q.wedge(n as int / 3, n as int % 3);
            assert(f == q.wedge(d as int, r as int));
            assert(covered(*arith, *field, f, e) && reached(*arith, *field, f, e));
            let ghost was = worst;
            let w = match worst {
                None => e,
                Some(w) => worse_of(w, e),
            };
            worst = Some(w);
            proof {
                assert forall|m: int| #[trigger] counts(q, all, m) && m < n + 1 implies covered(
                    *arith,
                    *field,
                    q.wedge(m / 3, m % 3),
                    w,
                ) by {
                    let g = q.wedge(m / 3, m % 3);
                    assert forall|p: Point| triangle::on(g, p) implies covers(
                        w,
                        #[trigger] gap(*arith, *field, g, p),
                    ) by {
                        if m < n {
                            assert(was is Some);
                            assert(covered(*arith, *field, g, was->0));
                            assert(covers(was->0, gap(*arith, *field, g, p)));
                        } else {
                            assert(covers(e, gap(*arith, *field, g, p)));
                        }
                    }
                }
                assert(w == e || was == Some(w));
            }
        }
        n = n + 1;
    }
    match worst {
        Some(w) => w,
        None => {
            assert(counts(q, all, 0) || counts(q, all, 1));
            Real { bits: ZERO }
        },
    }
}

// ---------------------------------------------------------------------------
// The quad through the corners
// ---------------------------------------------------------------------------

/// How far a sample lies from the bilinear surface through the corners.
pub open spec fn bend<F: Fn(Op, Real, Real) -> Real>(
    arith: F,
    field: HeightField,
    x0: int,
    y0: int,
    span: int,
    i: int,
    j: int,
) -> Real {
    let u = number::over(arith, number::whole(i as nat), number::whole(span as nat));
    let v = number::over(arith, number::whole(j as nat), number::whole(span as nat));
    let top = depth::mix(arith, field.height(x0, y0), field.height(x0 + span, y0), u);
    let bottom = depth::mix(
        arith,
        field.height(x0, y0 + span),
        field.height(x0 + span, y0 + span),
        u,
    );
    number::minus(
        arith,
        field.height(x0 + i, y0 + j),
        depth::mix(arith, top, bottom, v),
    ).unsigned()
}

/// The worst of the first `n` samples of a block, row by row.
pub open spec fn most_bent<F: Fn(Op, Real, Real) -> Real>(
    arith: F,
    field: HeightField,
    x0: int,
    y0: int,
    span: int,
    n: nat,
) -> Real
    decreases n,
{
    if n == 0 {
        Real { bits: ZERO }
    } else {
        most_bent(arith, field, x0, y0, span, (n - 1) as nat).larger(
            bend(arith, field, x0, y0, span, (n - 1) % (span + 1), (n - 1) / (span + 1)),
        )
    }
}

/// Largest vertical deviation of a block's samples from the quad through its
/// corners. A single cell has none.
pub open spec fn quad_error<F: Fn(Op, Real, Real) -> Real>(
    arith: F,
    field: HeightField,
    x0: int,
    y0: int,
    span: int,
) -> Real {
    if span == 1 {
        Real { bits: ZERO }
    } else {
        most_bent(arith, field, x0, y0, span, ((span + 1) * (span + 1)) as nat)
    }
}

pub(crate) fn quad_deviation<F: Fn(Op, Real, Real) -> Real>(
    field: &HeightField,
    x0: usize,
    y0: usize,
    span: usize,
    arith: &F,
) -> (r: Real)
    requires
        number::steady(*arith),
        field.wf(),
        span >= 1,
        x0 + span < field.w,
        y0 + span < field.h,
    ensures
        r == quad_error(*arith, *field, x0 as int, y0 as int, span as int),
{
    if span == 1 {
        return Real { bits: ZERO };
    }
    let c0 = field.at(x0, y0);
    let c1 = field.at(x0 + span, y0);
    let c2 = field.at(x0, y0 + span);
    let c3 = field.at(x0 + span, y0 + span);
    let whole = Real::from_int(span as u64);
    let side: usize = span + 1;
    proof {
        assert(field.z.len() == field.z@.len());
        assert(side * side <= field.w * field.h) by (nonlinear_arith)
            requires
                side <= field.w,
                side <= field.h,
                side >= 0,
        ;
    }
    let total: usize = side * side;
    let mut low = Real { bits: ZERO };
    let mut n: usize = 0;
    while n < total
        invariant
            number::steady(*arith),
            field.wf(),
            x0 + span < field.w,
            y0 + span < field.h,
            side == span + 1,
            total == side * side,
            n <= total,
            c0 == field.height(x0 as int, y0 as int),
            c1 == field.height(x0 + span, y0 as int),
            c2 == field.height(x0 as int, y0 + span),
            c3 == field.height(x0 + span, y0 + span),
            whole == number::whole(span as nat),
            low == most_bent(*arith, *field, x0 as int, y0 as int, span as int, n as nat),
        decreases total - n,
    {
        let i: usize = n % side;
        let j: usize = n / side;
        proof {
            grid::lemma_cell(side as int, side as int, n as int);
        }
        let u = number::ask(arith, Op::Over, Real::from_int(i as u64), whole);
        let v = number::ask(arith, Op::Over, Real::from_int(j as u64), whole);
        let top = depth::blend(arith, c0, c1, u);
        let bottom = depth::blend(arith, c2, c3, u);
        let flat = depth::blend(arith, top, bottom, v);
        let gap = number::ask(arith, Op::Minus, field.at(x0 + i, y0 + j), flat).abs();
        low = low.max(gap);
        n = n + 1;
    }
    low
}

} // verus!
