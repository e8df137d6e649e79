//! Triangles on grid points, as pure geometry.

use vstd::prelude::*;
use crate::square::Point;

verus! {

/// Twice the area of a triangle; positive when it is wound like the grid.
pub open spec fn area(a: Point, b: Point, c: Point) -> int {
    (c.0 - a.0) * (b.1 - a.1) - (c.1 - a.1) * (b.0 - a.0)
}

/// The point lies on the triangle, its sides included.
pub open spec fn on(f: [Point; 3], p: Point) -> bool {
    &&& area(p, f[1], f[2]) >= 0
    &&& area(f[0], p, f[2]) >= 0
    &&& area(f[0], f[1], p) >= 0
}

/// The three parts that a point cuts a triangle into, seen from that point.
pub proof fn lemma_parts(a: Point, b: Point, c: Point, p: Point)
    ensures
        area(p, b, c) == (c.0 - p.0) * (b.1 - p.1) - (c.1 - p.1) * (b.0 - p.0),
        area(a, p, c) == (a.0 - p.0) * (c.1 - p.1) - (a.1 - p.1) * (c.0 - p.0),
        area(a, b, p) == (b.0 - p.0) * (a.1 - p.1) - (b.1 - p.1) * (a.0 - p.0),
        area(p, b, c) + area(a, p, c) + area(a, b, p) == area(a, b, c),
{
    let (ax, ay, bx, by, cx, cy) = (
        a.0 - p.0,
        a.1 - p.1,
        b.0 - p.0,
        b.1 - p.1,
        c.0 - p.0,
        c.1 - p.1,
    );
    assert(c.0 - a.0 == cx - ax && c.1 - a.1 == cy - ay && b.0 - a.0 == bx - ax && b.1 - a.1 == by
        - ay && p.0 - a.0 == -ax && p.1 - a.1 == -ay);
    assert((cx - ax) * (-ay) - (cy - ay) * (-ax) == ax * cy - ay * cx) by (nonlinear_arith);
    assert((-ax) * (by - ay) - (-ay) * (bx - ax) == bx * ay - by * ax) by (nonlinear_arith);
    assert((cx - ax) * (by - ay) - (cy - ay) * (bx - ax) == (cx * by - cy * bx) + (ax * cy - ay * cx)
        + (bx * ay - by * ax)) by (nonlinear_arith);
}

/// What is weighed with the parts is in balance.
proof fn lemma_balance(ax: int, ay: int, bx: int, by: int, cx: int, cy: int)
    ensures
        (cx * by - cy * bx) * ax + (ax * cy - ay * cx) * bx + (bx * ay - by * ax) * cx == 0,
        (cx * by - cy * bx) * ay + (ax * cy - ay * cx) * by + (bx * ay - by * ax) * cy == 0,
{
    assert((cx * by - cy * bx) * ax + (ax * cy - ay * cx) * bx + (bx * ay - by * ax) * cx == 0)
        by (nonlinear_arith);
    assert((cx * by - cy * bx) * ay + (ax * cy - ay * cx) * by + (bx * ay - by * ax) * cy == 0)
        by (nonlinear_arith);
}

/// Weights that balance about zero do not all stand on one side of it.
proof fn lemma_sides(u: int, v: int, w: int, x: int, y: int, z: int)
    requires
        u >= 0,
        v >= 0,
        w >= 0,
        u + v + w > 0,
        u * x + v * y + w * z == 0,
    ensures
        x >= 0 || y >= 0 || z >= 0,
        x <= 0 || y <= 0 || z <= 0,
{
    if x < 0 && y < 0 && z < 0 {
        assert(u * x <= -u) by (nonlinear_arith)
            requires
                u >= 0,
                x <= -1,
        ;
        assert(v * y <= -v) by (nonlinear_arith)
            requires
                v >= 0,
                y <= -1,
        ;
        assert(w * z <= -w) by (nonlinear_arith)
            requires
                w >= 0,
                z <= -1,
        ;
    }
    if x > 0 && y > 0 && z > 0 {
        assert(u * x >= u) by (nonlinear_arith)
            requires
                u >= 0,
                x >= 1,
        ;
        assert(v * y >= v) by (nonlinear_arith)
            requires
                v >= 0,
                y >= 1,
        ;
        assert(w * z >= w) by (nonlinear_arith)
            requires
                w >= 0,
                z >= 1,
        ;
    }
}

/// A point on a triangle does not stand out from its corners.
pub proof fn lemma_box(f: [Point; 3], p: Point)
    requires
        area(f[0], f[1], f[2]) > 0,
        on(f, p),
    ensures
        p.0 <= f[0].0 || p.0 <= f[1].0 || p.0 <= f[2].0,
        p.0 >= f[0].0 || p.0 >= f[1].0 || p.0 >= f[2].0,
        p.1 <= f[0].1 || p.1 <= f[1].1 || p.1 <= f[2].1,
        p.1 >= f[0].1 || p.1 >= f[1].1 || p.1 >= f[2].1,
{
    let (a, b, c) = (f[0], f[1], f[2]);
    let (ax, ay, bx, by, cx, cy) = (
        a.0 - p.0,
        a.1 - p.1,
        b.0 - p.0,
        b.1 - p.1,
        c.0 - p.0,
        c.1 - p.1,
    );
    lemma_parts(a, b, c, p);
    lemma_balance(ax, ay, bx, by, cx, cy);
    let (u, v, w) = (area(p, b, c), area(a, p, c), area(a, b, p));
    lemma_sides(u, v, w, ax, bx, cx);
    lemma_sides(u, v, w, ay, by, cy);
}

/// The corners of a triangle lie on it.
pub proof fn lemma_corners(f: [Point; 3])
    requires
        area(f[0], f[1], f[2]) >= 0,
    ensures
        on(f, f[0]),
        on(f, f[1]),
        on(f, f[2]),
{
    let (a, b, c) = (f[0], f[1], f[2]);
    assert(area(a, a, c) == 0 && area(a, b, a) == 0 && area(a, b, b) == 0 && area(a, c, c) == 0
        && area(b, b, c) == 0 && area(c, b, c) == 0) by {
        assert(area(a, a, c) == (c.0 - a.0) * 0 - (c.1 - a.1) * 0);
        assert(area(a, b, a) == 0 * (b.1 - a.1) - 0 * (b.0 - a.0));
        assert(area(b, b, c) == (c.0 - b.0) * 0 - (c.1 - b.1) * 0);
        assert(area(c, b, c) == 0 * (b.1 - c.1) - 0 * (b.0 - c.0));
        assert((b.0 - a.0) * (b.1 - a.1) == (b.1 - a.1) * (b.0 - a.0)) by (nonlinear_arith);
        assert((c.0 - a.0) * (c.1 - a.1) == (c.1 - a.1) * (c.0 - a.0)) by (nonlinear_arith);
    }
}

} // verus!
