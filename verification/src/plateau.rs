//! What simplification makes of a field that is flat.

use vstd::prelude::*;
use vstd::arithmetic::power2;
use crate::decimate;
use crate::decimate::Decimation;
use crate::depth;
use crate::depth::HeightField;
use crate::fit;
use crate::number;
use crate::number::{Op, Real, ZERO};
use crate::quadtree;
use crate::quadtree::Tree;
use crate::refine;
use crate::refine::Need;
use crate::square::{Point, Square};
use crate::triangle;

verus! {

/// The same height everywhere.
pub open spec fn flat(field: HeightField, z: Real) -> bool {
    forall|x: int, y: int|
        0 <= x < field.w && 0 <= y < field.h ==> #[trigger] field.height(x, y) == z
}

/// Where there is nothing to climb, the arithmetic stays where it is.
pub open spec fn level_at<F: Fn(Op, Real, Real) -> Real>(arith: F, z: Real) -> bool {
    let none = Real { bits: ZERO };
    &&& number::minus(arith, z, z) == none
    &&& number::plus(arith, z, none) == z
    &&& forall|i: nat, n: nat|
        i <= n && n > 0 ==> number::times(
            arith,
            none,
            #[trigger] number::over(arith, number::whole(i), number::whole(n)),
        ) == none
}

/// A triangle over a flat field does not stray from it.
proof fn lemma_gap<F: Fn(Op, Real, Real) -> Real>(
    arith: F,
    field: HeightField,
    z: Real,
    q: Square,
    d: int,
    r: int,
    p: Point,
)
    requires
        flat(field, z),
        level_at(arith, z),
        q.wf(),
        q.span > 1,
        0 <= d < 4,
        0 <= r < 3,
        0 <= q.x && q.x + q.span < field.w,
        0 <= q.y && q.y + q.span < field.h,
        triangle::on(q.wedge(d, r), p),
    ensures
        fit::gap(arith, field, q.wedge(d, r), p) == (Real { bits: ZERO }),
{
    let f = q.wedge(d, r);
    q.lemma_wedge(d, r);
    triangle::lemma_box(f, p);
    triangle::lemma_parts(f[0], f[1], f[2], p);
    assert(field.height(f[0].0, f[0].1) == z);
    assert(field.height(f[1].0, f[1].1) == z);
    assert(field.height(f[2].0, f[2].1) == z);
    assert(field.height(p.0, p.1) == z);
    let n = triangle::area(f[0], f[1], f[2]) as nat;
    let s = triangle::area(f[0], p, f[2]) as nat;
    let t = triangle::area(f[0], f[1], p) as nat;
    assert(s <= n && t <= n);
    let (u, v) = (
        number::over(arith, number::whole(s), number::whole(n)),
        number::over(arith, number::whole(t), number::whole(n)),
    );
    assert(number::times(arith, Real { bits: ZERO }, u) == (Real { bits: ZERO }));
    assert(number::times(arith, Real { bits: ZERO }, v) == (Real { bits: ZERO }));
}

/// Nor does a quad.
proof fn lemma_bend<F: Fn(Op, Real, Real) -> Real>(
    arith: F,
    field: HeightField,
    z: Real,
    q: Square,
    n: nat,
)
    requires
        flat(field, z),
        level_at(arith, z),
        q.span >= 1,
        0 <= q.x && q.x + q.span < field.w,
        0 <= q.y && q.y + q.span < field.h,
        n <= (q.span + 1) * (q.span + 1),
    ensures
        fit::most_bent(arith, field, q.x, q.y, q.span, n) == (Real { bits: ZERO }),
    decreases n,
{
    if n > 0 {
        lemma_bend(arith, field, z, q, (n - 1) as nat);
        crate::grid::lemma_cell(q.span + 1, q.span + 1, n - 1);
        let (i, j) = ((n - 1) % (q.span + 1), (n - 1) / (q.span + 1));
        assert(0 <= i <= q.span && 0 <= j <= q.span);
        assert(field.height(q.x, q.y) == z);
        assert(field.height(q.x + q.span, q.y) == z);
        assert(field.height(q.x, q.y + q.span) == z);
        assert(field.height(q.x + q.span, q.y + q.span) == z);
        assert(field.height(q.x + i, q.y + j) == z);
        let (u, v) = (
            number::over(arith, number::whole(i as nat), number::whole(q.span as nat)),
            number::over(arith, number::whole(j as nat), number::whole(q.span as nat)),
        );
        assert(depth::mix(arith, z, z, u) == z);
        assert(depth::mix(arith, z, z, v) == z);
    }
}

/// No block of a flat field that fills its tree has to be subdivided.
proof fn lemma_no_need<F: Fn(Op, Real, Real) -> Real>(
    arith: F,
    field: HeightField,
    z: Real,
    tolerance: Real,
    levels: nat,
    l: nat,
    bx: int,
    by: int,
)
    requires
        flat(field, z),
        level_at(arith, z),
        (Real { bits: ZERO }).below(tolerance),
        field.w == quadtree::side(levels) + 1,
        field.h == quadtree::side(levels) + 1,
        refine::inside(levels, l, bx, by),
    ensures
        !decimate::needed(arith, field, tolerance)(l, bx, by),
{
    if l > 0 {
        let k = (levels - l) as nat;
        quadtree::lemma_side(l);
        quadtree::lemma_side((l - 1) as nat);
        power2::lemma_pow2_adds(l, k);
        let (s, m) = (quadtree::side(l), quadtree::side(k));
        assert(0 <= bx * s && bx * s + s <= s * m) by (nonlinear_arith)
            requires
                0 <= bx < m,
                s >= 0,
        ;
        assert(0 <= by * s && by * s + s <= s * m) by (nonlinear_arith)
            requires
                0 <= by < m,
                s >= 0,
        ;
        let q = decimate::block(l, bx, by);
        assert(q.wf() && q.span > 1);
        assert((s + 1) * (s + 1) >= 0) by (nonlinear_arith)
            requires
                s >= 0,
        ;
        lemma_bend(arith, field, z, q, ((s + 1) * (s + 1)) as nat);
        if decimate::misfits(arith, field, q, tolerance) {
            let n = choose|n: int| #[trigger]
                fit::counts(q, true, n) && fit::too_far(
                    arith,
                    field,
                    q.wedge(n / 3, n % 3),
                    tolerance,
                );
            let f = q.wedge(n / 3, n % 3);
            let p = choose|p: Point|
                triangle::on(f, p) && fit::unfit(
                    #[trigger] fit::gap(arith, field, f, p),
                    tolerance,
                );
            lemma_gap(arith, field, z, q, n / 3, n % 3, p);
        }
    }
}

/// Without need nothing is subdivided.
proof fn lemma_not_grown(levels: nat, need: Need, l: nat, bx: int, by: int)
    requires
        forall|k: nat, x: int, y: int|
            refine::inside(levels, k, x, y) ==> !#[trigger] need(k, x, y),
        refine::inside(levels, l, bx, by),
    ensures
        !refine::grown(levels, need, l, bx, by),
    decreases l,
{
    if l > 0 && refine::grown(levels, need, l, bx, by) {
        let k = (l - 1) as nat;
        refine::lemma_grown_step(levels, need, l, bx, by);
        let f = refine::level_grown(levels, need, k);
        let (cx, cy, nx, ny) = choose|cx: int, cy: int, nx: int, ny: int|
            {
                &&& refine::inside(levels, k, cx, cy)
                &&& refine::inside(levels, k, nx, ny)
                &&& #[trigger] f(cx, cy)
                &&& #[trigger] quadtree::near(cx, cy, nx, ny)
                &&& nx / 2 == bx
                &&& ny / 2 == by
            };
        lemma_not_grown(levels, need, k, cx, cy);
    }
}

/// A tree of one block keeps nothing of the border but the corners.
proof fn lemma_one_block(t: Tree)
    requires
        t.wf(),
        t.levels >= 1,
        t.cw == quadtree::side(t.levels),
        t.ch == quadtree::side(t.levels),
        !t.cut(t.levels, 0, 0),
    ensures
        t.leaves().len() == 1,
        t.border().len() == 4,
{
    let s = quadtree::side(t.levels);
    quadtree::lemma_side(t.levels);
    quadtree::lemma_side((t.levels - 1) as nat);
    quadtree::lemma_side_zero();
    assert(t.blocks(t.levels) == 1);
    assert(0 * s == 0);
    let q = t.square(t.levels, 0, 0);
    assert(t.leaves() =~= seq![q]);
    t.lemma_leaves();
    t.lemma_border();
    let c = t.border();
    assert forall|i: int| 0 <= i < c.len() implies #[trigger] c[i] == q.corner(0) || c[i]
        == q.corner(1) || c[i] == q.corner(2) || c[i] == q.corner(3) by {
        let p = c[i];
        assert(t.used(p));
        let (cx, cy) = choose|cx: int, cy: int|
            t.cell(cx, cy) && (#[trigger] t.cover(cx, cy)).vertex(p);
        assert(t.leaves().contains(t.cover(cx, cy)));
        assert(t.cover(cx, cy) == q);
    }
    if c.len() > 4 {
        assert(c[0] != c[1] && c[0] != c[2] && c[0] != c[3] && c[0] != c[4]);
        assert(c[1] != c[2] && c[1] != c[3] && c[1] != c[4]);
        assert(c[2] != c[3] && c[2] != c[4] && c[3] != c[4]);
    }
}

/// A flat field collapses: where one block fills the grid, what is left of the
/// border is the four corners, and nothing deviates. The arithmetic has to stay
/// where it is when there is nothing to climb.
pub proof fn law_flat_field_collapses<F: Fn(Op, Real, Real) -> Real>(
    arith: F,
    field: HeightField,
    z: Real,
    tolerance: Real,
    d: Decimation,
)
    requires
        flat(field, z),
        level_at(arith, z),
        (Real { bits: ZERO }).below(tolerance),
        d.simplifies(arith, field, tolerance),
        field.w >= 3,
        field.w == quadtree::side(d.tree().levels) + 1,
        field.h == field.w,
    ensures
        d.tree().leaves().len() == 1,
        d.tree().border().len() == 4,
        d.tree().faces().len() == 4,
        d.error() == (Real { bits: ZERO }),
{
    let t = d.tree();
    let levels = t.levels;
    let need = decimate::needed(arith, field, tolerance);
    d.lemma_wf();
    quadtree::lemma_side_zero();
    quadtree::lemma_side(levels);
    assert(levels >= 1);
    assert forall|k: nat, x: int, y: int| refine::inside(levels, k, x, y) implies !#[trigger] need(
        k,
        x,
        y,
    ) by {
        lemma_no_need(arith, field, z, tolerance, levels, k, x, y);
    }
    assert(t.blocks(levels) == 1);
    lemma_not_grown(levels, need, levels, 0, 0);
    assert(t.node(levels, 0, 0));
    assert(!t.cut(levels, 0, 0));
    lemma_one_block(t);
    let q = t.leaves()[0];
    t.lemma_leaves();
    t.lemma_cover(q.x, q.y);
    let (i, k, p) = choose|i: int, k: int, p: Point|
        0 <= i < t.leaves().len() && 0 <= k < t.leaves()[i].faces().len() && triangle::on(
            t.leaves()[i].faces()[k],
            p,
        ) && #[trigger] fit::gap(arith, field, t.leaves()[i].faces()[k], p) == d.error();
    assert(0 * quadtree::side(levels) == 0);
    assert(q == t.square(levels, 0, 0));
    quadtree::lemma_side((levels - 1) as nat);
    let at = q.lemma_face_is_wedge(k);
    lemma_gap(arith, field, z, q, at.0, at.1, p);
    q.lemma_face_count();
    assert(t.parts() =~= seq![q.faces()]);
    assert(t.parts().drop_last() =~= Seq::empty());
    reveal_with_fuel(crate::topology::join, 2);
    assert(!t.cut(levels, -1, 0) && !t.cut(levels, 1, 0) && !t.cut(levels, 0, -1) && !t.cut(
        levels,
        0,
        1,
    ));
}

} // verus!
