//! Simplifying the relief: a restricted quadtree over the height field.
//!
//! A depth map is mostly smooth, so most of a full-resolution relief's triangles
//! describe nothing. Regions that a few large triangles already describe well
//! enough are replaced with those, and the fine grid stays where the surface
//! actually moves. Error is vertical deviation in millimetres, the same unit as
//! the layer height it is judged against. It is that of the triangles which are
//! put down, and a region is only given up where the quad through its corners
//! describes it as well: see [`crate::fit`].
//!
//! Two neighbouring squares of different size would leave a hole where they
//! meet. Two rules prevent it: neighbours differ by at most one level, and a
//! square whose neighbour is one level finer takes the middle of that side into
//! its own fan. The relief's border is simplified too, and the frame is built on
//! whatever border survives.

use vstd::prelude::*;
use vstd::arithmetic::power2;
use crate::bits;
use crate::count;
use crate::depth::HeightField;
use crate::fit;
use crate::grid;
use crate::number;
use crate::number::{Op, Real, HALF, INFINITY, ZERO};
use crate::progress::Fraction;
use crate::quadtree;
use crate::quadtree::Tree;
use crate::refine;
use crate::refine::Need;
use crate::square::{Point, Square};
use crate::topology;
use crate::triangle;

verus! {

/// Half a layer, or a step where that is more.
pub open spec fn tolerance_floor<F: Fn(Op, Real, Real) -> Real>(
    f: F,
    step_mm: Real,
    layer_mm: Real,
) -> Real {
    number::times(f, layer_mm, Real { bits: HALF }).larger(step_mm)
}

/// Smallest tolerance worth asking for, given what the source can express.
///
/// Below the quantisation step of the depth map every step becomes a feature
/// that has to be kept. Half a layer height is the other floor: finer than that
/// is invisible in the print.
pub fn suggested_tolerance<F: Fn(Op, Real, Real) -> Real>(
    step_mm: Real,
    layer_mm: Real,
    arith: &F,
) -> (r: Real)
    requires
        number::steady(*arith),
    ensures
        r == tolerance_floor(*arith, step_mm, layer_mm),
{
    number::ask(arith, Op::Times, layer_mm, Real { bits: HALF }).max(step_mm)
}

// ---------------------------------------------------------------------------
// Leaves
// ---------------------------------------------------------------------------

/// One square of the simplified surface.
#[derive(Debug, Clone, Copy)]
pub struct Leaf {
    /// Top-left corner, in grid samples.
    pub x0: usize,
    pub y0: usize,
    /// Side length in cells: 1, 2, 4, and so on.
    pub span: usize,
    /// Sides whose neighbour is one level finer and needs a midpoint: left,
    /// bottom, right, top.
    pub stitches: [bool; 4],
}

impl Leaf {
    pub open spec fn square(self) -> Square {
        Square {
            x: self.x0 as int,
            y: self.y0 as int,
            span: self.span as int,
            left: self.stitches[0],
            bottom: self.stitches[1],
            right: self.stitches[2],
            top: self.stitches[3],
        }
    }

    /// Triangles this leaf emits: two for a single cell, otherwise a fan from
    /// its centre through four corners and each stitched midpoint.
    pub fn triangles(&self) -> (r: usize)
        ensures
            r == self.square().faces().len(),
    {
        proof {
            self.square().lemma_face_count();
        }
        if self.span == 1 {
            2
        } else {
            let mut n: usize = 4;
            if self.stitches[0] {
                n = n + 1;
            }
            if self.stitches[1] {
                n = n + 1;
            }
            if self.stitches[2] {
                n = n + 1;
            }
            if self.stitches[3] {
                n = n + 1;
            }
            n
        }
    }
}

/// The squares of a list of leaves.
pub open spec fn squares(leaves: Seq<Leaf>) -> Seq<Square> {
    Seq::new(leaves.len(), |i: int| leaves[i].square())
}

// ---------------------------------------------------------------------------
// Which blocks are subdivided
// ---------------------------------------------------------------------------

/// The block reaches past the cells of the field.
pub open spec fn hangs_over(field: HeightField, l: nat, bx: int, by: int) -> bool {
    bx * quadtree::side(l) + quadtree::side(l) > field.w - 1 || by * quadtree::side(l)
        + quadtree::side(l) > field.h - 1
}

/// A block as a square, its sides whole.
pub open spec fn block(l: nat, bx: int, by: int) -> Square {
    Square {
        x: bx * quadtree::side(l),
        y: by * quadtree::side(l),
        span: quadtree::side(l),
        left: false,
        bottom: false,
        right: false,
        top: false,
    }
}

/// One of the triangles that the block could be put down as, with or without
/// the middles of its sides, lies too far from the samples.
pub open spec fn misfits<F: Fn(Op, Real, Real) -> Real>(
    arith: F,
    field: HeightField,
    q: Square,
    tolerance: Real,
) -> bool {
    exists|n: int| #[trigger]
        fit::counts(q, true, n) && fit::too_far(arith, field, q.wedge(n / 3, n % 3), tolerance)
}

/// How far the quad through the corners of a block lies from the samples.
pub open spec fn bent<F: Fn(Op, Real, Real) -> Real>(
    arith: F,
    field: HeightField,
    q: Square,
) -> Real {
    fit::quad_error(arith, field, q.x, q.y, q.span)
}

/// A block has to be subdivided when it reaches past the field, or cannot
/// describe its own samples well enough: neither the quad through its corners
/// nor the triangles that are put down for it may lie too far from them.
pub open spec fn needed<F: Fn(Op, Real, Real) -> Real>(
    arith: F,
    field: HeightField,
    tolerance: Real,
) -> Need {
    |l: nat, bx: int, by: int|
        l >= 1 && (hangs_over(field, l, bx, by) || fit::unfit(
            bent(arith, field, block(l, bx, by)),
            tolerance,
        ) || misfits(arith, field, block(l, bx, by), tolerance))
}

/// Infinite where the block reaches past the field, else the farthest that its
/// quad and its triangles can lie from the samples.
spec fn is_error<F: Fn(Op, Real, Real) -> Real>(
    arith: F,
    field: HeightField,
    l: nat,
    bx: int,
    by: int,
    e: Real,
) -> bool {
    if hangs_over(field, l, bx, by) {
        e == (Real { bits: INFINITY })
    } else {
        exists|a: Real| #[trigger]
            fit::worst_of(arith, field, block(l, bx, by), true, a) && e == fit::worse(
                a,
                bent(arith, field, block(l, bx, by)),
            )
    }
}

/// A flat list of the errors of `n` times `n` blocks.
spec fn measured<F: Fn(Op, Real, Real) -> Real>(
    arith: F,
    field: HeightField,
    l: nat,
    n: int,
    v: Seq<Real>,
) -> bool {
    v.len() == n * n && forall|bx: int, by: int|
        0 <= bx < n && 0 <= by < n ==> is_error(arith, field, l, bx, by, #[trigger] v[by * n + bx])
}

/// The worst gap decides.
proof fn lemma_misfits<F: Fn(Op, Real, Real) -> Real>(
    arith: F,
    field: HeightField,
    q: Square,
    tolerance: Real,
    e: Real,
)
    requires
        fit::worst_of(arith, field, q, true, e),
    ensures
        misfits(arith, field, q, tolerance) == fit::unfit(e, tolerance),
{
    if fit::unfit(e, tolerance) {
        let n = choose|n: int| #[trigger]
            fit::counts(q, true, n) && fit::reached(arith, field, q.wedge(n / 3, n % 3), e);
        let f = q.wedge(n / 3, n % 3);
        fit::lemma_worst_decides(arith, field, f, e, tolerance);
    }
    if misfits(arith, field, q, tolerance) {
        let n = choose|n: int| #[trigger]
            fit::counts(q, true, n) && fit::too_far(
                arith,
                field,
                q.wedge(n / 3, n % 3),
                tolerance,
            );
        let f = q.wedge(n / 3, n % 3);
        assert(fit::covered(arith, field, f, e));
        let p = choose|p: Point|
            triangle::on(f, p) && fit::unfit(#[trigger] fit::gap(arith, field, f, p), tolerance);
        assert(fit::covers(e, fit::gap(arith, field, f, p)));
    }
}

/// The smallest number of levels whose root covers `n` cells.
pub open spec fn enough_levels(levels: nat, n: int) -> bool {
    quadtree::side(levels) >= n && (levels > 0 ==> quadtree::side((levels - 1) as nat) < n)
}

/// Indices of the padded grid's blocks and of its vertices fit the machine.
pub open spec fn fits(w: int, h: int) -> bool {
    &&& w * h <= u32::MAX
    &&& 2 * (w * h) <= usize::MAX
    &&& 4 * (w * w) <= usize::MAX
    &&& 4 * (h * h) <= usize::MAX
}

/// A flat list of `n` times `n` entries that answers `f` for each block.
pub open spec fn tabled<T>(v: Seq<T>, n: int, f: spec_fn(int, int) -> T) -> bool {
    v.len() == n * n && forall|bx: int, by: int|
        0 <= bx < n && 0 <= by < n ==> #[trigger] v[by * n + bx] == f(bx, by)
}

/// No triangle of the first `n` squares lies farther from its samples.
spec fn bounds<F: Fn(Op, Real, Real) -> Real>(
    arith: F,
    field: HeightField,
    q: Seq<Square>,
    n: int,
    e: Real,
) -> bool {
    forall|i: int, k: int|
        0 <= i < n && 0 <= k < q[i].faces().len() ==> fit::covered(
            arith,
            field,
            #[trigger] q[i].faces()[k],
            e,
        )
}

/// A triangle of the squares lies this far from one of its samples.
spec fn attains<F: Fn(Op, Real, Real) -> Real>(
    arith: F,
    field: HeightField,
    q: Seq<Square>,
    e: Real,
) -> bool {
    exists|i: int, k: int|
        0 <= i < q.len() && 0 <= k < q[i].faces().len() && fit::reached(
            arith,
            field,
            #[trigger] q[i].faces()[k],
            e,
        )
}

/// The farthest that a triangle of the squares lies from one of its samples.
pub open spec fn farthest<F: Fn(Op, Real, Real) -> Real>(
    arith: F,
    field: HeightField,
    q: Seq<Square>,
    e: Real,
) -> bool {
    &&& forall|i: int, k: int, p: Point|
        0 <= i < q.len() && 0 <= k < q[i].faces().len() && triangle::on(q[i].faces()[k], p) ==> (
        #[trigger] fit::gap(arith, field, q[i].faces()[k], p)).at_most(e)
    &&& exists|i: int, k: int, p: Point|
        0 <= i < q.len() && 0 <= k < q[i].faces().len() && triangle::on(q[i].faces()[k], p)
            && #[trigger] fit::gap(arith, field, q[i].faces()[k], p) == e
}

/// Squares inside a field are small enough to be measured.
proof fn lemma_span(field: HeightField, x0: int, y0: int, span: int)
    requires
        field.w * field.h <= u32::MAX,
        0 <= x0,
        0 <= y0,
        0 <= span,
        x0 + span < field.w,
        y0 + span < field.h,
    ensures
        span <= fit::MAX_SPAN,
{
    let (w, h) = (field.w as int, field.h as int);
    assert(span <= 0xffff) by (nonlinear_arith)
        requires
            0 <= span < w,
            span < h,
            w * h <= 0xffff_ffff,
    ;
}

/// The errors of one level's blocks.
fn errors_of_level<F: Fn(Op, Real, Real) -> Real>(
    field: &HeightField,
    Ghost(l): Ghost<nat>,
    span: usize,
    blocks: usize,
    arith: &F,
) -> (r: Vec<Real>)
    requires
        number::steady(*arith),
        field.wf(),
        l >= 1,
        span == quadtree::side(l),
        blocks >= 1,
        blocks * blocks <= usize::MAX,
        blocks * span <= usize::MAX,
        field.w * field.h <= u32::MAX,
    ensures
        measured(*arith, *field, l, blocks as int, r@),
{
    let total: usize = blocks * blocks;
    let mut out: Vec<Real> = Vec::with_capacity(total);
    let mut k: usize = 0;
    proof {
        quadtree::lemma_side(l);
    }
    while k < total
        invariant
            number::steady(*arith),
            field.wf(),
            l >= 1,
            span == quadtree::side(l),
            span >= 2,
            blocks >= 1,
            total == blocks * blocks,
            blocks * span <= usize::MAX,
            field.w * field.h <= u32::MAX,
            k <= total,
            out@.len() == k,
            forall|i: int|
                0 <= i < k ==> is_error(
                    *arith,
                    *field,
                    l,
                    i % (blocks as int),
                    i / (blocks as int),
                    #[trigger] out@[i],
                ),
        decreases total - k,
    {
        let bx: usize = k % blocks;
        let by: usize = k / blocks;
        proof {
            grid::lemma_cell(blocks as int, blocks as int, k as int);
            assert(0 <= bx * span && bx * span + span <= blocks * span) by (nonlinear_arith)
                requires
                    bx < blocks,
                    span >= 0,
            ;
            assert(0 <= by * span && by * span + span <= blocks * span) by (nonlinear_arith)
                requires
                    by < blocks,
                    span >= 0,
            ;
        }
        let x0: usize = bx * span;
        let y0: usize = by * span;
        let e = if x0 + span > field.w - 1 || y0 + span > field.h - 1 {
            Real { bits: INFINITY }
        } else {
            proof {
                lemma_span(*field, x0 as int, y0 as int, span as int);
                quadtree::lemma_side((l - 1) as nat);
                assert(block(l, bx as int, by as int).wf());
            }
            let none: [bool; 4] = [false, false, false, false];
            let fan = fit::fan_error(
                field,
                x0,
                y0,
                span,
                none,
                true,
                Ghost(block(l, bx as int, by as int)),
                arith,
            );
            let quad = fit::quad_deviation(field, x0, y0, span, arith);
            assert(fit::worst_of(*arith, *field, block(l, bx as int, by as int), true, fan));
            fit::worse_of(fan, quad)
        };
        out.push(e);
        k = k + 1;
    }
    assert forall|bx: int, by: int| 0 <= bx < blocks && 0 <= by < blocks implies is_error(
        *arith,
        *field,
        l,
        bx,
        by,
        #[trigger] out@[by * blocks + bx],
    ) by {
        grid::lemma_index(blocks as int, blocks as int, bx, by);
    }
    out
}

/// First pass: a block subdivides if it cannot describe its own samples.
fn decide_level<F: Fn(Op, Real, Real) -> Real>(
    field: &HeightField,
    errors: &Vec<Real>,
    Ghost(l): Ghost<nat>,
    span: usize,
    blocks: usize,
    tolerance: Real,
    arith: &F,
) -> (r: Vec<bool>)
    requires
        field.wf(),
        l >= 1,
        span == quadtree::side(l),
        blocks >= 1,
        blocks * span <= usize::MAX,
        measured(*arith, *field, l, blocks as int, errors@),
    ensures
        tabled(r@, blocks as int, |bx: int, by: int| needed(*arith, *field, tolerance)(l, bx, by)),
{
    let ghost f = |bx: int, by: int| needed(*arith, *field, tolerance)(l, bx, by);
    let total: usize = errors.len();
    let mut out: Vec<bool> = Vec::with_capacity(total);
    let mut k: usize = 0;
    while k < total
        invariant
            field.wf(),
            l >= 1,
            span == quadtree::side(l),
            blocks >= 1,
            total == blocks * blocks,
            blocks * span <= usize::MAX,
            total == errors@.len(),
            measured(*arith, *field, l, blocks as int, errors@),
            f == (|bx: int, by: int| needed(*arith, *field, tolerance)(l, bx, by)),
            k <= total,
            out@.len() == k,
            forall|i: int|
                0 <= i < k ==> #[trigger] out@[i] == f(i % (blocks as int), i / (blocks as int)),
        decreases total - k,
    {
        let bx: usize = k % blocks;
        let by: usize = k / blocks;
        proof {
            grid::lemma_cell(blocks as int, blocks as int, k as int);
            let e = errors@[by * blocks + bx];
            assert(is_error(*arith, *field, l, bx as int, by as int, e));
            if !hangs_over(*field, l, bx as int, by as int) {
                let q = block(l, bx as int, by as int);
                let a = choose|a: Real| #[trigger]
                    fit::worst_of(*arith, *field, q, true, a) && e == fit::worse(
                        a,
                        bent(*arith, *field, q),
                    );
                lemma_misfits(*arith, *field, q, tolerance, a);
            }
            assert(0 <= bx * span && bx * span + span <= blocks * span) by (nonlinear_arith)
                requires
                    bx < blocks,
                    span >= 0,
            ;
            assert(0 <= by * span && by * span + span <= blocks * span) by (nonlinear_arith)
                requires
                    by < blocks,
                    span >= 0,
            ;
        }
        let over: bool = bx * span + span > field.w - 1 || by * span + span > field.h - 1;
        let e = errors[k];
        out.push(over || e.is_nan() || tolerance.lt(e));
        k = k + 1;
    }
    assert forall|bx: int, by: int| 0 <= bx < blocks && 0 <= by < blocks implies #[trigger] out@[by
        * blocks + bx] == f(bx, by) by {
        grid::lemma_index(blocks as int, blocks as int, bx, by);
    }
    out
}


/// Per level, the errors of its blocks; a single cell is never consulted.
fn pyramid<F: Fn(Op, Real, Real) -> Real>(
    field: &HeightField,
    levels: usize,
    pad: usize,
    arith: &F,
) -> (r: Vec<Vec<Real>>)
    requires
        number::steady(*arith),
        field.wf(),
        pad == quadtree::side(levels as nat),
        pad * pad <= usize::MAX,
        field.w * field.h <= u32::MAX,
    ensures
        r@.len() == levels + 1,
        forall|l: nat|
            1 <= l <= levels ==> measured(
                *arith,
                *field,
                l,
                quadtree::side((levels - l) as nat),
                (#[trigger] r@[l as int])@,
            ),
{
    let mut out: Vec<Vec<Real>> = Vec::new();
    out.push(Vec::new());
    let mut level: usize = 0;
    let mut span: usize = 1;
    let mut blocks: usize = pad;
    proof {
        quadtree::lemma_side_zero();
    }
    while level < levels
        invariant
            number::steady(*arith),
            field.wf(),
            level <= levels,
            pad == quadtree::side(levels as nat),
            pad * pad <= usize::MAX,
            field.w * field.h <= u32::MAX,
            span == quadtree::side(level as nat),
            blocks == quadtree::side((levels - level) as nat),
            out@.len() == level + 1,
            forall|l: nat|
                1 <= l <= level ==> measured(
                    *arith,
                    *field,
                    l,
                    quadtree::side((levels - l) as nat),
                    (#[trigger] out@[l as int])@,
                ),
        decreases levels - level,
    {
        proof {
            lemma_level_step(levels as nat, level as nat);
        }
        span = span * 2;
        blocks = blocks / 2;
        level = level + 1;
        let errors = errors_of_level(field, Ghost(level as nat), span, blocks, arith);
        out.push(errors);
    }
    out
}

/// One level up, blocks are twice as wide and half as many.
proof fn lemma_level_step(levels: nat, l: nat)
    requires
        l < levels,
        quadtree::side(levels) * quadtree::side(levels) <= usize::MAX,
    ensures
        quadtree::side(l + 1) == 2 * quadtree::side(l),
        quadtree::side((levels - l) as nat) == 2 * quadtree::side((levels - l - 1) as nat),
        quadtree::side((levels - l - 1) as nat) >= 1,
        quadtree::side(l) * quadtree::side((levels - l) as nat) == quadtree::side(levels),
        quadtree::side((levels - l - 1) as nat) * quadtree::side(l + 1) == quadtree::side(levels),
        quadtree::side(l + 1) <= quadtree::side(levels),
        quadtree::side(levels) <= usize::MAX,
        quadtree::side((levels - l - 1) as nat) * quadtree::side((levels - l - 1) as nat)
            <= usize::MAX,
        quadtree::side((levels - l) as nat) * quadtree::side((levels - l) as nat) <= usize::MAX,
{
    quadtree::lemma_side(l);
    quadtree::lemma_side(l + 1);
    quadtree::lemma_side(levels);
    quadtree::lemma_side((levels - l) as nat);
    quadtree::lemma_side((levels - l - 1) as nat);
    assert(((levels - l) as nat - 1) as nat == (levels - l - 1) as nat);
    power2::lemma_pow2_adds(l, (levels - l) as nat);
    power2::lemma_pow2_adds(l + 1, (levels - l - 1) as nat);
    let a = quadtree::side(l);
    let n = quadtree::side((levels - l) as nat);
    let m = quadtree::side((levels - l - 1) as nat);
    let p = quadtree::side(levels);
    let b = quadtree::side(l + 1);
    assert(b * m == p && a * n == p);
    assert(m * b == b * m) by (nonlinear_arith);
    assert(b <= p) by (nonlinear_arith)
        requires
            b * m == p,
            m >= 1,
            b >= 1,
    ;
    assert(n <= p) by (nonlinear_arith)
        requires
            a * n == p,
            a >= 1,
            n >= 1,
    ;
    assert(n * n <= p * p) by (nonlinear_arith)
        requires
            0 <= n <= p,
    ;
    assert(m * m <= n * n) by (nonlinear_arith)
        requires
            0 <= m,
            n == 2 * m,
    ;
    assert(p <= p * p) by (nonlinear_arith)
        requires
            p >= 1,
    ;
}

fn all_false(n: usize) -> (r: Vec<bool>)
    ensures
        r@ == Seq::new(n as nat, |k: int| false),
{
    let mut r: Vec<bool> = Vec::with_capacity(n);
    let mut k: usize = 0;
    while k < n
        invariant
            k <= n,
            r@ == Seq::new(k as nat, |k: int| false),
        decreases n - k,
    {
        r.push(false);
        k = k + 1;
        assert(r@ =~= Seq::new(k as nat, |k: int| false));
    }
    r
}

/// First pass over all levels: what has to be subdivided for its own sake.
fn decide<F: Fn(Op, Real, Real) -> Real>(
    field: &HeightField,
    errors: &Vec<Vec<Real>>,
    levels: usize,
    pad: usize,
    tolerance: Real,
    arith: &F,
) -> (r: Vec<Vec<bool>>)
    requires
        field.wf(),
        pad == quadtree::side(levels as nat),
        pad * pad <= usize::MAX,
        errors@.len() == levels + 1,
        forall|l: nat|
            1 <= l <= levels ==> measured(
                *arith,
                *field,
                l,
                quadtree::side((levels - l) as nat),
                (#[trigger] errors@[l as int])@,
            ),
    ensures
        r@.len() == levels + 1,
        forall|l: nat|
            l <= levels ==> tabled(
                (#[trigger] r@[l as int])@,
                quadtree::side((levels - l) as nat),
                |bx: int, by: int| needed(*arith, *field, tolerance)(l, bx, by),
            ),
{
    let ghost need = needed(*arith, *field, tolerance);
    let mut out: Vec<Vec<bool>> = Vec::new();
    let finest = all_false(pad * pad);
    proof {
        quadtree::lemma_side_zero();
        let f = |bx: int, by: int| need(0, bx, by);
        assert forall|bx: int, by: int| 0 <= bx < pad && 0 <= by < pad implies #[trigger] finest@[by
            * pad + bx] == f(bx, by) by {
            grid::lemma_index(pad as int, pad as int, bx, by);
        }
        assert(tabled(finest@, pad as int, f));
        assert((levels - 0) as nat == levels as nat);
    }
    out.push(finest);
    let mut level: usize = 0;
    let mut span: usize = 1;
    let mut blocks: usize = pad;
    while level < levels
        invariant
            field.wf(),
            level <= levels,
            pad == quadtree::side(levels as nat),
            pad * pad <= usize::MAX,
            span == quadtree::side(level as nat),
            blocks == quadtree::side((levels - level) as nat),
            need == needed(*arith, *field, tolerance),
            errors@.len() == levels + 1,
            forall|l: nat|
                1 <= l <= levels ==> measured(
                    *arith,
                    *field,
                    l,
                    quadtree::side((levels - l) as nat),
                    (#[trigger] errors@[l as int])@,
                ),
            out@.len() == level + 1,
            forall|l: nat|
                l <= level ==> tabled(
                    (#[trigger] out@[l as int])@,
                    quadtree::side((levels - l) as nat),
                    |bx: int, by: int| need(l, bx, by),
                ),
        decreases levels - level,
    {
        proof {
            lemma_level_step(levels as nat, level as nat);
        }
        span = span * 2;
        blocks = blocks / 2;
        level = level + 1;
        assert(measured(
            *arith,
            *field,
            level as nat,
            blocks as int,
            errors@[(level as nat) as int]@,
        ));
        let split = decide_level(
            field,
            &errors[level],
            Ghost(level as nat),
            span,
            blocks,
            tolerance,
            arith,
        );
        out.push(split);
    }
    out
}

/// The entry for a block in a flat list.
pub open spec fn entry(v: Seq<bool>, n: int, bx: int, by: int) -> bool {
    v[by * n + bx]
}

/// One of the first `m` blocks of a level is marked, and is or touches a
/// quarter of this block one level up.
spec fn lifted(lower: Seq<bool>, n: int, m: int, px: int, py: int) -> bool {
    exists|cx: int, cy: int, nx: int, ny: int|
        {
            &&& 0 <= cx < n
            &&& 0 <= cy < n
            &&& 0 <= nx < n
            &&& 0 <= ny < n
            &&& cy * n + cx < m
            &&& #[trigger] entry(lower, n, cx, cy)
            &&& #[trigger] quadtree::near(cx, cy, nx, ny)
            &&& nx / 2 == px
            &&& ny / 2 == py
        }
}

/// Mark the block that a quarter belongs to.
fn raise(upper: &mut Vec<bool>, parents: usize, nx: usize, ny: usize)
    requires
        old(upper)@.len() == parents * parents,
        nx < 2 * parents,
        ny < 2 * parents,
    ensures
        final(upper)@.len() == old(upper)@.len(),
        forall|px: int, py: int|
            0 <= px < parents && 0 <= py < parents ==> #[trigger] entry(
                final(upper)@,
                parents as int,
                px,
                py,
            ) == (entry(old(upper)@, parents as int, px, py) || (px == nx as int / 2 && py
                == ny as int / 2)),
{
    let ghost was = upper@;
    let px: usize = nx / 2;
    let py: usize = ny / 2;
    proof {
        grid::lemma_index(parents as int, parents as int, px as int, py as int);
        assert(upper.len() == upper@.len());
    }
    let at: usize = py * parents + px;
    upper.set(at, true);
    assert forall|x: int, y: int| 0 <= x < parents && 0 <= y < parents implies #[trigger] entry(
        upper@,
        parents as int,
        x,
        y,
    ) == (entry(was, parents as int, x, y) || (x == nx as int / 2 && y == ny as int / 2)) by {
        grid::lemma_index(parents as int, parents as int, x, y);
    }
}

fn copied(v: &Vec<bool>) -> (r: Vec<bool>)
    ensures
        r@ == v@,
{
    let mut r: Vec<bool> = Vec::with_capacity(v.len());
    let mut k: usize = 0;
    while k < v.len()
        invariant
            k <= v@.len(),
            r@ == v@.take(k as int),
        decreases v@.len() - k,
    {
        r.push(v[k]);
        k = k + 1;
        assert(r@ =~= v@.take(k as int));
    }
    assert(v@.take(v@.len() as int) =~= v@);
    r
}

/// One more block of the lower level looked at.
proof fn lemma_lifted_step(lower: Seq<bool>, n: int, bx: int, by: int, px: int, py: int)
    requires
        n >= 2,
        n % 2 == 0,
        0 <= bx < n,
        0 <= by < n,
        0 <= px < n / 2,
        0 <= py < n / 2,
    ensures
        lifted(lower, n, by * n + bx + 1, px, py) == (lifted(lower, n, by * n + bx, px, py) || (
        entry(lower, n, bx, by) && {
            ||| px == bx / 2 && py == by / 2
            ||| bx > 0 && px == (bx - 1) / 2 && py == by / 2
            ||| bx + 1 < n && px == (bx + 1) / 2 && py == by / 2
            ||| by > 0 && px == bx / 2 && py == (by - 1) / 2
            ||| by + 1 < n && px == bx / 2 && py == (by + 1) / 2
        })),
{
    let m = by * n + bx;
    grid::lemma_index(n, n, bx, by);
    if lifted(lower, n, m + 1, px, py) {
        let (cx, cy, nx, ny) = choose|cx: int, cy: int, nx: int, ny: int|
            {
                &&& 0 <= cx < n
                &&& 0 <= cy < n
                &&& 0 <= nx < n
                &&& 0 <= ny < n
                &&& cy * n + cx < m + 1
                &&& #[trigger] entry(lower, n, cx, cy)
                &&& #[trigger] quadtree::near(cx, cy, nx, ny)
                &&& nx / 2 == px
                &&& ny / 2 == py
            };
        if cy * n + cx == m {
            grid::lemma_index(n, n, cx, cy);
            assert(cx == bx && cy == by);
        } else {
            assert(entry(lower, n, cx, cy) && quadtree::near(cx, cy, nx, ny));
            assert(lifted(lower, n, m, px, py));
        }
    }
    if lifted(lower, n, m, px, py) {
        let (cx, cy, nx, ny) = choose|cx: int, cy: int, nx: int, ny: int|
            {
                &&& 0 <= cx < n
                &&& 0 <= cy < n
                &&& 0 <= nx < n
                &&& 0 <= ny < n
                &&& cy * n + cx < m
                &&& #[trigger] entry(lower, n, cx, cy)
                &&& #[trigger] quadtree::near(cx, cy, nx, ny)
                &&& nx / 2 == px
                &&& ny / 2 == py
            };
        assert(entry(lower, n, cx, cy) && quadtree::near(cx, cy, nx, ny));
    }
    if entry(lower, n, bx, by) {
        assert(quadtree::near(bx, by, bx, by));
        assert(quadtree::near(bx, by, bx - 1, by));
        assert(quadtree::near(bx, by, bx + 1, by));
        assert(quadtree::near(bx, by, bx, by - 1));
        assert(quadtree::near(bx, by, bx, by + 1));
    }
}

/// Carry the needs of one level up to the next: a subdivided block needs its
/// parent, and the parents of its four neighbours, subdivided too.
fn lift(lower: &Vec<bool>, upper: &Vec<bool>, blocks: usize) -> (r: Vec<bool>)
    requires
        blocks >= 2,
        blocks % 2 == 0,
        lower@.len() == blocks * blocks,
        upper@.len() == (blocks as int / 2) * (blocks as int / 2),
    ensures
        r@.len() == upper@.len(),
        forall|px: int, py: int|
            0 <= px < blocks as int / 2 && 0 <= py < blocks as int / 2 ==> #[trigger] entry(
                r@,
                blocks as int / 2,
                px,
                py,
            ) == (entry(upper@, blocks as int / 2, px, py) || lifted(
                lower@,
                blocks as int,
                blocks * blocks,
                px,
                py,
            )),
{
    let parents: usize = blocks / 2;
    let total: usize = lower.len();
    let mut out = copied(upper);
    let mut m: usize = 0;
    while m < total
        invariant
            blocks >= 2,
            blocks == 2 * parents,
            total == blocks * blocks,
            lower@.len() == total,
            upper@.len() == parents * parents,
            out@.len() == parents * parents,
            m <= total,
            forall|px: int, py: int|
                0 <= px < parents && 0 <= py < parents ==> #[trigger] entry(
                    out@,
                    parents as int,
                    px,
                    py,
                ) == (entry(upper@, parents as int, px, py) || lifted(
                    lower@,
                    blocks as int,
                    m as int,
                    px,
                    py,
                )),
        decreases total - m,
    {
        let bx: usize = m % blocks;
        let by: usize = m / blocks;
        proof {
            grid::lemma_cell(blocks as int, blocks as int, m as int);
            assert(entry(lower@, blocks as int, bx as int, by as int) == lower@[m as int]);
            assert forall|px: int, py: int| 0 <= px < parents && 0 <= py < parents implies #[trigger] lifted(
                lower@,
                blocks as int,
                m + 1,
                px,
                py,
            ) == (lifted(lower@, blocks as int, m as int, px, py) || (entry(
                lower@,
                blocks as int,
                bx as int,
                by as int,
            ) && {
                ||| px == bx as int / 2 && py == by as int / 2
                ||| bx > 0 && px == (bx - 1) / 2 && py == by as int / 2
                ||| bx + 1 < blocks && px == (bx + 1) / 2 && py == by as int / 2
                ||| by > 0 && px == bx as int / 2 && py == (by - 1) / 2
                ||| by + 1 < blocks && px == bx as int / 2 && py == (by + 1) / 2
            })) by {
                lemma_lifted_step(lower@, blocks as int, bx as int, by as int, px, py);
            }
        }
        if lower[m] {
            raise(&mut out, parents, bx, by);
            if bx > 0 {
                raise(&mut out, parents, bx - 1, by);
            }
            if bx + 1 < blocks {
                raise(&mut out, parents, bx + 1, by);
            }
            if by > 0 {
                raise(&mut out, parents, bx, by - 1);
            }
            if by + 1 < blocks {
                raise(&mut out, parents, bx, by + 1);
            }
        }
        m = m + 1;
    }
    out
}

/// Second pass: no square may touch one more than one level coarser. Walking
/// the levels from fine to coarse carries that all the way up.
fn balance(split: &Vec<Vec<bool>>, levels: usize, pad: usize, Ghost(need): Ghost<Need>) -> (r: Vec<
    Vec<bool>,
>)
    requires
        pad == quadtree::side(levels as nat),
        pad * pad <= usize::MAX,
        split@.len() == levels + 1,
        forall|l: nat|
            l <= levels ==> tabled(
                (#[trigger] split@[l as int])@,
                quadtree::side((levels - l) as nat),
                |bx: int, by: int| need(l, bx, by),
            ),
    ensures
        r@.len() == levels + 1,
        forall|l: nat|
            l <= levels ==> tabled(
                (#[trigger] r@[l as int])@,
                quadtree::side((levels - l) as nat),
                refine::level_grown(levels as nat, need, l),
            ),
{
    let mut out: Vec<Vec<bool>> = Vec::new();
    proof {
        assert(tabled(
            split@[0nat as int]@,
            quadtree::side((levels - 0) as nat),
            |bx: int, by: int| need(0, bx, by),
        ));
    }
    out.push(copied(&split[0]));
    let mut level: usize = 0;
    let mut blocks: usize = pad;
    while level < levels
        invariant
            level <= levels,
            pad == quadtree::side(levels as nat),
            pad * pad <= usize::MAX,
            blocks == quadtree::side((levels - level) as nat),
            split@.len() == levels + 1,
            forall|l: nat|
                l <= levels ==> tabled(
                    (#[trigger] split@[l as int])@,
                    quadtree::side((levels - l) as nat),
                    |bx: int, by: int| need(l, bx, by),
                ),
            out@.len() == level + 1,
            forall|l: nat|
                l <= level ==> tabled(
                    (#[trigger] out@[l as int])@,
                    quadtree::side((levels - l) as nat),
                    refine::level_grown(levels as nat, need, l),
                ),
        decreases levels - level,
    {
        let ghost k = level as nat;
        let ghost below = refine::level_grown(levels as nat, need, k);
        let ghost n = blocks as int;
        proof {
            lemma_level_step(levels as nat, k);
            assert(tabled(out@[k as int]@, n, below));
            assert(tabled(
                split@[(k + 1) as int]@,
                quadtree::side((levels - (k + 1)) as nat),
                |bx: int, by: int| need(k + 1, bx, by),
            ));
        }
        let next = lift(&out[level], &split[level + 1], blocks);
        proof {
            let lower = out@[k as int]@;
            let parents = n / 2;
            let f = refine::level_grown(levels as nat, need, k + 1);
            let g = |bx: int, by: int| need(k + 1, bx, by);
            assert(parents == quadtree::side((levels - (k + 1)) as nat));
            assert(tabled(split@[(k + 1) as int]@, parents, g));
            assert forall|px: int, py: int| 0 <= px < parents && 0 <= py < parents implies #[trigger] next@[py
                * parents + px] == f(px, py) by {
                assert(entry(next@, parents, px, py) == (entry(
                    split@[(k + 1) as int]@,
                    parents,
                    px,
                    py,
                ) || lifted(lower, n, n * n, px, py)));
                assert(split@[(k + 1) as int]@[py * parents + px] == g(px, py));
                refine::lemma_grown_step(levels as nat, need, k + 1, px, py);
                lemma_lifted_promoted(lower, n, levels as nat, k, below, px, py);
            }
        }
        out.push(next);
        blocks = blocks / 2;
        level = level + 1;
    }
    out
}

proof fn lemma_lifted_promoted(
    lower: Seq<bool>,
    n: int,
    levels: nat,
    k: nat,
    below: spec_fn(int, int) -> bool,
    px: int,
    py: int,
)
    requires
        k <= levels,
        n == quadtree::side((levels - k) as nat),
        tabled(lower, n, below),
    ensures
        lifted(lower, n, n * n, px, py) == refine::promoted(levels, k, below, px, py),
{
    if lifted(lower, n, n * n, px, py) {
        let (cx, cy, nx, ny) = choose|cx: int, cy: int, nx: int, ny: int|
            {
                &&& 0 <= cx < n
                &&& 0 <= cy < n
                &&& 0 <= nx < n
                &&& 0 <= ny < n
                &&& cy * n + cx < n * n
                &&& #[trigger] entry(lower, n, cx, cy)
                &&& #[trigger] quadtree::near(cx, cy, nx, ny)
                &&& nx / 2 == px
                &&& ny / 2 == py
            };
        assert(lower[cy * n + cx] == below(cx, cy));
        assert(below(cx, cy) && quadtree::near(cx, cy, nx, ny));
    }
    if refine::promoted(levels, k, below, px, py) {
        let (cx, cy, nx, ny) = choose|cx: int, cy: int, nx: int, ny: int|
            {
                &&& refine::inside(levels, k, cx, cy)
                &&& refine::inside(levels, k, nx, ny)
                &&& #[trigger] below(cx, cy)
                &&& #[trigger] quadtree::near(cx, cy, nx, ny)
                &&& nx / 2 == px
                &&& ny / 2 == py
            };
        grid::lemma_index(n, n, cx, cy);
        assert(lower[cy * n + cx] == below(cx, cy));
        assert(entry(lower, n, cx, cy) && quadtree::near(cx, cy, nx, ny));
    }
}


// ---------------------------------------------------------------------------
// The simplified surface
// ---------------------------------------------------------------------------

/// A simplified triangulation of a height field.
///
/// Holds no triangles: they follow from the split maps, and are listed on
/// demand.
pub struct Decimation {
    /// Grid dimensions this was built for.
    w: usize,
    h: usize,
    /// Padded cell extent, a power of two.
    pad: usize,
    /// `split[level][block]`: this block is subdivided.
    split: Vec<Vec<bool>>,
    /// Grid index of each surviving vertex, ascending.
    used: Vec<u32>,
    /// How many vertices come before each word of `member`.
    ranks: Vec<u32>,
    /// One bit per grid vertex: it survives.
    member: Vec<u64>,
    /// Grid indices of the surviving border, counter-clockwise from the top-left
    /// corner.
    border: Vec<u32>,
    triangles: usize,
    tolerance_mm: Real,
    max_error_mm: Real,
}

/// A block that a walk over the leaves has still to visit.
#[derive(Clone, Copy)]
struct Stop {
    level: usize,
    /// Blocks of this level along one side.
    blocks: usize,
    /// Cells of such a block along one side.
    span: usize,
    bx: usize,
    by: usize,
}

impl Stop {
    /// It is a block of the tree.
    spec fn fits(self, t: Tree) -> bool {
        &&& self.level <= t.levels
        &&& self.blocks == quadtree::side((t.levels - self.level) as nat)
        &&& self.span == quadtree::side(self.level as nat)
        &&& self.bx < self.blocks
        &&& self.by < self.blocks
    }

    /// The leaves below it.
    spec fn leaves(self, t: Tree) -> Seq<Square> {
        t.leaves_of(self.level as nat, self.bx as int, self.by as int)
    }
}

/// All of them are blocks of the tree.
spec fn piled(t: Tree, pile: Seq<Stop>) -> bool {
    forall|i: int| 0 <= i < pile.len() ==> (#[trigger] pile[i]).fits(t)
}

/// The leaves below a pile of blocks, from the top one down.
spec fn pending(t: Tree, pile: Seq<Stop>) -> Seq<Square>
    decreases pile.len(),
{
    if pile.len() == 0 {
        Seq::empty()
    } else {
        pile.last().leaves(t) + pending(t, pile.drop_last())
    }
}

/// How many blocks there are from this level down.
spec fn weight(l: nat) -> nat
    decreases l,
{
    if l == 0 {
        1
    } else {
        1 + 4 * weight((l - 1) as nat)
    }
}

/// How many blocks there can be below a pile.
spec fn load(pile: Seq<Stop>) -> nat
    decreases pile.len(),
{
    if pile.len() == 0 {
        0
    } else {
        weight(pile.last().level as nat) + load(pile.drop_last())
    }
}

proof fn lemma_push(t: Tree, pile: Seq<Stop>, at: Stop)
    ensures
        pending(t, pile.push(at)) == at.leaves(t) + pending(t, pile),
        load(pile.push(at)) == weight(at.level as nat) + load(pile),
{
    assert(pile.push(at).drop_last() =~= pile);
}

/// A walk over the leaves of a simplified surface. It remembers the blocks that
/// it has still to visit, and no leaves.
pub struct Walk {
    pile: Vec<Stop>,
}

impl Walk {
    /// The walk is one over this surface.
    pub closed spec fn ready(self, d: Decimation) -> bool {
        d.shaped() && piled(d.tree(), self.pile@)
    }

    /// The leaves that are still to come.
    pub closed spec fn ahead(self, d: Decimation) -> Seq<Square> {
        pending(d.tree(), self.pile@)
    }

    /// The next leaf, as long as there is one.
    pub fn next(&mut self, d: &Decimation) -> (r: Option<Leaf>)
        requires
            old(self).ready(*d),
        ensures
            final(self).ready(*d),
            match r {
                None => old(self).ahead(*d).len() == 0 && final(self).ahead(*d).len() == 0,
                Some(leaf) => old(self).ahead(*d) == seq![leaf.square()] + final(self).ahead(*d),
            },
    {
        let ghost t = d.tree();
        let ghost whole = self.ahead(*d);
        while self.pile.len() > 0
            invariant
                t == d.tree(),
                self.ready(*d),
                self.ahead(*d) == whole,
                whole == old(self).ahead(*d),
            decreases load(self.pile@),
        {
            let ghost was = self.pile@;
            let at = match self.pile.pop() {
                Some(at) => at,
                None => {
                    return None;
                },
            };
            assert(self.pile@ =~= was.drop_last());
            if let Some(leaf) = d.descend(at, &mut self.pile) {
                return Some(leaf);
            }
        }
        None
    }
}

/// The grid indices of the surviving border.
pub open spec fn border_indices(t: Tree) -> Seq<u32> {
    Seq::new(t.border().len(), |k: int| (t.border()[k].1 * t.w() + t.border()[k].0) as u32)
}

/// The bits that mark the vertices of a simplified surface.
spec fn marks(member: Seq<u64>, t: Tree) -> bool {
    &&& member.len() == t.w() * t.h() / 64 + 1
    &&& forall|k: int|
        0 <= k < 64 * member.len() ==> #[trigger] bits::holds(member, k) == t.keeps(k)
}

/// The vertices in order.
spec fn lists(used: Seq<u32>, t: Tree, n: nat) -> bool {
    &&& used.len() == t.rank(n)
    &&& forall|k: nat|
        k < n && #[trigger] t.keeps(k as int) ==> t.rank(k) < used.len()
            && used[t.rank(k) as int] == k
    &&& forall|c: int|
        0 <= c < used.len() ==> (#[trigger] used[c]) < n && t.keeps(used[c] as int) && t.rank(
            used[c] as nat,
        ) == c
}

impl Decimation {
    /// Which blocks are subdivided.
    pub closed spec fn tree(self) -> Tree {
        Tree {
            cw: self.w - 1,
            ch: self.h - 1,
            levels: (self.split@.len() - 1) as nat,
            split: Seq::new(self.split@.len(), |l: int| self.split@[l]@),
        }
    }

    /// The split maps are complete and fit together.
    spec fn shaped(self) -> bool {
        &&& self.w >= 2
        &&& self.h >= 2
        &&& fits(self.w as int, self.h as int)
        &&& self.split@.len() >= 1
        &&& self.pad == quadtree::side(self.tree().levels)
        &&& self.pad * self.pad <= usize::MAX
        &&& forall|l: int|
            0 <= l < self.split@.len() ==> (#[trigger] self.split@[l])@.len() == quadtree::side(
                (self.tree().levels - l) as nat,
            ) * quadtree::side((self.tree().levels - l) as nat)
        &&& self.tree().wf()
    }

    /// Everything that is stored follows from the split maps.
    pub closed spec fn wf(self) -> bool {
        &&& self.shaped()
        &&& marks(self.member@, self.tree())
        &&& self.ranks@.len() == self.member@.len()
        &&& forall|j: int|
            0 <= j < self.ranks@.len() ==> #[trigger] self.ranks@[j] == self.tree().rank(
                (64 * j) as nat,
            )
        &&& lists(self.used@, self.tree(), (self.w * self.h) as nat)
        &&& self.border@ == border_indices(self.tree())
        &&& self.triangles == self.tree().faces().len()
    }

    /// The tolerance that was asked for.
    pub closed spec fn tolerance(self) -> Real {
        self.tolerance_mm
    }

    /// The deviation that was reached.
    pub closed spec fn error(self) -> Real {
        self.max_error_mm
    }

    /// What the rest of the library may rely on.
    pub proof fn lemma_wf(self)
        requires
            self.wf(),
        ensures
            self.tree().wf(),
            self.tree().cw >= 1,
            self.tree().ch >= 1,
            fits(self.tree().w(), self.tree().h()),
    {
    }

    /// Is this block subdivided?
    fn is_split(&self, level: usize, blocks: usize, bx: usize, by: usize) -> (r: bool)
        requires
            self.shaped(),
            level < self.split@.len(),
            blocks == quadtree::side((self.tree().levels - level) as nat),
            bx < blocks,
            by < blocks,
        ensures
            r == self.tree().cut(level as nat, bx as int, by as int),
    {
        proof {
            grid::lemma_index(blocks as int, blocks as int, bx as int, by as int);
            assert(self.split@[level as int]@.len() == blocks * blocks);
            assert(self.split@[level as int].len() == self.split@[level as int]@.len());
        }
        self.split[level][by * blocks + bx]
    }

    /// Visit one block: a leaf is handed out, and the quarters of a subdivided
    /// block are put on the pile, the first on top.
    #[verifier::rlimit(40)]
    #[verifier::spinoff_prover]
    fn descend(&self, at: Stop, pile: &mut Vec<Stop>) -> (r: Option<Leaf>)
        requires
            self.shaped(),
            at.fits(self.tree()),
            piled(self.tree(), old(pile)@),
        ensures
            piled(self.tree(), final(pile)@),
            match r {
                Some(leaf) => {
                    &&& final(pile)@ == old(pile)@
                    &&& at.leaves(self.tree()) == seq![leaf.square()]
                },
                None => {
                    &&& pending(self.tree(), final(pile)@) == at.leaves(self.tree()) + pending(
                        self.tree(),
                        old(pile)@,
                    )
                    &&& load(final(pile)@) < load(old(pile)@) + weight(at.level as nat)
                },
            },
    {
        let Stop { level, blocks, span, bx, by } = at;
        let ghost t = self.tree();
        let ghost l = level as nat;
        let ghost was = pile@;
        proof {
            quadtree::lemma_side(l);
            quadtree::lemma_side((t.levels - l) as nat);
            power2::lemma_pow2_adds(l, (t.levels - l) as nat);
            assert(span * blocks == self.pad);
            assert(self.pad <= self.pad * self.pad) by (nonlinear_arith)
                requires
                    self.pad >= 1,
            ;
            assert(bx * span + span <= span * blocks) by (nonlinear_arith)
                requires
                    bx < blocks,
                    span >= 0,
            ;
            assert(by * span + span <= span * blocks) by (nonlinear_arith)
                requires
                    by < blocks,
                    span >= 0,
            ;
            assert(0 <= bx * span && 0 <= by * span) by (nonlinear_arith)
                requires
                    0 <= bx,
                    0 <= by,
                    0 <= span,
            ;
        }
        let x0: usize = bx * span;
        let y0: usize = by * span;
        // Blocks entirely outside the real grid contribute nothing.
        if x0 >= self.w - 1 || y0 >= self.h - 1 {
            assert(pending(t, was) =~= Seq::empty() + pending(t, was));
            return None;
        }
        if level > 0 && self.is_split(level, blocks, bx, by) {
            proof {
                assert((t.levels - (l - 1)) as nat == (t.levels - l) as nat + 1);
                assert(blocks * 2 <= self.pad) by (nonlinear_arith)
                    requires
                        span * blocks == self.pad,
                        span >= 2,
                        blocks >= 1,
                ;
            }
            let near = Stop { level: level - 1, blocks: 2 * blocks, span: span / 2, bx: 2 * bx, by: 2 * by };
            let first = near;
            let second = Stop { bx: 2 * bx + 1, ..near };
            let third = Stop { by: 2 * by + 1, ..near };
            let fourth = Stop { bx: 2 * bx + 1, by: 2 * by + 1, ..near };
            pile.push(fourth);
            pile.push(third);
            pile.push(second);
            pile.push(first);
            proof {
                let a = first.leaves(t);
                let b = second.leaves(t);
                let c = third.leaves(t);
                let d = fourth.leaves(t);
                lemma_push(t, was, fourth);
                lemma_push(t, was.push(fourth), third);
                lemma_push(t, was.push(fourth).push(third), second);
                lemma_push(t, was.push(fourth).push(third).push(second), first);
                assert(a + (b + (c + (d + pending(t, was)))) =~= (a + b + c + d) + pending(t, was));
            }
            return None;
        }
        // A leaf stitches to any neighbour that is one level finer.
        let left: bool = bx > 0 && self.is_split(level, blocks, bx - 1, by);
        let bottom: bool = by + 1 < blocks && self.is_split(level, blocks, bx, by + 1);
        let right: bool = bx + 1 < blocks && self.is_split(level, blocks, bx + 1, by);
        let top: bool = by > 0 && self.is_split(level, blocks, bx, by - 1);
        let leaf = Leaf { x0, y0, span, stitches: [left, bottom, right, top] };
        assert(leaf.square() == t.square(l, bx as int, by as int));
        Some(leaf)
    }

    /// The walk over all leaves, before its first step.
    fn set_out(&self) -> (r: Walk)
        requires
            self.shaped(),
        ensures
            r.ready(*self),
            r.ahead(*self) == self.tree().leaves(),
    {
        let top = Stop { level: self.split.len() - 1, blocks: 1, span: self.pad, bx: 0, by: 0 };
        let mut pile: Vec<Stop> = Vec::new();
        pile.push(top);
        proof {
            let t = self.tree();
            quadtree::lemma_side_zero();
            assert((t.levels - (self.split@.len() - 1)) as nat == 0);
            lemma_push(t, Seq::empty(), top);
            assert(pile@ =~= Seq::<Stop>::empty().push(top));
            assert(t.leaves() + pending(t, Seq::empty()) =~= t.leaves());
        }
        Walk { pile }
    }

    /// The walk over all leaves, before its first step.
    pub fn walk(&self) -> (r: Walk)
        requires
            self.wf(),
        ensures
            r.ready(*self),
            r.ahead(*self) == self.tree().leaves(),
    {
        self.set_out()
    }

    /// List every leaf of the simplified surface, in a fixed order.
    fn list_leaves(&self, visit: &mut Vec<Leaf>)
        requires
            self.shaped(),
        ensures
            squares(final(visit)@) == squares(old(visit)@) + self.tree().leaves(),
    {
        let ghost was = squares(visit@);
        let ghost q = self.tree().leaves();
        let mut walk = self.set_out();
        let mut more: bool = true;
        assert(was + q =~= squares(visit@) + walk.ahead(*self));
        while more
            invariant
                walk.ready(*self),
                was + q == squares(visit@) + walk.ahead(*self),
                !more ==> walk.ahead(*self).len() == 0,
            decreases walk.ahead(*self).len() + (if more {
                1int
            } else {
                0
            }),
        {
            let ghost before = squares(visit@);
            let ghost rest = walk.ahead(*self);
            match walk.next(self) {
                None => {
                    more = false;
                },
                Some(leaf) => {
                    visit.push(leaf);
                    assert(squares(visit@) =~= before + seq![leaf.square()]);
                    assert(before + rest =~= squares(visit@) + walk.ahead(*self));
                },
            }
        }
        assert(squares(visit@) =~= was + q);
    }

    /// Visit every leaf of the simplified surface, in a fixed order.
    pub fn for_each_leaf(&self, visit: &mut Vec<Leaf>)
        requires
            self.wf(),
        ensures
            squares(final(visit)@) == squares(old(visit)@) + self.tree().leaves(),
    {
        self.list_leaves(visit);
    }

    /// Does this grid vertex survive?
    pub fn contains(&self, index: u32) -> (r: bool)
        requires
            self.wf(),
            index < 64 * (self.tree().w() * self.tree().h() / 64 + 1),
        ensures
            r == self.tree().keeps(index as int),
    {
        bits::contains(&self.member, index)
    }

    /// Grid index to position in the surviving vertex list.
    pub fn compact(&self, index: u32) -> (r: u32)
        requires
            self.wf(),
            index < 64 * (self.tree().w() * self.tree().h() / 64 + 1),
        ensures
            r == self.tree().rank(index as nat),
    {
        let word: usize = (index / 64) as usize;
        let bit: u32 = index % 64;
        proof {
            let t = self.tree();
            lemma_rank_word(self.member@, t, word as int, bit as nat);
            lemma_rank_bound(t, index as nat);
        }
        self.ranks[word] + bits::count_below(self.member[word], bit)
    }

    /// Position in the surviving vertex list to grid index.
    pub fn grid(&self, compact: u32) -> (r: u32)
        requires
            self.wf(),
            compact < self.tree().vertex_count(),
        ensures
            self.tree().keeps(r as int),
            self.tree().rank(r as nat) == compact,
    {
        proof {
            self.tree().lemma_rank_total();
        }
        self.used[compact as usize]
    }

    pub fn vertices(&self) -> (r: usize)
        requires
            self.wf(),
        ensures
            r == self.tree().vertex_count(),
    {
        proof {
            self.tree().lemma_rank_total();
        }
        self.used.len()
    }

    pub fn triangles(&self) -> (r: usize)
        requires
            self.wf(),
        ensures
            r == self.tree().faces().len(),
    {
        self.triangles
    }

    /// The surviving border as grid indices, counter-clockwise from the top-left
    /// corner.
    pub fn border(&self) -> (r: &Vec<u32>)
        requires
            self.wf(),
        ensures
            r@ == border_indices(self.tree()),
    {
        &self.border
    }

    pub fn tolerance_mm(&self) -> (r: Real)
        ensures
            r == self.tolerance(),
    {
        self.tolerance_mm
    }

    /// The deviation actually achieved.
    pub fn max_error_mm(&self) -> (r: Real)
        ensures
            r == self.error(),
    {
        self.max_error_mm
    }
}

proof fn lemma_rank_word(member: Seq<u64>, t: Tree, j: int, b: nat)
    requires
        marks(member, t),
        0 <= j < member.len(),
        b <= 64,
    ensures
        t.rank((64 * j + b) as nat) == t.rank((64 * j) as nat) + bits::ones(member[j], b),
    decreases b,
{
    if b > 0 {
        lemma_rank_word(member, t, j, (b - 1) as nat);
        let k = 64 * j + b - 1;
        assert(bits::holds(member, k) == t.keeps(k));
        assert(k / 64 == j && k % 64 == b - 1);
    }
}

proof fn lemma_rank_bound(t: Tree, n: nat)
    requires
        t.w() * t.h() >= 0,
    ensures
        t.rank(n) <= t.w() * t.h(),
        n >= t.w() * t.h() ==> t.rank(n) == t.rank((t.w() * t.h()) as nat),
    decreases n,
{
    let total = (t.w() * t.h()) as nat;
    if n <= total {
        t.lemma_rank_order(0, n);
    } else {
        lemma_rank_bound(t, (n - 1) as nat);
    }
}


// ---------------------------------------------------------------------------
// Collecting what survives
// ---------------------------------------------------------------------------

/// A leaf that lies in a `w × h` grid.
spec fn leaf_inside(leaf: Leaf, w: int, h: int) -> bool {
    &&& leaf.square().wf()
    &&& leaf.x0 + leaf.span < w
    &&& leaf.y0 + leaf.span < h
}

/// Grid index `k` is a vertex of one of the first `n` squares.
spec fn marked(q: Seq<Square>, n: int, w: int, h: int, k: int) -> bool {
    0 <= k < w * h && exists|i: int| 0 <= i < n && (#[trigger] q[i]).vertex((k % w, k / w))
}

fn mark(member: &mut Vec<u64>, w: usize, h: usize, x: usize, y: usize)
    requires
        w * h <= u32::MAX,
        x < w,
        y < h,
        old(member)@.len() == w * h / 64 + 1,
    ensures
        final(member)@.len() == old(member)@.len(),
        forall|k: int|
            0 <= k < 64 * old(member)@.len() ==> #[trigger] bits::holds(final(member)@, k) == (
            bits::holds(old(member)@, k) || (k < w * h && (k % (w as int), k / (w as int)) == (
                x as int,
                y as int,
            ))),
{
    let ghost was = member@;
    proof {
        grid::lemma_index(w as int, h as int, x as int, y as int);
    }
    let index: u32 = (y * w + x) as u32;
    bits::insert(member, index);
    assert forall|k: int| 0 <= k < 64 * was.len() implies #[trigger] bits::holds(member@, k) == (
    bits::holds(was, k) || (k < w * h && (k % (w as int), k / (w as int)) == (x as int, y as int))) by {
        if k < w * h {
            grid::lemma_cell(w as int, h as int, k);
        }
    }
}

/// Mark the vertices of one leaf.
fn mark_leaf(member: &mut Vec<u64>, w: usize, h: usize, leaf: &Leaf)
    requires
        w * h <= u32::MAX,
        leaf_inside(*leaf, w as int, h as int),
        old(member)@.len() == w * h / 64 + 1,
    ensures
        final(member)@.len() == old(member)@.len(),
        forall|k: int|
            0 <= k < 64 * old(member)@.len() ==> #[trigger] bits::holds(final(member)@, k) == (
            bits::holds(old(member)@, k) || (k < w * h && leaf.square().vertex(
                (k % (w as int), k / (w as int)),
            ))),
{
    let x0: usize = leaf.x0;
    let y0: usize = leaf.y0;
    let span: usize = leaf.span;
    mark(member, w, h, x0, y0);
    mark(member, w, h, x0 + span, y0);
    mark(member, w, h, x0, y0 + span);
    mark(member, w, h, x0 + span, y0 + span);
    if span > 1 {
        let half: usize = span / 2;
        mark(member, w, h, x0 + half, y0 + half);
        if leaf.stitches[0] {
            mark(member, w, h, x0, y0 + half);
        }
        if leaf.stitches[1] {
            mark(member, w, h, x0 + half, y0 + span);
        }
        if leaf.stitches[2] {
            mark(member, w, h, x0 + span, y0 + half);
        }
        if leaf.stitches[3] {
            mark(member, w, h, x0 + half, y0);
        }
    }
}

/// Mark the vertices of all leaves.
fn mark_leaves(leaves: &Vec<Leaf>, w: usize, h: usize) -> (member: Vec<u64>)
    requires
        w * h <= u32::MAX,
        forall|i: int|
            0 <= i < leaves@.len() ==> leaf_inside(#[trigger] leaves@[i], w as int, h as int),
    ensures
        member@.len() == w * h / 64 + 1,
        forall|k: int|
            0 <= k < 64 * member@.len() ==> #[trigger] bits::holds(member@, k) == marked(
                squares(leaves@),
                leaves@.len() as int,
                w as int,
                h as int,
                k,
            ),
{
    let ghost q = squares(leaves@);
    let words: usize = w * h / 64 + 1;
    let mut member: Vec<u64> = Vec::with_capacity(words);
    let mut j: usize = 0;
    while j < words
        invariant
            j <= words,
            member@ == Seq::new(j as nat, |j: int| 0u64),
        decreases words - j,
    {
        member.push(0);
        j = j + 1;
        assert(member@ =~= Seq::new(j as nat, |j: int| 0u64));
    }
    assert forall|k: int| 0 <= k < 64 * member@.len() implies !#[trigger] bits::holds(
        member@,
        k,
    ) by {
        let b: u64 = (k % 64) as u64;
        assert((0u64 >> b) & 1u64 == 0u64) by (bit_vector);
    }
    let mut n: usize = 0;
    while n < leaves.len()
        invariant
            w * h <= u32::MAX,
            q == squares(leaves@),
            forall|i: int|
                0 <= i < leaves@.len() ==> leaf_inside(#[trigger] leaves@[i], w as int, h as int),
            n <= leaves@.len(),
            member@.len() == w * h / 64 + 1,
            forall|k: int|
                0 <= k < 64 * member@.len() ==> #[trigger] bits::holds(member@, k) == marked(
                    q,
                    n as int,
                    w as int,
                    h as int,
                    k,
                ),
        decreases leaves@.len() - n,
    {
        let ghost was = member@;
        mark_leaf(&mut member, w, h, &leaves[n]);
        proof {
            assert forall|k: int| 0 <= k < 64 * member@.len() implies #[trigger] bits::holds(
                member@,
                k,
            ) == marked(q, n + 1, w as int, h as int, k) by {
                assert(bits::holds(was, k) == marked(q, n as int, w as int, h as int, k));
                let p = (k % (w as int), k / (w as int));
                if marked(q, n as int, w as int, h as int, k) {
                    let i = choose|i: int| 0 <= i < n && (#[trigger] q[i]).vertex(p);
                    assert(q[i].vertex(p));
                }
                assert(q[n as int] == leaves@[n as int].square());
            }
        }
        n = n + 1;
    }
    member
}

/// Marking the leaves of a tree marks its vertices.
proof fn lemma_marked(t: Tree, k: int)
    requires
        t.wf(),
        k >= 0,
    ensures
        marked(t.leaves(), t.leaves().len() as int, t.w(), t.h(), k) == t.keeps(k),
{
    t.lemma_leaves();
    let q = t.leaves();
    let p = (k % t.w(), k / t.w());
    if k < t.w() * t.h() {
        if t.used(p) {
            let (cx, cy) = choose|cx: int, cy: int|
                t.cell(cx, cy) && (#[trigger] t.cover(cx, cy)).vertex(p);
            assert(q.contains(t.cover(cx, cy)));
            let i = choose|i: int| 0 <= i < q.len() && q[i] == t.cover(cx, cy);
            assert(q[i].vertex(p));
        }
        if marked(q, q.len() as int, t.w(), t.h(), k) {
            let i = choose|i: int| 0 <= i < q.len() && (#[trigger] q[i]).vertex(p);
            assert(t.cover(q[i].x, q[i].y).vertex(p));
        }
    }
}

/// The surviving vertices, ascending.
fn list_used(member: &Vec<u64>, n: u32, Ghost(t): Ghost<Tree>) -> (used: Vec<u32>)
    requires
        marks(member@, t),
        n == t.w() * t.h(),
    ensures
        lists(used@, t, n as nat),
{
    let mut used: Vec<u32> = Vec::new();
    let mut k: u32 = 0;
    while k < n
        invariant
            marks(member@, t),
            n == t.w() * t.h(),
            k <= n,
            lists(used@, t, k as nat),
        decreases n - k,
    {
        let ghost was = used@;
        assert(bits::holds(member@, k as int) == t.keeps(k as int));
        if bits::contains(member, k) {
            used.push(k);
        }
        proof {
            assert forall|j: nat| j < k + 1 && #[trigger] t.keeps(j as int) implies t.rank(j)
                < used@.len() && used@[t.rank(j) as int] == j by {
                if j < k {
                    assert(t.rank(j) < was.len());
                }
            }
        }
        k = k + 1;
    }
    used
}

/// How many vertices come before each word.
fn list_ranks(member: &Vec<u64>, Ghost(t): Ghost<Tree>) -> (ranks: Vec<u32>)
    requires
        marks(member@, t),
        0 <= t.w() * t.h() <= u32::MAX,
    ensures
        ranks@.len() == member@.len(),
        forall|j: int|
            0 <= j < ranks@.len() ==> #[trigger] ranks@[j] == t.rank((64 * j) as nat),
{
    let mut ranks: Vec<u32> = Vec::with_capacity(member.len());
    let mut running: u32 = 0;
    let mut j: usize = 0;
    while j < member.len()
        invariant
            marks(member@, t),
            0 <= t.w() * t.h() <= u32::MAX,
            j <= member@.len(),
            ranks@.len() == j,
            running == t.rank((64 * j) as nat),
            forall|i: int|
                0 <= i < ranks@.len() ==> #[trigger] ranks@[i] == t.rank((64 * i) as nat),
        decreases member@.len() - j,
    {
        ranks.push(running);
        proof {
            lemma_rank_word(member@, t, j as int, 64);
            lemma_rank_bound(t, (64 * j + 64) as nat);
        }
        running = running + member[j].count_ones();
        j = j + 1;
    }
    ranks
}

/// The border, in the order that the frame expects. Whatever survived is what
/// the frame is built on.
fn list_border(member: &Vec<u64>, w: usize, h: usize, Ghost(t): Ghost<Tree>) -> (border: Vec<u32>)
    requires
        marks(member@, t),
        t.wf(),
        w >= 2,
        h >= 2,
        w == t.w(),
        h == t.h(),
        w * h <= u32::MAX,
        2 * (w * h) <= usize::MAX,
    ensures
        border@ == border_indices(t),
{
    proof {
        assert(w + h <= w * h) by (nonlinear_arith)
            requires
                w >= 2,
                h >= 2,
        ;
    }
    let total: usize = 2 * (w + h) - 4;
    let mut border: Vec<u32> = Vec::new();
    let mut k: usize = 0;
    while k < total
        invariant
            marks(member@, t),
            t.wf(),
            w >= 2,
            h >= 2,
            w == t.w(),
            h == t.h(),
            w * h <= u32::MAX,
            2 * (w + h) <= usize::MAX,
            total == 2 * (w + h) - 4,
            k <= total,
            border@ == Seq::new(
                t.outline(k as nat).len(),
                |i: int|
                    (t.outline(k as nat)[i].1 * t.w() + t.outline(k as nat)[i].0) as u32,
            ),
        decreases total - k,
    {
        let (x, y) = grid::border_point(w, h, k);
        proof {
            grid::lemma_index(w as int, h as int, x as int, y as int);
            assert(t.around(k as int) == (x as int, y as int));
        }
        let index: u32 = (y * w + x) as u32;
        assert(bits::holds(member@, index as int) == t.keeps(index as int));
        if bits::contains(member, index) {
            border.push(index);
        }
        k = k + 1;
        assert(border@ =~= Seq::new(
            t.outline(k as nat).len(),
            |i: int| (t.outline(k as nat)[i].1 * t.w() + t.outline(k as nat)[i].0) as u32,
        ));
    }
    assert(total == t.outline_len());
    border
}

/// Every triangle that the square could be put down as is near its samples.
spec fn fits_samples<F: Fn(Op, Real, Real) -> Real>(
    arith: F,
    field: HeightField,
    tolerance: Real,
    q: Square,
) -> bool {
    q.wf() && (q.span > 1 ==> !misfits(arith, field, q, tolerance))
}

/// What is not subdivided fits.
proof fn lemma_leaf_fits<F: Fn(Op, Real, Real) -> Real>(
    arith: F,
    field: HeightField,
    tolerance: Real,
    t: Tree,
    i: int,
)
    requires
        t.wf(),
        t.w() == field.w,
        t.h() == field.h,
        t.grown_from(needed(arith, field, tolerance)),
        0 <= i < t.leaves().len(),
    ensures
        fits_samples(arith, field, tolerance, t.leaves()[i]),
{
    t.lemma_leaves();
    let q = t.leaves()[i];
    assert(q == t.cover(q.x, q.y));
    let l = t.level(q.x, q.y);
    let s = quadtree::side(l);
    t.lemma_cover(q.x, q.y);
    quadtree::lemma_side(l);
    quadtree::lemma_side(t.levels);
    if l > 0 {
        t.lemma_level(q.x, q.y);
        t.lemma_node(l, q.x, q.y);
        let (bx, by) = (q.x / s, q.y / s);
        assert(!t.cut(l, bx, by));
        let need = needed(arith, field, tolerance);
        refine::lemma_grown_step(t.levels, need, l, bx, by);
        assert(!need(l, bx, by));
        let b = block(l, bx, by);
        assert(q.x == b.x && q.y == b.y && q.span == b.span);
        if misfits(arith, field, q, tolerance) {
            let n = choose|n: int| #[trigger]
                fit::counts(q, true, n) && fit::too_far(
                    arith,
                    field,
                    q.wedge(n / 3, n % 3),
                    tolerance,
                );
            assert(fit::counts(b, true, n));
            assert(q.wedge(n / 3, n % 3) == b.wedge(n / 3, n % 3));
            assert(misfits(arith, field, b, tolerance));
        }
    } else {
        quadtree::lemma_side_zero();
    }
}

/// A square of the simplified surface has a corner, where it is exact.
proof fn lemma_some_corner<F: Fn(Op, Real, Real) -> Real>(arith: F, field: HeightField, t: Tree)
    requires
        t.wf(),
    ensures
        attains(arith, field, t.leaves(), Real { bits: ZERO }),
{
    t.lemma_leaves();
    t.lemma_cover(0, 0);
    let q = t.leaves();
    assert(q.contains(t.cover(0, 0)));
    let i = choose|i: int| 0 <= i < q.len() && q[i] == t.cover(0, 0);
    q[i].lemma_face_count();
    let f = q[i].faces()[0];
    if q[i].span == 1 {
        q[i].lemma_cell_area(0);
    } else {
        let at = q[i].lemma_face_is_wedge(0);
        q[i].lemma_wedge(at.0, at.1);
    }
    triangle::lemma_corners(f);
    assert(fit::gap(arith, field, f, f[0]) == (Real { bits: ZERO }));
    assert(fit::reached(arith, field, f, Real { bits: ZERO }));
}

/// How far the triangles of a leaf lie from the samples.
fn leaf_error<F: Fn(Op, Real, Real) -> Real>(
    field: &HeightField,
    leaf: &Leaf,
    tolerance: Real,
    arith: &F,
) -> (r: Real)
    requires
        number::steady(*arith),
        field.wf(),
        field.w * field.h <= u32::MAX,
        leaf_inside(*leaf, field.w as int, field.h as int),
        fits_samples(*arith, *field, tolerance, leaf.square()),
    ensures
        !r.nan(),
        forall|k: int|
            0 <= k < leaf.square().faces().len() ==> fit::covered(
                *arith,
                *field,
                #[trigger] leaf.square().faces()[k],
                r,
            ),
        exists|k: int|
            0 <= k < leaf.square().faces().len() && fit::reached(
                *arith,
                *field,
                #[trigger] leaf.square().faces()[k],
                r,
            ),
{
    let ghost q = leaf.square();
    if leaf.span == 1 {
        let none = Real { bits: ZERO };
        proof {
            q.lemma_face_count();
            assert forall|k: int| 0 <= k < q.faces().len() implies fit::covered(
                *arith,
                *field,
                #[trigger] q.faces()[k],
                none,
            ) by {
                let f = q.faces()[k];
                assert forall|p: Point| triangle::on(f, p) implies fit::covers(
                    none,
                    #[trigger] fit::gap(*arith, *field, f, p),
                ) by {
                    q.lemma_cell_points(k, p);
                }
            }
            let f = q.faces()[0];
            q.lemma_cell_area(0);
            triangle::lemma_corners(f);
            assert(fit::gap(*arith, *field, f, f[0]) == none);
            assert(fit::reached(*arith, *field, f, none));
        }
        return none;
    }
    proof {
        lemma_span(*field, leaf.x0 as int, leaf.y0 as int, leaf.span as int);
    }
    let r = fit::fan_error(
        field,
        leaf.x0,
        leaf.y0,
        leaf.span,
        leaf.stitches,
        false,
        Ghost(q),
        arith,
    );
    proof {
        let n = choose|n: int| #[trigger]
            fit::counts(q, false, n) && fit::reached(*arith, *field, q.wedge(n / 3, n % 3), r);
        let f = q.wedge(n / 3, n % 3);
        let j = q.lemma_wedge_is_face(n / 3, n % 3);
        assert(q.faces()[j] == f);
        assert(fit::counts(q, true, n));
        assert(!fit::too_far(*arith, *field, f, tolerance));
        let p = choose|p: Point|
            triangle::on(f, p) && #[trigger] fit::gap(*arith, *field, f, p) == r;
        assert(!fit::unfit(fit::gap(*arith, *field, f, p), tolerance));
        assert forall|k: int| 0 <= k < q.faces().len() implies fit::covered(
            *arith,
            *field,
            #[trigger] q.faces()[k],
            r,
        ) by {
            let at = q.lemma_face_is_wedge(k);
            let m = 3 * at.0 + at.1;
            assert(m / 3 == at.0 && m % 3 == at.1);
            assert(fit::counts(q, false, m));
        }
    }
    r
}

proof fn lemma_bounds_step<F: Fn(Op, Real, Real) -> Real>(
    arith: F,
    field: HeightField,
    q: Seq<Square>,
    n: int,
    was: Real,
    e: Real,
)
    requires
        0 <= n < q.len(),
        !was.nan(),
        !e.nan(),
        bounds(arith, field, q, n, was),
        attains(arith, field, q, was),
        forall|k: int|
            0 <= k < q[n].faces().len() ==> fit::covered(
                arith,
                field,
                #[trigger] q[n].faces()[k],
                e,
            ),
        exists|k: int|
            0 <= k < q[n].faces().len() && fit::reached(
                arith,
                field,
                #[trigger] q[n].faces()[k],
                e,
            ),
    ensures
        bounds(arith, field, q, n + 1, was.larger(e)),
        attains(arith, field, q, was.larger(e)),
{
    let w = was.larger(e);
    assert forall|i: int, k: int| 0 <= i < n + 1 && 0 <= k < q[i].faces().len() implies fit::covered(
        arith,
        field,
        #[trigger] q[i].faces()[k],
        w,
    ) by {
        let f = q[i].faces()[k];
        let old = if i < n {
            was
        } else {
            e
        };
        assert(fit::covered(arith, field, f, old));
        assert forall|p: Point| triangle::on(f, p) implies fit::covers(
            w,
            #[trigger] fit::gap(arith, field, f, p),
        ) by {
            assert(fit::covers(old, fit::gap(arith, field, f, p)));
        }
    }
}

proof fn lemma_farthest<F: Fn(Op, Real, Real) -> Real>(
    arith: F,
    field: HeightField,
    q: Seq<Square>,
    e: Real,
)
    requires
        !e.nan(),
        bounds(arith, field, q, q.len() as int, e),
        attains(arith, field, q, e),
    ensures
        farthest(arith, field, q, e),
{
    assert forall|i: int, k: int, p: Point|
        0 <= i < q.len() && 0 <= k < q[i].faces().len() && triangle::on(
            q[i].faces()[k],
            p,
        ) implies (#[trigger] fit::gap(arith, field, q[i].faces()[k], p)).at_most(e) by {
        assert(fit::covered(arith, field, q[i].faces()[k], e));
        assert(fit::covers(e, fit::gap(arith, field, q[i].faces()[k], p)));
    }
    let (i, k) = choose|i: int, k: int|
        0 <= i < q.len() && 0 <= k < q[i].faces().len() && fit::reached(
            arith,
            field,
            #[trigger] q[i].faces()[k],
            e,
        );
    let f = q[i].faces()[k];
    let p = choose|p: Point| triangle::on(f, p) && #[trigger] fit::gap(arith, field, f, p) == e;
    assert(fit::gap(arith, field, q[i].faces()[k], p) == e);
}

impl Decimation {
    /// The simplification of `field` that a tolerance calls for.
    pub open spec fn simplifies<F: Fn(Op, Real, Real) -> Real>(
        self,
        f: F,
        field: HeightField,
        tolerance_mm: Real,
    ) -> bool {
        &&& self.wf()
        &&& self.tree().w() == field.w
        &&& self.tree().h() == field.h
        &&& enough_levels(
            self.tree().levels,
            if field.w >= field.h {
                field.w - 1
            } else {
                field.h - 1
            },
        )
        &&& self.tree().grown_from(needed(f, field, tolerance_mm))
        &&& self.tolerance() == tolerance_mm
        &&& farthest(f, field, self.tree().leaves(), self.error())
    }

    /// Build a simplification whose surface never deviates from the height field by more
    /// than `tolerance_mm`, or `None` when simplification is switched off or
    /// there is nothing to simplify.
    pub fn build<F: Fn(Op, Real, Real) -> Real>(
        field: &HeightField,
        tolerance_mm: Real,
        arith: &F,
    ) -> (r: Option<Self>)
        requires
            number::steady(*arith),
            field.wf(),
            fits(field.w as int, field.h as int),
        ensures
            r is None <==> tolerance_mm.at_most(Real { bits: ZERO }) || field.w < 3 || field.h < 3,
            r matches Some(d) ==> d.simplifies(*arith, *field, tolerance_mm),
    {
        if tolerance_mm.le(Real { bits: ZERO }) || field.w < 3 || field.h < 3 {
            return None;
        }
        let w: usize = field.w;
        let h: usize = field.h;
        let longest: usize = if w >= h {
            w - 1
        } else {
            h - 1
        };
        let mut pad: usize = 1;
        let mut levels: usize = 0;
        proof {
            quadtree::lemma_side_zero();
            assert(4 * (longest * longest) <= usize::MAX) by {
                assert(longest * longest <= w * w || longest * longest <= h * h)
                    by (nonlinear_arith)
                    requires
                        0 <= longest,
                        longest == w - 1 || longest == h - 1,
                ;
            }
        }
        while pad < longest
            invariant
                pad == quadtree::side(levels as nat),
                longest >= 2,
                4 * (longest * longest) <= usize::MAX,
                pad < 2 * longest,
                pad >= 1,
                levels < usize::MAX,
                levels <= pad,
                levels > 0 ==> quadtree::side((levels - 1) as nat) < longest,
            decreases 2 * longest - pad,
        {
            proof {
                quadtree::lemma_side(levels as nat);
                assert(4 * longest <= 4 * (longest * longest)) by (nonlinear_arith)
                    requires
                        longest >= 1,
                ;
            }
            pad = pad * 2;
            levels = levels + 1;
        }
        proof {
            assert(pad * pad <= 4 * (longest * longest)) by (nonlinear_arith)
                requires
                    0 <= pad < 2 * longest,
            ;
        }
        let ghost need = needed(*arith, *field, tolerance_mm);
        let errors = pyramid(field, levels, pad, arith);
        let first = decide(field, &errors, levels, pad, tolerance_mm, arith);
        let split = balance(&first, levels, pad, Ghost(need));
        let shell = Decimation {
            w,
            h,
            pad,
            split,
            used: Vec::new(),
            ranks: Vec::new(),
            member: Vec::new(),
            border: Vec::new(),
            triangles: 0,
            tolerance_mm,
            max_error_mm: Real { bits: ZERO },
        };
        let ghost t = shell.tree();
        proof {
            assert(t.levels == levels);
            assert forall|l: int| 0 <= l < split@.len() implies (#[trigger] split@[l])@.len()
                == quadtree::side((t.levels - l) as nat) * quadtree::side((t.levels - l) as nat) by {
                let k = l as nat;
                assert(split@[k as int]@.len() == quadtree::side((levels - k) as nat)
                    * quadtree::side((levels - k) as nat));
            }
            assert(t.grown_from(need)) by {
                assert forall|l: nat, bx: int, by: int| t.node(l, bx, by) implies #[trigger] t.cut(
                    l,
                    bx,
                    by,
                ) == refine::grown(t.levels, need, l, bx, by) by {
                    let f = refine::level_grown(levels as nat, need, l);
                    assert(tabled(
                        split@[l as int]@,
                        quadtree::side((levels - l) as nat),
                        f,
                    ));
                    assert(split@[l as int]@[by * t.blocks(l) + bx] == f(bx, by));
                }
            }
            t.lemma_grown_wf(need);
        }
        let mut leaves: Vec<Leaf> = Vec::new();
        shell.list_leaves(&mut leaves);
        proof {
            assert(squares(leaves@) =~= t.leaves());
            t.lemma_leaves();
            assert forall|i: int| 0 <= i < leaves@.len() implies leaf_inside(
                #[trigger] leaves@[i],
                w as int,
                h as int,
            ) by {
                let q = t.leaves()[i];
                assert(q == leaves@[i].square());
                t.lemma_cover(q.x, q.y);
            }
            t.lemma_disc();
            t.lemma_rank_total();
            lemma_rank_bound(t, (w * h) as nat);
        }
        let member = mark_leaves(&leaves, w, h);
        proof {
            assert forall|k: int| 0 <= k < 64 * member@.len() implies #[trigger] bits::holds(
                member@,
                k,
            ) == t.keeps(k) by {
                lemma_marked(t, k);
            }
        }
        let used = list_used(&member, (w * h) as u32, Ghost(t));
        let ranks = list_ranks(&member, Ghost(t));
        let border = list_border(&member, w, h, Ghost(t));
        let mut triangles: usize = 0;
        let mut reached = Real { bits: ZERO };
        proof {
            assert forall|i: int| 0 <= i < t.leaves().len() implies fits_samples(
                *arith,
                *field,
                tolerance_mm,
                #[trigger] t.leaves()[i],
            ) by {
                lemma_leaf_fits(*arith, *field, tolerance_mm, t, i);
            }
            lemma_some_corner(*arith, *field, t);
        }
        let mut n: usize = 0;
        while n < leaves.len()
            invariant
                number::steady(*arith),
                field.wf(),
                w == field.w,
                h == field.h,
                squares(leaves@) == t.leaves(),
                forall|i: int|
                    0 <= i < leaves@.len() ==> leaf_inside(
                        #[trigger] leaves@[i],
                        w as int,
                        h as int,
                    ),
                count::faces_of(t.leaves()) <= usize::MAX,
                n <= leaves@.len(),
                triangles == count::faces_of(t.leaves().take(n as int)),
                (field.w * field.h) <= u32::MAX,
                forall|i: int|
                    0 <= i < t.leaves().len() ==> fits_samples(
                        *arith,
                        *field,
                        tolerance_mm,
                        #[trigger] t.leaves()[i],
                    ),
                !reached.nan(),
                bounds(*arith, *field, t.leaves(), n as int, reached),
                attains(*arith, *field, t.leaves(), reached),
            decreases leaves@.len() - n,
        {
            let leaf = leaves[n];
            proof {
                assert(leaf_inside(leaves@[n as int], w as int, h as int));
                assert(t.leaves()[n as int] == leaf.square());
                count::lemma_faces_of_take(t.leaves(), n as int);
                count::lemma_faces_of_take(t.leaves(), n + 1);
            }
            triangles = triangles + leaf.triangles();
            let ghost was = reached;
            let e = leaf_error(field, &leaf, tolerance_mm, arith);
            reached = reached.max(e);
            proof {
                lemma_bounds_step(*arith, *field, t.leaves(), n as int, was, e);
            }
            n = n + 1;
        }
        assert(t.leaves().take(leaves@.len() as int) =~= t.leaves());
        let d = Decimation {
            w,
            h,
            pad,
            split: shell.split,
            used,
            ranks,
            member,
            border,
            triangles,
            tolerance_mm,
            max_error_mm: reached,
        };
        proof {
            assert(d.tree() == t);
            lemma_farthest(*arith, *field, t.leaves(), reached);
        }
        Some(d)
    }
}


// ---------------------------------------------------------------------------
// Triangles
// ---------------------------------------------------------------------------

/// What is reported while the triangles are listed: after each square, and at
/// the end.
pub open spec fn progress_of(t: Tree) -> Seq<Fraction> {
    let q = t.leaves();
    Seq::new(
        q.len() + 1,
        |i: int|
            if i < q.len() {
                Fraction {
                    done: count::faces_of(q.take(i + 1)) as u64,
                    total: t.faces().len() as u64,
                }
            } else {
                Fraction { done: 1, total: 1 }
            },
    )
}

/// The fan triangles over one side: two when its middle is a vertex.
spec fn fan_faces(centre: u32, from: u32, mid: u32, to: u32, stitched: bool) -> Seq<[u32; 3]> {
    if stitched {
        seq![[centre, from, mid], [centre, mid, to]]
    } else {
        seq![[centre, from, to]]
    }
}

/// The fans over the four sides are the square's triangles.
proof fn lemma_fan(
    q: Square,
    name: spec_fn(Point) -> u32,
    centre: u32,
    corner: [u32; 4],
    mid: [u32; 4],
)
    requires
        q.span != 1,
        centre == name(q.centre()),
        forall|d: int| 0 <= d < 4 ==> #[trigger] corner[d] == name(q.corner(d)),
        forall|d: int| 0 <= d < 4 ==> #[trigger] mid[d] == name(q.mid(d)),
    ensures
        fan_faces(centre, corner[0], mid[0], corner[1], q.left) + fan_faces(
            centre,
            corner[1],
            mid[1],
            corner[2],
            q.bottom,
        ) + fan_faces(centre, corner[2], mid[2], corner[3], q.right) + fan_faces(
            centre,
            corner[3],
            mid[3],
            corner[0],
            q.top,
        ) == topology::renamed_all(name, q.faces()),
{
    let (a, b, c, d) = (q.side_faces(0), q.side_faces(1), q.side_faces(2), q.side_faces(3));
    assert(corner[0] == name(q.corner(0)));
    assert(corner[1] == name(q.corner(1)));
    assert(corner[2] == name(q.corner(2)));
    assert(corner[3] == name(q.corner(3)));
    assert(mid[0] == name(q.mid(0)));
    assert(mid[1] == name(q.mid(1)));
    assert(mid[2] == name(q.mid(2)));
    assert(mid[3] == name(q.mid(3)));
    assert(q.corner(4) == q.corner(0));
    assert(fan_faces(centre, corner[0], mid[0], corner[1], q.left) =~= topology::renamed_all(
        name,
        a,
    ));
    assert(fan_faces(centre, corner[1], mid[1], corner[2], q.bottom) =~= topology::renamed_all(
        name,
        b,
    ));
    assert(fan_faces(centre, corner[2], mid[2], corner[3], q.right) =~= topology::renamed_all(
        name,
        c,
    ));
    assert(fan_faces(centre, corner[3], mid[3], corner[0], q.top) =~= topology::renamed_all(
        name,
        d,
    ));
    topology::lemma_renamed_concat(name, a, b);
    topology::lemma_renamed_concat(name, a + b, c);
    topology::lemma_renamed_concat(name, a + b + c, d);
}

fn fan_side(
    emit: &mut Vec<[u32; 3]>,
    centre: u32,
    from: u32,
    mid: u32,
    to: u32,
    stitched: bool,
)
    ensures
        final(emit)@ == old(emit)@ + fan_faces(centre, from, mid, to, stitched),
{
    if stitched {
        emit.push([centre, from, mid]);
        emit.push([centre, mid, to]);
    } else {
        emit.push([centre, from, to]);
    }
    assert(emit@ =~= old(emit)@ + fan_faces(centre, from, mid, to, stitched));
}

impl Decimation {
    /// The number of the vertex at a grid point.
    fn vertex_at(&self, x: usize, y: usize) -> (r: u32)
        requires
            self.wf(),
            x < self.tree().w(),
            y < self.tree().h(),
        ensures
            r == (self.tree().number())((x as int, y as int)),
    {
        proof {
            grid::lemma_index(self.w as int, self.h as int, x as int, y as int);
            let k = y * self.w + x;
            assert(k < 64 * (self.tree().w() * self.tree().h() / 64 + 1));
        }
        self.compact((y * self.w + x) as u32)
    }

    /// Emit the triangles of one leaf as vertex numbers. Wound like the
    /// full-resolution grid: normals face the viewer.
    #[verifier::rlimit(40)]
    #[verifier::spinoff_prover]
    pub fn leaf_triangles(&self, leaf: &Leaf, emit: &mut Vec<[u32; 3]>)
        requires
            self.wf(),
            self.tree().leaves().contains(leaf.square()),
        ensures
            final(emit)@ == old(emit)@ + topology::renamed_all(
                self.tree().number(),
                leaf.square().faces(),
            ),
    {
        let ghost t = self.tree();
        let ghost q = leaf.square();
        let ghost name = t.number();
        let ghost was = emit@;
        assert(q.wf() && q.x + q.span < t.w() && q.y + q.span < t.h()) by {
            t.lemma_leaves();
            let i = choose|i: int| 0 <= i < t.leaves().len() && t.leaves()[i] == q;
            assert(t.cell(t.leaves()[i].x, t.leaves()[i].y));
            t.lemma_cover(q.x, q.y);
        }
        let x0: usize = leaf.x0;
        let y0: usize = leaf.y0;
        let span: usize = leaf.span;
        let tl = self.vertex_at(x0, y0);
        let bl = self.vertex_at(x0, y0 + span);
        let br = self.vertex_at(x0 + span, y0 + span);
        let tr = self.vertex_at(x0 + span, y0);
        if span == 1 {
            emit.push([tl, bl, br]);
            emit.push([tl, br, tr]);
            assert(emit@ =~= was + topology::renamed_all(name, q.faces()));
            return;
        }
        let half: usize = span / 2;
        let centre = self.vertex_at(x0 + half, y0 + half);
        let left = self.vertex_at(x0, y0 + half);
        let bottom = self.vertex_at(x0 + half, y0 + span);
        let right = self.vertex_at(x0 + span, y0 + half);
        let top = self.vertex_at(x0 + half, y0);
        // Counter-clockwise seen from the front: down the left, right along the
        // bottom, up the right, back along the top.
        fan_side(emit, centre, tl, left, bl, leaf.stitches[0]);
        fan_side(emit, centre, bl, bottom, br, leaf.stitches[1]);
        fan_side(emit, centre, br, right, tr, leaf.stitches[2]);
        fan_side(emit, centre, tr, top, tl, leaf.stitches[3]);
        proof {
            lemma_fan(q, name, centre, [tl, bl, br, tr], [left, bottom, right, top]);
            assert(emit@ =~= was + (fan_faces(centre, tl, left, bl, q.left) + fan_faces(
                centre,
                bl,
                bottom,
                br,
                q.bottom,
            ) + fan_faces(centre, br, right, tr, q.right) + fan_faces(centre, tr, top, tl, q.top)));
        }
    }

    /// Where the triangles of leaf `n` stand in the simplified surface.
    pub proof fn lemma_leaf_triangles(self, n: int)
        requires
            self.wf(),
            0 <= n < self.tree().leaves().len(),
        ensures
            ({
                let t = self.tree();
                let q = t.leaves();
                let (from, to) = (count::faces_of(q.take(n)), count::faces_of(q.take(n + 1)));
                &&& 0 <= from <= to <= t.mesh().len()
                &&& t.mesh().subrange(from, to) == topology::renamed_all(t.number(), q[n].faces())
                &&& to == from + q[n].faces().len()
            }),
    {
        let t = self.tree();
        let q = t.leaves();
        let (from, to) = (count::faces_of(q.take(n)), count::faces_of(q.take(n + 1)));
        count::lemma_faces_at(q, n);
        count::lemma_faces_of_take(q, n);
        assert(t.faces().subrange(from, to) == q[n].faces());
        assert(t.mesh().subrange(from, to) =~= topology::renamed_all(t.number(), q[n].faces()));
    }

    /// The leaves have the triangles of the simplified surface between them.
    pub proof fn lemma_all_triangles(self)
        requires
            self.wf(),
        ensures
            count::faces_of(self.tree().leaves()) == self.tree().mesh().len(),
            progress_of(self.tree()).len() == self.tree().leaves().len() + 1,
    {
        self.tree().lemma_disc();
    }

    /// Emit the simplified surface as triangles of vertex numbers.
    pub fn for_each_triangle(&self, emit: &mut Vec<[u32; 3]>, progress: &mut Vec<Fraction>)
        requires
            self.wf(),
        ensures
            final(emit)@ == old(emit)@ + self.tree().mesh(),
            final(progress)@ == old(progress)@ + progress_of(self.tree()),
    {
        let ghost t = self.tree();
        let ghost q = t.leaves();
        let total: usize = self.triangles;
        let mut walk = self.walk();
        let mut done: usize = 0;
        let mut more: bool = true;
        let ghost mut n: int = 0;
        proof {
            self.lemma_all_triangles();
            assert(q.subrange(0, q.len() as int) =~= q);
            assert(q.take(0) =~= Seq::empty());
            assert(emit@ =~= old(emit)@ + t.mesh().take(0));
            assert(progress@ =~= old(progress)@ + progress_of(t).take(0));
        }
        while more
            invariant
                self.wf(),
                t == self.tree(),
                q == t.leaves(),
                total == t.mesh().len(),
                count::faces_of(q) == t.mesh().len(),
                walk.ready(*self),
                0 <= n <= q.len(),
                walk.ahead(*self) == q.subrange(n, q.len() as int),
                done == count::faces_of(q.take(n)),
                emit@ == old(emit)@ + t.mesh().take(done as int),
                progress@ == old(progress)@ + progress_of(t).take(n),
                !more ==> n == q.len(),
            decreases q.len() - n + (if more {
                1int
            } else {
                0
            }),
        {
            let ghost rest = walk.ahead(*self);
            match walk.next(self) {
                None => {
                    more = false;
                },
                Some(leaf) => {
                    proof {
                        assert(q.subrange(n, q.len() as int)[0] == leaf.square());
                        assert(q[n] == leaf.square());
                        assert(q.contains(leaf.square()));
                        self.lemma_leaf_triangles(n);
                        assert(walk.ahead(*self) =~= rest.subrange(1, rest.len() as int));
                        assert(walk.ahead(*self) =~= q.subrange(n + 1, q.len() as int));
                    }
                    let ghost was = done as int;
                    self.leaf_triangles(&leaf, emit);
                    done = done + leaf.triangles();
                    progress.push(Fraction { done: done as u64, total: total as u64 });
                    proof {
                        assert(t.mesh().take(was) + t.mesh().subrange(was, done as int)
                            =~= t.mesh().take(done as int));
                        assert(progress@ =~= old(progress)@ + progress_of(t).take(n + 1));
                        n = n + 1;
                    }
                },
            }
        }
        progress.push(Fraction { done: 1, total: 1 });
        proof {
            assert(q.take(n) =~= q);
            assert(t.mesh().take(done as int) =~= t.mesh());
            assert(progress@ =~= old(progress)@ + progress_of(t));
        }
    }
}

// ---------------------------------------------------------------------------
// Laws
// ---------------------------------------------------------------------------

/// Every cell of the grid lies in exactly one square of the simplified surface.
pub proof fn law_every_cell_once(d: Decimation, cx: int, cy: int)
    requires
        d.wf(),
        d.tree().cell(cx, cy),
    ensures
        exists|i: int|
            0 <= i < d.tree().leaves().len() && (#[trigger] d.tree().leaves()[i]).has_cell(cx, cy),
        forall|i: int, j: int|
            0 <= i < d.tree().leaves().len() && 0 <= j < d.tree().leaves().len() && (
            #[trigger] d.tree().leaves()[i]).has_cell(cx, cy) && (
            #[trigger] d.tree().leaves()[j]).has_cell(cx, cy) ==> i == j,
{
    let t = d.tree();
    let q = t.leaves();
    t.lemma_leaves();
    t.lemma_cover(cx, cy);
    assert(q.contains(t.cover(cx, cy)));
    let k = choose|k: int| 0 <= k < q.len() && q[k] == t.cover(cx, cy);
    assert(q[k].has_cell(cx, cy));
    assert forall|i: int, j: int|
        0 <= i < q.len() && 0 <= j < q.len() && (#[trigger] q[i]).has_cell(cx, cy) && (
        #[trigger] q[j]).has_cell(cx, cy) implies i == j by {
        t.lemma_cover(q[i].x, q[i].y);
        t.lemma_cover(q[j].x, q[j].y);
        assert(t.cover(cx, cy) == q[i]);
        assert(t.cover(cx, cy) == q[j]);
    }
}

/// Every square of the simplified surface lies inside the grid.
pub proof fn law_squares_inside(d: Decimation, i: int)
    requires
        d.wf(),
        0 <= i < d.tree().leaves().len(),
    ensures
        ({
            let q = d.tree().leaves()[i];
            0 <= q.x && 0 <= q.y && q.x + q.span <= d.tree().cw && q.y + q.span <= d.tree().ch
        }),
{
    let t = d.tree();
    t.lemma_leaves();
    let q = t.leaves()[i];
    t.lemma_cover(q.x, q.y);
}

/// Different numbers belong to different surviving vertices, and every number
/// below the vertex count belongs to one: going from a number to the grid and
/// back gives the number again.
pub proof fn law_numbers_round_trip(d: Decimation, c: u32)
    requires
        d.wf(),
        c < d.tree().vertex_count(),
    ensures
        exists|k: nat| d.tree().keeps(k as int) && #[trigger] d.tree().rank(k) == c,
        forall|a: nat, b: nat|
            d.tree().keeps(a as int) && d.tree().keeps(b as int) && #[trigger] d.tree().rank(a)
                == c && #[trigger] d.tree().rank(b) == c ==> a == b,
{
    let t = d.tree();
    t.lemma_rank_total();
    let k = d.used@[c as int] as nat;
    assert(t.keeps(k as int) && t.rank(k) == c);
    assert forall|a: nat, b: nat|
        t.keeps(a as int) && t.keeps(b as int) && #[trigger] t.rank(a) == c && #[trigger] t.rank(b)
            == c implies a == b by {
        t.lemma_rank_injective(a, b);
    }
}

/// The surviving border is a walk around the edge of the grid: every one of its
/// vertices lies on the edge and survives, none occurs twice, none is missing,
/// the four corners are all there, and they follow each other as on the way down
/// the left, along the bottom, up the right and back along the top.
pub proof fn law_border(d: Decimation)
    requires
        d.wf(),
    ensures
        d.tree().border().len() >= 4,
        d.tree().border().no_duplicates(),
        forall|k: int|
            0 <= k < d.tree().border().len() ==> {
                let p = #[trigger] d.tree().border()[k];
                &&& d.tree().used(p)
                &&& p.0 == 0 || p.1 == 0 || p.0 == d.tree().cw || p.1 == d.tree().ch
            },
        d.tree().border().contains((0, 0)),
        d.tree().border().contains((0, d.tree().ch)),
        d.tree().border().contains((d.tree().cw, d.tree().ch)),
        d.tree().border().contains((d.tree().cw, 0)),
        forall|p: Point|
            d.tree().used(p) && 0 <= p.0 <= d.tree().cw && 0 <= p.1 <= d.tree().ch && (p.0 == 0
                || p.1 == 0 || p.0 == d.tree().cw || p.1 == d.tree().ch)
                ==> #[trigger] d.tree().border().contains(p),
        forall|a: int, b: int, i: int, j: int|
            0 <= a < b < d.tree().border().len() && 0 <= i < d.tree().outline_len() && 0 <= j
                < d.tree().outline_len() && #[trigger] d.tree().border()[a]
                == #[trigger] d.tree().around(i) && #[trigger] d.tree().border()[b]
                == #[trigger] d.tree().around(j) ==> i < j,
{
    let t = d.tree();
    t.lemma_border();
    t.lemma_border_order();
    t.lemma_corners_used();
    assert(t.around(0) == (0int, 0int));
    assert(t.around(t.ch) == (0int, t.ch));
    assert(t.around(t.ch + t.cw) == (t.cw, t.ch));
    assert(t.around(2 * t.ch + t.cw) == (t.cw, 0int));
}

/// The surface never strays from the height field by more than the tolerance:
/// every sample lies under a triangle of the square it is in, and each such
/// triangle is that near to it. The deviation reported is the largest there is,
/// and at most the tolerance too.
pub proof fn law_error_bounded<F: Fn(Op, Real, Real) -> Real>(
    arith: F,
    field: HeightField,
    tolerance: Real,
    d: Decimation,
    i: int,
    p: Point,
)
    requires
        (Real { bits: ZERO }).below(tolerance),
        d.simplifies(arith, field, tolerance),
        0 <= i < d.tree().leaves().len(),
        d.tree().leaves()[i].has_point(p),
    ensures
        ({
            let faces = d.tree().leaves()[i].faces();
            &&& exists|k: int| 0 <= k < faces.len() && triangle::on(#[trigger] faces[k], p)
            &&& forall|k: int|
                0 <= k < faces.len() && triangle::on(faces[k], p) ==> {
                    let g = fit::gap(arith, field, #[trigger] faces[k], p);
                    g.at_most(tolerance) && g.at_most(d.error())
                }
        }),
        d.error().at_most(tolerance),
{
    let t = d.tree();
    let q = t.leaves();
    let faces = q[i].faces();
    lemma_leaf_fits(arith, field, tolerance, t, i);
    let at = q[i].lemma_point_on_face(p);
    assert(triangle::on(faces[at], p));
    assert forall|k: int| 0 <= k < faces.len() && triangle::on(faces[k], p) implies {
        let g = fit::gap(arith, field, #[trigger] faces[k], p);
        g.at_most(tolerance) && g.at_most(d.error())
    } by {
        lemma_gap_fits(arith, field, tolerance, q[i], k, p);
        assert(fit::gap(arith, field, q[i].faces()[k], p).at_most(d.error()));
    }
    let (j, k, o) = choose|j: int, k: int, o: Point|
        0 <= j < q.len() && 0 <= k < q[j].faces().len() && triangle::on(q[j].faces()[k], o)
            && #[trigger] fit::gap(arith, field, q[j].faces()[k], o) == d.error();
    lemma_leaf_fits(arith, field, tolerance, t, j);
    lemma_gap_fits(arith, field, tolerance, q[j], k, o);
}

proof fn lemma_gap_fits<F: Fn(Op, Real, Real) -> Real>(
    arith: F,
    field: HeightField,
    tolerance: Real,
    q: Square,
    k: int,
    p: Point,
)
    requires
        (Real { bits: ZERO }).below(tolerance),
        fits_samples(arith, field, tolerance, q),
        0 <= k < q.faces().len(),
        triangle::on(q.faces()[k], p),
    ensures
        fit::gap(arith, field, q.faces()[k], p).at_most(tolerance),
{
    let f = q.faces()[k];
    if q.span == 1 {
        q.lemma_face_count();
        q.lemma_cell_points(k, p);
    } else {
        let at = q.lemma_face_is_wedge(k);
        let m = 3 * at.0 + at.1;
        assert(m / 3 == at.0 && m % 3 == at.1);
        assert(fit::counts(q, true, m));
        assert(!fit::too_far(arith, field, f, tolerance));
        assert(!fit::unfit(fit::gap(arith, field, f, p), tolerance));
    }
}

/// A looser tolerance never costs more triangles or vertices.
pub proof fn law_looser_is_cheaper<F: Fn(Op, Real, Real) -> Real>(
    arith: F,
    field: HeightField,
    tight: Real,
    loose: Real,
    a: Decimation,
    b: Decimation,
)
    requires
        tight.at_most(loose),
        a.wf(),
        b.wf(),
        a.tree().w() == field.w,
        a.tree().h() == field.h,
        b.tree().w() == field.w,
        b.tree().h() == field.h,
        a.tree().levels == b.tree().levels,
        a.tree().grown_from(needed(arith, field, tight)),
        b.tree().grown_from(needed(arith, field, loose)),
    ensures
        b.tree().faces().len() <= a.tree().faces().len(),
        b.tree().vertex_count() <= a.tree().vertex_count(),
{
    let less = needed(arith, field, loose);
    let more = needed(arith, field, tight);
    assert forall|l: nat, x: int, y: int| #[trigger] less(l, x, y) implies more(l, x, y) by {
        let q = block(l, x, y);
        if misfits(arith, field, q, loose) {
            let n = choose|n: int| #[trigger]
                fit::counts(q, true, n) && fit::too_far(
                    arith,
                    field,
                    q.wedge(n / 3, n % 3),
                    loose,
                );
            let f = q.wedge(n / 3, n % 3);
            let p = choose|p: Point|
                triangle::on(f, p) && fit::unfit(#[trigger] fit::gap(arith, field, f, p), loose);
            assert(fit::unfit(fit::gap(arith, field, f, p), tight));
            assert(fit::too_far(arith, field, f, tight));
        }
    }
    b.tree().lemma_less_need(a.tree(), less, more);
}

/// The height field fixes the number of levels.
pub proof fn law_levels(a: nat, b: nat, n: int)
    requires
        enough_levels(a, n),
        enough_levels(b, n),
    ensures
        a == b,
{
    if a < b {
        number::lemma_pow2_order(a, (b - 1) as nat);
    } else if b < a {
        number::lemma_pow2_order(b, (a - 1) as nat);
    }
}

/// Where there are squares across a side, the side is stitched exactly when they
/// have half the span.
pub proof fn law_stitches(d: Decimation, cx: int, cy: int, side: int)
    requires
        d.wf(),
        0 <= side < 4,
        d.tree().cell(cx, cy),
        ({
            let n = quadtree::across(cx, cy, side);
            d.tree().cell(n.0, n.1) && !d.tree().cover(cx, cy).has_cell(n.0, n.1)
        }),
    ensures
        ({
            let n = quadtree::across(cx, cy, side);
            d.tree().cover(cx, cy).stitched(side) <==> d.tree().cover(cx, cy).span == 2
                * d.tree().cover(n.0, n.1).span
        }),
{
    let t = d.tree();
    let n = quadtree::across(cx, cy, side);
    let a = t.level(cx, cy);
    let b = t.level(n.0, n.1);
    quadtree::lemma_side(t.levels);
    t.lemma_stitched(cx, cy, side);
    t.lemma_neighbour_levels(cx, cy, n.0, n.1);
    quadtree::lemma_side(a);
    quadtree::lemma_side(b);
    if a <= b {
        number::lemma_pow2_order(a, b);
    } else {
        assert(a == b + 1);
    }
}

/// Squares on both sides of a cell boundary differ by at most one level.
pub proof fn law_neighbours(d: Decimation, cx: int, cy: int, side: int)
    requires
        d.wf(),
        0 <= side < 4,
        d.tree().cell(cx, cy),
        ({
            let n = quadtree::across(cx, cy, side);
            d.tree().cell(n.0, n.1)
        }),
    ensures
        ({
            let n = quadtree::across(cx, cy, side);
            let a = d.tree().cover(cx, cy).span;
            let b = d.tree().cover(n.0, n.1).span;
            a <= 2 * b && b <= 2 * a
        }),
{
    let t = d.tree();
    let n = quadtree::across(cx, cy, side);
    quadtree::lemma_side(t.levels);
    t.lemma_neighbour_levels(cx, cy, n.0, n.1);
    t.lemma_neighbour_levels(n.0, n.1, cx, cy);
    let a = t.level(cx, cy);
    let b = t.level(n.0, n.1);
    quadtree::lemma_side(a);
    quadtree::lemma_side(b);
    number::lemma_pow2_order(a, if a <= b + 1 {
        b + 1
    } else {
        a
    });
    number::lemma_pow2_order(b, if b <= a + 1 {
        a + 1
    } else {
        b
    });
}

} // verus!
