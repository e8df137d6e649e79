//! What the solid measures, in millimetres.

use vstd::prelude::*;
use vstd::arithmetic::power2;
use crate::depth::HeightField;
use crate::mesh;
use crate::mesh::{Block, Layout, Solid};
use crate::number;
use crate::number::{Op, Real, ONE, TWO, ZERO};
use crate::params::{Orientation, Params, Units};
use crate::rounding;
use crate::vector::Vector;

verus! {

// ---------------------------------------------------------------------------
// Front to back
// ---------------------------------------------------------------------------

/// The vertex is part of the back plate.
pub open spec fn on_the_plate(s: Solid, index: int) -> bool {
    s.vertex_total() - s.rim().len() - 1 <= index < s.vertex_total()
}

/// The vertex is part of the bezel: its inner or its outer edge.
pub open spec fn on_the_bezel(s: Solid, index: int) -> bool {
    s.layout.has_frame() && s.surface_count() <= index < s.surface_count() + 2 * s.rim().len()
}

proof fn lemma_plate(s: Solid, index: int)
    requires
        s.wf(),
        on_the_plate(s, index),
    ensures
        s.at(index) is Back || s.at(index) is Centre,
        index == s.vertex_total() - 1 <==> s.at(index) is Centre,
{
    s.lemma_surface();
    let b = s.lemma_some_block(index);
    s.lemma_one_block(index, b, b);
}

proof fn lemma_not_plate(s: Solid, index: int)
    requires
        s.wf(),
        0 <= index < s.vertex_total(),
        !on_the_plate(s, index),
    ensures
        s.at(index) is Surface || s.at(index) is Rim || s.at(index) is Outer,
{
    s.lemma_surface();
    let b = s.lemma_some_block(index);
    s.lemma_one_block(index, b, b);
}

/// There is always `frame_back_mm` of material behind the deepest point: the
/// back plate lies that far behind the relief's depth, to the nearest number,
/// and never in front of it.
pub proof fn law_plate_behind_the_relief<F: Fn(Op, Real, Real) -> Real>(
    f: F,
    p: Params,
    s: Solid,
    index: int,
)
    requires
        rounding::rounds(f),
        s.wf(),
        s.layout == mesh::layout_of(f, *s.field, p),
        p.emboss_mm.finite(),
        p.frame_back_mm.finite(),
        on_the_plate(s, index),
    ensures
        ({
            let z = s.place(f, s.at(index)).z;
            let deep = p.emboss_mm.quanta() + p.frame_back_mm.quanta();
            &&& p.frame_back_mm.quanta() >= 0 ==> z.at_most(p.emboss_mm.opposite())
            &&& rounding::representable(-deep) ==> z.finite() && z.quanta() == -deep
            &&& forall|c: Real|
                c.finite() && #[trigger] c.quanta() <= -deep ==> c.at_most(z)
            &&& forall|c: Real|
                c.finite() && -deep <= #[trigger] c.quanta() ==> z.at_most(c)
        }),
{
    lemma_plate(s, index);
    let (e, b) = (p.emboss_mm.opposite(), p.frame_back_mm);
    rounding::lemma_opposite(p.emboss_mm);
    let z = number::minus(f, e, b);
    assert(s.place(f, s.at(index)).z == z);
    let deep = p.emboss_mm.quanta() + p.frame_back_mm.quanta();
    assert forall|c: Real| c.finite() && #[trigger] c.quanta() <= -deep implies c.at_most(z) by {
        rounding::lemma_sides(f, Op::Minus, e, b, c);
    }
    assert forall|c: Real| c.finite() && -deep <= #[trigger] c.quanta() implies z.at_most(c) by {
        rounding::lemma_sides(f, Op::Minus, e, b, c);
    }
    assert(p.frame_back_mm.quanta() >= 0 ==> -deep <= e.quanta());
    if rounding::representable(-deep) {
        rounding::lemma_exact(f, Op::Minus, e, b, -deep);
    }
}

/// The thickness of the plate moves the plate and nothing else: by as much as
/// the thickness changes, and backwards where it grows.
pub proof fn law_thickness_moves_the_plate<'a, F: Fn(Op, Real, Real) -> Real>(
    f: F,
    p: Params,
    back: Real,
    a: Solid<'a>,
    b: Solid<'a>,
    index: int,
)
    requires
        rounding::rounds(f),
        a.wf(),
        b.wf(),
        b.field == a.field,
        b.decimation == a.decimation,
        a.layout == mesh::layout_of(f, *a.field, p),
        b.layout == mesh::layout_of(f, *a.field, Params { frame_back_mm: back, ..p }),
        p.emboss_mm.finite(),
        p.frame_back_mm.finite(),
        back.finite(),
        0 <= index < a.vertex_total(),
    ensures
        a.vertex_total() == b.vertex_total(),
        ({
            let (v, w) = (a.place(f, a.at(index)), b.place(f, b.at(index)));
            let (e, m, n) = (p.emboss_mm.quanta(), p.frame_back_mm.quanta(), back.quanta());
            if on_the_plate(a, index) {
                &&& w.x == v.x && w.y == v.y
                &&& m <= n ==> w.z.at_most(v.z)
                &&& rounding::representable(-(e + m)) && rounding::representable(-(e + n))
                    ==> v.z.quanta() - w.z.quanta() == n - m
            } else {
                w == v
            }
        }),
{
    a.lemma_surface();
    b.lemma_surface();
    let c = a.lemma_some_block(index);
    a.lemma_one_block(index, c, c);
    assert(b.block_of(index, c));
    b.lemma_one_block(index, c, c);
    if on_the_plate(a, index) {
        lemma_plate(a, index);
        rounding::lemma_opposite(p.emboss_mm);
        let e = p.emboss_mm.opposite();
        if p.frame_back_mm.quanta() <= back.quanta() {
            rounding::lemma_sums(f, Op::Minus, e, back, Op::Minus, e, p.frame_back_mm);
        }
        law_plate_behind_the_relief(f, p, a, index);
        law_plate_behind_the_relief(f, Params { frame_back_mm: back, ..p }, b, index);
    } else {
        lemma_not_plate(a, index);
    }
}

/// The relief stands where the height field says: every surface vertex of the
/// full grid has its own sample's height.
pub proof fn law_relief_follows_the_field<F: Fn(Op, Real, Real) -> Real>(
    f: F,
    s: Solid,
    i: int,
    j: int,
)
    requires
        s.wf(),
        s.decimation is None,
        0 <= i < s.field.w,
        0 <= j < s.field.h,
    ensures
        s.place(f, s.at(j * s.field.w + i)).z == s.field.z@[j * s.field.w + i],
{
    crate::grid::lemma_index(s.field.w as int, s.field.h as int, i, j);
    let b = Block::Surface { i: i as usize, j: j as usize };
    assert(s.block_of(j * s.field.w + i, b));
    s.lemma_one_block(j * s.field.w + i, b, b);
}

/// So does every vertex that a simplification keeps.
pub proof fn law_kept_vertices_follow_the_field<F: Fn(Op, Real, Real) -> Real>(
    f: F,
    s: Solid,
    i: int,
    j: int,
)
    requires
        s.wf(),
        s.decimation matches Some(d) && d.tree().used((i, j)),
    ensures
        0 <= i < s.field.w,
        0 <= j < s.field.h,
        s.place(f, s.at((s.decimation->0.tree().number())((i, j)) as int)).z == s.field.z@[j
            * s.field.w + i],
{
    let d = s.decimation->0;
    let t = d.tree();
    d.lemma_wf();
    s.lemma_surface();
    t.lemma_used_inside((i, j));
    let k = (j * t.w() + i) as nat;
    crate::grid::lemma_index(t.w(), t.h(), i, j);
    t.lemma_rank_total();
    t.lemma_rank_order(k, (t.w() * t.h()) as nat);
    let index = (t.number())((i, j)) as int;
    let b = Block::Surface { i: i as usize, j: j as usize };
    assert(t.rank(k) < t.vertex_count());
    assert(index == t.rank(k));
    assert(s.block_of(index, b));
    s.lemma_one_block(index, b, b);
}

/// The bezel is level: it stands `frame_near_mm` above the front of the relief,
/// but never behind the deepest point.
pub proof fn law_bezel_is_level<F: Fn(Op, Real, Real) -> Real>(
    f: F,
    p: Params,
    s: Solid,
    index: int,
)
    requires
        s.wf(),
        s.layout == mesh::layout_of(f, *s.field, p),
        p.emboss_mm.finite(),
        p.frame_near_mm.finite(),
        on_the_bezel(s, index),
    ensures
        ({
            let z = s.place(f, s.at(index)).z;
            let (n, e) = (p.frame_near_mm.quanta(), p.emboss_mm.quanta());
            z.finite() && z.quanta() == (if n < -e {
                -e
            } else {
                n
            })
        }),
{
    s.lemma_surface();
    let b = s.lemma_some_block(index);
    s.lemma_one_block(index, b, b);
    rounding::lemma_opposite(p.emboss_mm);
    rounding::lemma_order(p.frame_near_mm, p.emboss_mm.opposite());
}

/// Nothing of the solid lies in front of its front or behind its back, as the
/// bounding box has them.
pub proof fn law_between_front_and_back<F: Fn(Op, Real, Real) -> Real>(
    f: F,
    p: Params,
    s: Solid,
    index: int,
)
    requires
        rounding::rounds(f),
        s.wf(),
        s.layout == mesh::layout_of(f, *s.field, p),
        p.emboss_mm.finite(),
        p.emboss_mm.quanta() >= 0,
        p.frame_near_mm.finite(),
        p.frame_back_mm.finite(),
        p.frame_back_mm.quanta() >= 0,
        0 <= index < s.vertex_total(),
        forall|k: int|
            0 <= k < s.field.z@.len() ==> (#[trigger] s.field.z@[k]).at_most(Real { bits: ZERO })
                && p.emboss_mm.opposite().at_most(s.field.z@[k]),
    ensures
        ({
            let z = s.place(f, s.at(index)).z;
            let back = s.place(f, s.at(s.vertex_total() - 1)).z;
            &&& back.at_most(z)
            &&& z.at_most(Real { bits: ZERO }) || z.at_most(p.frame_near_mm)
        }),
{
    s.lemma_surface();
    let last = s.vertex_total() - 1;
    lemma_plate(s, last);
    law_plate_behind_the_relief(f, p, s, last);
    rounding::lemma_opposite(p.emboss_mm);
    rounding::lemma_constants();
    let b = s.lemma_some_block(index);
    s.lemma_one_block(index, b, b);
    let e = p.emboss_mm.opposite();
    rounding::lemma_order(e, Real { bits: ZERO });
    match b {
        Block::Surface { i, j } => {
            crate::grid::lemma_index(
                s.field.w as int,
                s.field.h as int,
                i as int,
                j as int,
            );
            let h = s.field.z@[j * s.field.w + i];
            assert(e.at_most(h));
        },
        Block::Rim(_) | Block::Outer(_) => {
            law_bezel_is_level(f, p, s, index);
        },
        _ => {
            lemma_plate(s, index);
        },
    }
}

// ---------------------------------------------------------------------------
// Across and down
// ---------------------------------------------------------------------------

/// A step from the middle of `n` steps is exact.
proof fn lemma_step<F: Fn(Op, Real, Real) -> Real>(f: F, n: nat, i: nat)
    requires
        rounding::rounds(f),
        n < 0x100_0000,
        i <= n,
    ensures
        ({
            let h = mesh::half_steps(f, n);
            let (a, b) = (
                number::minus(f, number::whole(i), h),
                number::minus(f, h, number::whole(i)),
            );
            &&& a.finite() && 2 * a.quanta() == (2 * i - n) * rounding::unit()
            &&& b.finite() && 2 * b.quanta() == (n - 2 * i) * rounding::unit()
        }),
{
    let u = rounding::unit();
    let half = power2::pow2(148) as int;
    power2::lemma_pow2_unfold(149);
    rounding::lemma_constants();
    rounding::lemma_whole(n);
    rounding::lemma_whole(i);
    let two = Real { bits: TWO };
    rounding::lemma_representable(n as int, 148);
    assert((n * u) * u == (n * half) * (2 * u)) by (nonlinear_arith)
        requires
            u == 2 * half,
    ;
    rounding::lemma_quotient_exact(f, number::whole(n), two, n * half);
    let h = mesh::half_steps(f, n);
    rounding::lemma_representable(2 * i - n, 148);
    rounding::lemma_representable(n - 2 * i, 148);
    assert(i * u - n * half == (2 * i - n) * half && n * half - i * u == (n - 2 * i) * half && 2 * ((
    2 * i - n) * half) == (2 * i - n) * u && 2 * ((n - 2 * i) * half) == (n - 2 * i) * u)
        by (nonlinear_arith)
        requires
            u == 2 * half,
    ;
    rounding::lemma_sum_exact(f, Op::Minus, number::whole(i), h);
    rounding::lemma_sum_exact(f, Op::Minus, h, number::whole(i));
}

/// The grid is centred and evenly spaced: columns run to the right and rows run
/// down, each has its mirror image on the other side, and neighbours are one
/// pitch apart wherever that needs no rounding.
pub proof fn law_grid_is_even<F: Fn(Op, Real, Real) -> Real>(
    f: F,
    s: Solid,
    i: usize,
    j: usize,
    k: usize,
    m: usize,
)
    requires
        rounding::rounds(f),
        s.layout.pitch_mm.finite(),
        s.layout.pitch_mm.quanta() >= 0,
        s.layout.w <= 0x100_0000,
        s.layout.h <= 0x100_0000,
        i <= k < s.layout.w,
        j <= m < s.layout.h,
    ensures
        ({
            let (w, h) = (s.layout.w, s.layout.h);
            let pitch = s.layout.pitch_mm.quanta();
            let a = s.place(f, Block::Surface { i, j });
            let b = s.place(f, Block::Surface { i: k, j: m });
            let c = s.place(f, Block::Surface { i: (w - 1 - i) as usize, j: (h - 1 - j) as usize });
            &&& a.x.at_most(b.x)
            &&& b.y.at_most(a.y)
            &&& a.x.equals(c.x.opposite())
            &&& a.y.equals(c.y.opposite())
            &&& forall|q: int| #[trigger]
                rounding::representable(q) && 2 * q == (2 * i - (w - 1)) * pitch ==> a.x.finite()
                    && a.x.quanta() == q
            &&& forall|q: int| #[trigger]
                rounding::representable(q) && 2 * q == ((h - 1) - 2 * j) * pitch ==> a.y.finite()
                    && a.y.quanta() == q
        }),
{
    let (w, h) = (s.layout.w as int, s.layout.h as int);
    let p = s.layout.pitch_mm;
    let (pitch, u) = (p.quanta(), rounding::unit());
    rounding::lemma_constants();
    let (n, o) = ((w - 1) as nat, (h - 1) as nat);
    lemma_step(f, n, i as nat);
    lemma_step(f, n, k as nat);
    lemma_step(f, n, (n - i) as nat);
    lemma_step(f, o, j as nat);
    lemma_step(f, o, m as nat);
    lemma_step(f, o, (o - j) as nat);
    let x = |t: int| number::minus(f, number::whole(t as nat), mesh::half_steps(f, n));
    let y = |t: int| number::minus(f, mesh::half_steps(f, o), number::whole(t as nat));
    let (xi, xk, xc) = (x(i as int), x(k as int), x(n - i));
    let (yj, ym, yc) = (y(j as int), y(m as int), y(o - j));
    assert(xi.quanta() * pitch <= xk.quanta() * pitch) by (nonlinear_arith)
        requires
            2 * xi.quanta() == (2 * i - n) * u,
            2 * xk.quanta() == (2 * k - n) * u,
            i <= k,
            u > 0,
            pitch >= 0,
    ;
    assert(ym.quanta() * pitch <= yj.quanta() * pitch) by (nonlinear_arith)
        requires
            2 * yj.quanta() == (o - 2 * j) * u,
            2 * ym.quanta() == (o - 2 * m) * u,
            j <= m,
            u > 0,
            pitch >= 0,
    ;
    rounding::lemma_products(f, xi, p, xk, p);
    rounding::lemma_products(f, ym, p, yj, p);
    assert(xi.quanta() == -xc.quanta()) by (nonlinear_arith)
        requires
            2 * xi.quanta() == (2 * i - n) * u,
            2 * xc.quanta() == (2 * (n - i) - n) * u,
    ;
    assert(yj.quanta() == -yc.quanta()) by (nonlinear_arith)
        requires
            2 * yj.quanta() == (o - 2 * j) * u,
            2 * yc.quanta() == (o - 2 * (o - j)) * u,
    ;
    rounding::lemma_mirrored(f, xi, xc, p);
    rounding::lemma_mirrored(f, yj, yc, p);
    assert forall|q: int| #[trigger]
        rounding::representable(q) && 2 * q == (2 * i - n) * pitch implies number::times(
        f,
        xi,
        p,
    ).finite() && number::times(f, xi, p).quanta() == q by {
        assert(xi.quanta() * pitch == q * u) by (nonlinear_arith)
            requires
                2 * xi.quanta() == (2 * i - n) * u,
                2 * q == (2 * i - n) * pitch,
        ;
        rounding::lemma_product_exact(f, xi, p, q);
    }
    assert forall|q: int| #[trigger]
        rounding::representable(q) && 2 * q == (o - 2 * j) * pitch implies number::times(
        f,
        yj,
        p,
    ).finite() && number::times(f, yj, p).quanta() == q by {
        assert(yj.quanta() * pitch == q * u) by (nonlinear_arith)
            requires
                2 * yj.quanta() == (o - 2 * j) * u,
                2 * q == (o - 2 * j) * pitch,
        ;
        rounding::lemma_product_exact(f, yj, p, q);
    }
}

/// The rings follow the border of the relief: the bezel's inner edge stands
/// straight above it, and the back plate lies straight behind the outer edge,
/// or behind the border itself where there is no frame.
pub proof fn law_rings_are_straight<F: Fn(Op, Real, Real) -> Real>(f: F, s: Solid, k: usize)
    requires
        s.wf(),
        k < s.rim().len(),
    ensures
        ({
            let (i, j) = s.rim_point(k as int);
            let border = s.place(f, Block::Surface { i: i as usize, j: j as usize });
            let rim = s.place(f, Block::Rim(k));
            let outer = s.place(f, Block::Outer(k));
            let back = s.place(f, Block::Back(k));
            let centre = s.place(f, Block::Centre);
            &&& 0 <= i < s.layout.w && 0 <= j < s.layout.h
            &&& i == 0 || i == s.layout.w - 1 || j == 0 || j == s.layout.h - 1
            &&& rim.x == border.x && rim.y == border.y
            &&& back.x == outer.x && back.y == outer.y
            &&& rim.z == outer.z
            &&& back.z == centre.z
            &&& 0 < i < s.layout.w - 1 ==> outer.x == border.x
            &&& 0 < j < s.layout.h - 1 ==> outer.y == border.y
            &&& (centre.x, centre.y) == (Real { bits: ZERO }, Real { bits: ZERO })
        }),
{
    match s.decimation {
        None => {},
        Some(d) => {
            d.lemma_wf();
            crate::decimate::law_border(*d);
            let t = d.tree();
            t.lemma_used_inside(t.border()[k as int]);
        },
    }
}

/// The bezel, as it counts.
pub open spec fn bezel_width(p: Params) -> int {
    if p.frame_thickness_mm.quanta() > 0 {
        p.frame_thickness_mm.quanta()
    } else {
        0
    }
}

/// Nothing about the size needs rounding: `pitch` is what the frame leaves of
/// the longest side, shared out among its steps.
pub open spec fn sizes_exactly(p: Params, field: HeightField, pitch: int) -> bool {
    let (w, h) = (mesh::two_or_more(field.w) - 1, mesh::two_or_more(field.h) - 1);
    let longest = if w >= h {
        w
    } else {
        h
    };
    let t = bezel_width(p);
    &&& p.size_mm.finite() && p.frame_thickness_mm.finite()
    &&& pitch * longest == p.size_mm.quanta() - 2 * t
    &&& p.size_mm.quanta() - 2 * t >= rounding::unit()
    &&& rounding::representable(2 * t)
    &&& rounding::representable(p.size_mm.quanta() - 2 * t)
    &&& rounding::representable(pitch)
    &&& rounding::representable(w * pitch)
    &&& rounding::representable(h * pitch)
    &&& exists|a: int|
        2 * a == w * pitch && #[trigger] rounding::representable(a) && rounding::representable(
            a + t,
        ) && rounding::representable(2 * (a + t))
    &&& exists|a: int|
        2 * a == h * pitch && #[trigger] rounding::representable(a) && rounding::representable(
            a + t,
        ) && rounding::representable(2 * (a + t))
}

proof fn lemma_sized<F: Fn(Op, Real, Real) -> Real>(f: F, field: HeightField, p: Params, pitch: int)
    requires
        rounding::rounds(f),
        field.w <= 0x100_0000,
        field.h <= 0x100_0000,
        sizes_exactly(p, field, pitch),
    ensures
        ({
            let l = mesh::layout_of(f, field, p);
            let t = bezel_width(p);
            &&& l.pitch_mm.finite() && l.pitch_mm.quanta() == pitch && pitch > 0
            &&& l.thickness_mm.finite() && l.thickness_mm.quanta() == t
            &&& l.half_w_mm.finite() && 2 * l.half_w_mm.quanta() == (l.w - 1) * pitch
            &&& l.half_h_mm.finite() && 2 * l.half_h_mm.quanta() == (l.h - 1) * pitch
            &&& {
                let x = number::plus(f, l.half_w_mm, l.thickness_mm);
                x.finite() && 2 * x.quanta() == (l.w - 1) * pitch + 2 * t
            }
            &&& {
                let y = number::plus(f, l.half_h_mm, l.thickness_mm);
                y.finite() && 2 * y.quanta() == (l.h - 1) * pitch + 2 * t
            }
            &&& l.extents(f).x.finite() && l.extents(f).x.quanta() == (l.w - 1) * pitch + 2 * t
            &&& l.extents(f).y.finite() && l.extents(f).y.quanta() == (l.h - 1) * pitch + 2 * t
        }),
{
    let l = mesh::layout_of(f, field, p);
    let (w, h) = (l.w - 1, l.h - 1);
    let longest = if w >= h {
        w
    } else {
        h
    };
    let (t, u) = (bezel_width(p), rounding::unit());
    rounding::lemma_constants();
    let (zero, two, one) = (Real { bits: ZERO }, Real { bits: TWO }, Real { bits: ONE });
    rounding::lemma_order(zero, p.frame_thickness_mm);
    let thick = l.thickness_mm;
    assert(thick.finite() && thick.quanta() == t);
    assert((2 * u) * t == (2 * t) * u) by (nonlinear_arith);
    rounding::lemma_product_exact(f, two, thick, 2 * t);
    let both = number::times(f, two, thick);
    rounding::lemma_sum_exact(f, Op::Minus, p.size_mm, both);
    let left = number::minus(f, p.size_mm, both);
    let data = left.larger(one);
    rounding::lemma_order(left, one);
    rounding::lemma_whole(longest as nat);
    let d = p.size_mm.quanta() - 2 * t;
    assert(data.quanta() == d);
    assert(d * u == pitch * (longest * u)) by (nonlinear_arith)
        requires
            pitch * longest == d,
    ;
    assert(longest * u > 0) by (nonlinear_arith)
        requires
            longest >= 1,
            u > 0,
    ;
    rounding::lemma_quotient_exact(f, data, number::whole(longest as nat), pitch);
    assert(pitch > 0) by (nonlinear_arith)
        requires
            pitch * longest == d,
            d > 0,
            longest >= 1,
    ;
    lemma_half(f, w as nat, l.pitch_mm, thick);
    lemma_half(f, h as nat, l.pitch_mm, thick);
}

proof fn lemma_half<F: Fn(Op, Real, Real) -> Real>(f: F, n: nat, pitch: Real, thick: Real)
    requires
        rounding::rounds(f),
        n <= 0x100_0000,
        pitch.finite(),
        thick.finite(),
        rounding::representable(n * pitch.quanta()),
        exists|a: int|
            2 * a == n * pitch.quanta() && #[trigger] rounding::representable(a)
                && rounding::representable(a + thick.quanta()) && rounding::representable(
                2 * (a + thick.quanta()),
            ),
    ensures
        ({
            let h = number::over(
                f,
                number::times(f, number::whole(n), pitch),
                Real { bits: TWO },
            );
            let e = number::plus(f, h, thick);
            let x = number::times(f, Real { bits: TWO }, e);
            &&& h.finite() && 2 * h.quanta() == n * pitch.quanta()
            &&& e.finite() && 2 * e.quanta() == n * pitch.quanta() + 2 * thick.quanta()
            &&& x.finite() && x.quanta() == n * pitch.quanta() + 2 * thick.quanta()
        }),
{
    let a = choose|a: int|
        2 * a == n * pitch.quanta() && #[trigger] rounding::representable(a)
            && rounding::representable(a + thick.quanta()) && rounding::representable(
            2 * (a + thick.quanta()),
        );
    let (q, u) = (pitch.quanta(), rounding::unit());
    rounding::lemma_constants();
    rounding::lemma_whole(n);
    let two = Real { bits: TWO };
    assert((n * u) * q == (n * q) * u) by (nonlinear_arith);
    rounding::lemma_product_exact(f, number::whole(n), pitch, n * q);
    let b = number::times(f, number::whole(n), pitch);
    assert((n * q) * u == a * (2 * u)) by (nonlinear_arith)
        requires
            2 * a == n * q,
    ;
    rounding::lemma_quotient_exact(f, b, two, a);
    let h = number::over(f, b, two);
    rounding::lemma_sum_exact(f, Op::Plus, h, thick);
    let e = number::plus(f, h, thick);
    let c = a + thick.quanta();
    assert((2 * u) * c == (2 * c) * u) by (nonlinear_arith);
    rounding::lemma_product_exact(f, two, e, 2 * c);
}

/// The plaque prints at the size that was asked for: its longest outer side,
/// frame included, is `size_mm`. The bezel adds its width on every side, its
/// outer edge and the back plate end there, and the bounding box says so.
pub proof fn law_longest_side_is_the_size<F: Fn(Op, Real, Real) -> Real>(
    f: F,
    p: Params,
    s: Solid,
    pitch: int,
    k: usize,
)
    requires
        rounding::rounds(f),
        s.layout == mesh::layout_of(f, *s.field, p),
        s.field.w <= 0x100_0000,
        s.field.h <= 0x100_0000,
        sizes_exactly(p, *s.field, pitch),
    ensures
        ({
            let l = s.layout;
            let t = bezel_width(p);
            let (across, down) = ((l.w - 1) * pitch + 2 * t, (l.h - 1) * pitch + 2 * t);
            let (i, j) = s.rim_point(k as int);
            let (outer, back) = (s.place(f, Block::Outer(k)), s.place(f, Block::Back(k)));
            &&& (if across >= down {
                across
            } else {
                down
            }) == p.size_mm.quanta()
            &&& l.extents(f).x.quanta() == across
            &&& l.extents(f).y.quanta() == down
            &&& i == 0 ==> 2 * outer.x.quanta() == -across && 2 * back.x.quanta() == -across
            &&& i == l.w - 1 ==> 2 * outer.x.quanta() == across && 2 * back.x.quanta() == across
            &&& j == 0 ==> 2 * outer.y.quanta() == down && 2 * back.y.quanta() == down
            &&& j == l.h - 1 ==> 2 * outer.y.quanta() == -down && 2 * back.y.quanta() == -down
        }),
{
    let l = s.layout;
    lemma_sized(f, *s.field, p, pitch);
    rounding::lemma_opposite(number::plus(f, l.half_w_mm, l.thickness_mm));
    rounding::lemma_opposite(number::plus(f, l.half_h_mm, l.thickness_mm));
    let (w, h) = (l.w - 1, l.h - 1);
    assert(w >= h ==> w * pitch >= h * pitch) by (nonlinear_arith)
        requires
            pitch > 0,
    ;
    assert(h >= w ==> h * pitch >= w * pitch) by (nonlinear_arith)
        requires
            pitch > 0,
    ;
    assert(w * pitch == pitch * w && h * pitch == pitch * h) by (nonlinear_arith);
}

/// The bounding box is as deep as the solid: from the bezel's face, or the
/// relief's front where that stands farther out, to the back plate.
pub proof fn law_depth_of_the_box<F: Fn(Op, Real, Real) -> Real>(
    f: F,
    field: HeightField,
    p: Params,
)
    requires
        rounding::rounds(f),
        p.emboss_mm.finite(),
        p.emboss_mm.quanta() >= 0,
        p.frame_near_mm.finite(),
        p.frame_back_mm.finite(),
        rounding::representable(-(p.emboss_mm.quanta() + p.frame_back_mm.quanta())),
    ensures
        ({
            let deep = p.emboss_mm.quanta() + p.frame_back_mm.quanta();
            let near = p.frame_near_mm.quanta();
            let front = if p.has_frame() && near > 0 {
                near
            } else {
                0
            };
            let z = mesh::layout_of(f, field, p).extents(f).z;
            rounding::representable(front + deep) ==> z.finite() && z.quanta() == front + deep
        }),
{
    let l = mesh::layout_of(f, field, p);
    let (e, b) = (p.emboss_mm.opposite(), p.frame_back_mm);
    rounding::lemma_opposite(p.emboss_mm);
    rounding::lemma_constants();
    rounding::lemma_sum_exact(f, Op::Minus, e, b);
    rounding::lemma_order(p.frame_near_mm, e);
    let zero = Real { bits: ZERO };
    rounding::lemma_order(l.frame_near_mm, zero);
    let front = l.frame_near_mm.larger(zero);
    if rounding::representable(
        front.quanta() + p.emboss_mm.quanta() + p.frame_back_mm.quanta(),
    ) {
        rounding::lemma_sum_exact(f, Op::Minus, front, l.frame_far_mm);
    }
}

// ---------------------------------------------------------------------------
// In the file
// ---------------------------------------------------------------------------

/// A point in quanta.
pub open spec fn spot(p: Vector) -> (int, int, int) {
    (p.x.quanta(), p.y.quanta(), p.z.quanta())
}

/// From one point to another.
pub open spec fn way(a: (int, int, int), b: (int, int, int)) -> (int, int, int) {
    (b.0 - a.0, b.1 - a.1, b.2 - a.2)
}

/// Six times the signed volume of the corner that three edges span.
pub open spec fn volume(u: (int, int, int), v: (int, int, int), w: (int, int, int)) -> int {
    u.0 * (v.1 * w.2 - v.2 * w.1) - u.1 * (v.0 * w.2 - v.2 * w.0) + u.2 * (v.0 * w.1 - v.1 * w.0)
}

/// How far apart two points are, squared.
pub open spec fn apart(u: (int, int, int)) -> int {
    u.0 * u.0 + u.1 * u.1 + u.2 * u.2
}

/// Setting this point on the bed needs no rounding.
pub open spec fn lands_exactly(l: Layout, p: Vector) -> bool {
    &&& p.x.finite() && p.y.finite() && p.z.finite()
    &&& l.frame_far_mm.finite() && l.half_h_mm.finite() && l.thickness_mm.finite()
    &&& match l.orientation {
        Orientation::FaceUp => rounding::representable(
            p.z.quanta() - l.frame_far_mm.quanta(),
        ),
        Orientation::Upright => {
            &&& rounding::representable(p.y.quanta() + l.half_h_mm.quanta())
            &&& rounding::representable(
                p.y.quanta() + l.half_h_mm.quanta() + l.thickness_mm.quanta(),
            )
        },
    }
}

/// Turned and set on the bed. Face up, the picture lies as it is; upright, the
/// top of the picture is up and the relief faces the front, which is towards
/// smaller `y`.
proof fn lemma_landed<F: Fn(Op, Real, Real) -> Real>(f: F, l: Layout, p: Vector)
    requires
        rounding::rounds(f),
        lands_exactly(l, p),
    ensures
        ({
            let (a, b) = (spot(p), spot(l.printed(f, p)));
            &&& l.printed(f, p).x.finite() && l.printed(f, p).y.finite() && l.printed(
                f,
                p,
            ).z.finite()
            &&& b == match l.orientation {
                Orientation::FaceUp => (a.0, a.1, a.2 - l.frame_far_mm.quanta()),
                Orientation::Upright => (
                    a.0,
                    -a.2,
                    a.1 + l.half_h_mm.quanta() + l.thickness_mm.quanta(),
                ),
            }
        }),
{
    match l.orientation {
        Orientation::FaceUp => {
            rounding::lemma_sum_exact(f, Op::Minus, p.z, l.frame_far_mm);
        },
        Orientation::Upright => {
            rounding::lemma_opposite(p.z);
            rounding::lemma_sum_exact(f, Op::Plus, p.y, l.half_h_mm);
            let h = number::plus(f, p.y, l.half_h_mm);
            rounding::lemma_sum_exact(f, Op::Plus, h, l.thickness_mm);
        },
    }
}

/// Printing turns the solid and moves it, and does nothing else to it: any two
/// points stay as far apart, and any four span the same signed volume, so what
/// was outside is outside still and nothing is mirrored.
pub proof fn law_printing_is_a_rigid_motion<F: Fn(Op, Real, Real) -> Real>(
    f: F,
    l: Layout,
    a: Vector,
    b: Vector,
    c: Vector,
    d: Vector,
)
    requires
        rounding::rounds(f),
        lands_exactly(l, a),
        lands_exactly(l, b),
        lands_exactly(l, c),
        lands_exactly(l, d),
    ensures
        ({
            let (o, p, q, r) = (spot(a), spot(b), spot(c), spot(d));
            let (s, t, u, v) = (
                spot(l.printed(f, a)),
                spot(l.printed(f, b)),
                spot(l.printed(f, c)),
                spot(l.printed(f, d)),
            );
            &&& apart(way(s, t)) == apart(way(o, p))
            &&& volume(way(s, t), way(s, u), way(s, v)) == volume(way(o, p), way(o, q), way(o, r))
        }),
{
    lemma_landed(f, l, a);
    lemma_landed(f, l, b);
    lemma_landed(f, l, c);
    lemma_landed(f, l, d);
    if l.orientation == Orientation::Upright {
        let (o, p, q, r) = (spot(a), spot(b), spot(c), spot(d));
        lemma_quarter_turn(way(o, p), way(o, q), way(o, r));
    }
}

proof fn lemma_quarter_turn(u: (int, int, int), v: (int, int, int), w: (int, int, int))
    ensures
        apart((u.0, -u.2, u.1)) == apart(u),
        volume((u.0, -u.2, u.1), (v.0, -v.2, v.1), (w.0, -w.2, w.1)) == volume(u, v, w),
{
    assert(u.2 * u.2 == (-u.2) * (-u.2)) by (nonlinear_arith);
    assert(u.0 * ((-v.2) * w.1 - v.1 * (-w.2)) - (-u.2) * (v.0 * w.1 - v.1 * w.0) + u.1 * (v.0 * (
    -w.2) - (-v.2) * w.0) == u.0 * (v.1 * w.2 - v.2 * w.1) - u.1 * (v.0 * w.2 - v.2 * w.0) + u.2
        * (v.0 * w.1 - v.1 * w.0)) by (nonlinear_arith);
}

/// Which way things point in the file. Face up, what is nearer to the viewer is
/// higher; upright, the top of the picture is higher and what is nearer to the
/// viewer has the smaller `y`. Left stays left.
pub proof fn law_print_directions<F: Fn(Op, Real, Real) -> Real>(f: F, l: Layout, a: Vector, b: Vector)
    requires
        rounding::rounds(f),
        a.x.finite() && a.y.finite() && a.z.finite(),
        b.x.finite() && b.y.finite() && b.z.finite(),
        l.frame_far_mm.finite(),
    ensures
        ({
            let (p, q) = (l.printed(f, a), l.printed(f, b));
            &&& p.x == a.x
            &&& match l.orientation {
                Orientation::FaceUp => {
                    &&& p.y == a.y
                    &&& a.z.at_most(b.z) ==> p.z.at_most(q.z)
                    &&& l.frame_far_mm.at_most(a.z) ==> (Real { bits: ZERO }).at_most(p.z)
                    &&& a.z.quanta() == l.frame_far_mm.quanta() ==> p.z.equals(
                        Real { bits: ZERO },
                    )
                },
                Orientation::Upright => {
                    &&& p.y.finite() && p.y.quanta() == -a.z.quanta()
                },
            }
        }),
{
    rounding::lemma_constants();
    rounding::lemma_order(a.z, b.z);
    rounding::lemma_order(l.frame_far_mm, a.z);
    rounding::lemma_opposite(a.z);
    if a.z.at_most(b.z) {
        rounding::lemma_sums(f, Op::Minus, a.z, l.frame_far_mm, Op::Minus, b.z, l.frame_far_mm);
    }
    rounding::lemma_sum_side(f, Op::Minus, a.z, l.frame_far_mm, Real { bits: ZERO });
}

/// The model rests on the bed: face up its back plate does, and upright its
/// lower edge does.
pub proof fn law_rests_on_the_bed<F: Fn(Op, Real, Real) -> Real>(
    f: F,
    p: Params,
    s: Solid,
    pitch: int,
    k: usize,
)
    requires
        rounding::rounds(f),
        s.layout == mesh::layout_of(f, *s.field, p),
        s.field.w <= 0x100_0000,
        s.field.h <= 0x100_0000,
        sizes_exactly(p, *s.field, pitch),
        rounding::representable(-bezel_width(p)),
        s.layout.frame_far_mm.finite(),
    ensures
        ({
            let b = s.layout.printed(f, s.place(f, Block::Back(k)));
            match s.layout.orientation {
                Orientation::FaceUp => b.z.equals(Real { bits: ZERO }),
                Orientation::Upright => s.rim_point(k as int).1 == s.layout.h - 1 ==> b.z.equals(
                    Real { bits: ZERO },
                ),
            }
        }),
{
    let l = s.layout;
    rounding::lemma_constants();
    let zero = Real { bits: ZERO };
    let v = s.place(f, Block::Back(k));
    match l.orientation {
        Orientation::FaceUp => {
            rounding::lemma_self(f, l.frame_far_mm);
            rounding::lemma_order(number::minus(f, l.frame_far_mm, l.frame_far_mm), zero);
        },
        Orientation::Upright => {
            if s.rim_point(k as int).1 == l.h - 1 {
                lemma_sized(f, *s.field, p, pitch);
                let e = number::plus(f, l.half_h_mm, l.thickness_mm);
                rounding::lemma_opposite(e);
                rounding::lemma_sum_exact(f, Op::Plus, v.y, l.half_h_mm);
                let h = number::plus(f, v.y, l.half_h_mm);
                assert(zero.quanta() == 0);
                rounding::lemma_sum_exact(f, Op::Plus, h, l.thickness_mm);
                rounding::lemma_order(number::plus(f, h, l.thickness_mm), zero);
            }
        },
    }
}

/// A file in millimetres holds the printed position itself. One in inches holds
/// it times a factor that is one over 25.4, to the nearest number.
pub proof fn law_file_units<F: Fn(Op, Real, Real) -> Real>(f: F, s: Solid, index: int)
    requires
        rounding::rounds(f),
        ({
            let p = s.layout.printed(f, s.place(f, s.at(index)));
            p.x.finite() && p.y.finite() && p.z.finite()
        }),
    ensures
        ({
            let p = s.layout.printed(f, s.place(f, s.at(index)));
            let w = s.written(f, index);
            &&& s.layout.units == Units::Mm ==> spot(w) == spot(p) && w.x.finite() && w.y.finite()
                && w.z.finite()
            &&& s.layout.units == Units::In ==> in_inches(p.x, w.x) && in_inches(p.y, w.y)
                && in_inches(p.z, w.z)
        }),
{
    let p = s.layout.printed(f, s.place(f, s.at(index)));
    match s.layout.units {
        Units::Mm => {
            rounding::lemma_once(f, p.x);
            rounding::lemma_once(f, p.y);
            rounding::lemma_once(f, p.z);
        },
        Units::In => {
            lemma_inches(f, p.x);
            lemma_inches(f, p.y);
            lemma_inches(f, p.z);
        },
    }
}

/// A number is another in inches: it lies on the side of every other that the
/// product with a factor does, and 25.4 times that factor is one but for less
/// than a ten-millionth.
pub open spec fn in_inches(mm: Real, inches: Real) -> bool {
    exists|g: int|
        {
            &&& -10 * rounding::unit() <= 0x1000_0000 * (254 * g - 10 * rounding::unit()) <= 10
                * rounding::unit()
            &&& forall|c: Real|
                c.finite() && #[trigger] c.quanta() * rounding::unit() <= mm.quanta() * g
                    ==> c.at_most(inches)
            &&& #[trigger] product_above(mm, inches, g)
        }
}

pub open spec fn product_above(mm: Real, inches: Real, g: int) -> bool {
    forall|c: Real|
        c.finite() && mm.quanta() * g <= #[trigger] c.quanta() * rounding::unit()
            ==> inches.at_most(c)
}

pub proof fn lemma_inches<F: Fn(Op, Real, Real) -> Real>(f: F, mm: Real)
    requires
        rounding::rounds(f),
        mm.finite(),
    ensures
        in_inches(mm, number::times(f, mm, Units::In.factor())),
{
    let c = Units::In.factor();
    let g = c.quanta();
    let t = power2::pow2(121) as int;
    power2::lemma_pow2_adds(28, 121);
    vstd::arithmetic::power2::lemma2_to64();
    assert(c.exponent() == 122 && c.significand() == 0xa1_4285);
    assert(c.finite() && g == 0xa1_4285 * t);
    assert(rounding::unit() == 0x1000_0000 * t);
    power2::lemma_pow2_pos(121);
    let inches = number::times(f, mm, c);
    assert forall|d: Real|
        d.finite() && #[trigger] d.quanta() * rounding::unit() <= mm.quanta() * g implies d.at_most(
        inches,
    ) by {
        rounding::lemma_product_side(f, mm, c, d);
    }
    assert forall|d: Real|
        d.finite() && mm.quanta() * g <= #[trigger] d.quanta() * rounding::unit() implies inches.at_most(
        d,
    ) by {
        rounding::lemma_product_side(f, mm, c, d);
    }
    assert(product_above(mm, inches, g));
}

} // verus!
