//! How the height field becomes a closed solid.
//!
//! The solid is a view, not a buffer: it borrows a height field and computes any
//! vertex position on demand from its index. It knows its vertex and triangle
//! counts before it emits anything, and it emits triangles in a fixed order.
//!
//! Everything is millimetres. Every vertex outside the surface belongs to a ring
//! built on the surface's border cycle, of length `P`. With a frame:
//!
//! ```text
//!   surface                the relief
//!   P vertices  rim        the border lifted to the bezel plane
//!   P vertices  outer      the rim pushed out to the frame edge
//!   P vertices  back       outer, dropped to the back plate
//!   1 vertex               centre of the back plate
//! ```
//!
//! Without one, rim and outer are absent: the relief's sides drop straight from
//! its border to the plate. Each strip shares the vertices of the ring beside
//! it, so there is no seam to weld.

use vstd::prelude::*;
use crate::decimate;
use crate::decimate::Decimation;
use crate::depth::{Albedo, HeightField};
use crate::full;
use crate::grid;
use crate::number;
use crate::number::{Op, Real, ONE, TWO, ZERO};
use crate::params::{Orientation, Params, Units};
use crate::patch;
use crate::progress::Fraction;
use crate::topology;
use crate::vector;
use crate::vector::Vector;

verus! {

/// One channel of the mid grey that uncoloured vertices have.
pub const FRAME_GREY: u8 = 0x80;

/// Everything about the solid's shape that does not depend on a single vertex,
/// in millimetres.
#[derive(Debug, Clone, Copy, PartialEq, Eq, Structural)]
pub struct Layout {
    pub w: usize,
    pub h: usize,
    /// Distance between neighbouring vertices.
    pub pitch_mm: Real,
    /// Half the relief's own extent, frame excluded.
    pub half_w_mm: Real,
    pub half_h_mm: Real,
    /// Bezel width outside the relief. Zero means there is no frame.
    pub thickness_mm: Real,
    /// Bezel face, never behind the deepest point. Zero without a frame.
    pub frame_near_mm: Real,
    /// Back plate plane (negative).
    pub frame_far_mm: Real,
    /// Relief depth.
    pub emboss_mm: Real,
    /// The unit exported coordinates are written in.
    pub units: Units,
    pub orientation: Orientation,
}

pub open spec fn two_or_more(n: usize) -> usize {
    if n < 2 {
        2
    } else {
        n
    }
}

/// Half of `n` steps.
pub open spec fn half_steps<F: Fn(Op, Real, Real) -> Real>(f: F, n: nat) -> Real {
    number::over(f, number::whole(n), Real { bits: TWO })
}

/// The layout that a field and settings give.
pub open spec fn layout_of<F: Fn(Op, Real, Real) -> Real>(
    f: F,
    field: HeightField,
    p: Params,
) -> Layout {
    let w = two_or_more(field.w);
    let h = two_or_more(field.h);
    let thickness = if p.has_frame() {
        p.frame_thickness_mm
    } else {
        Real { bits: ZERO }
    };
    let longest = if w >= h {
        w
    } else {
        h
    };
    let data = number::minus(
        f,
        p.size_mm,
        number::times(f, Real { bits: TWO }, thickness),
    ).larger(Real { bits: ONE });
    let pitch = number::over(f, data, number::whole((longest - 1) as nat));
    Layout {
        w,
        h,
        pitch_mm: pitch,
        half_w_mm: number::over(
            f,
            number::times(f, number::whole((w - 1) as nat), pitch),
            Real { bits: TWO },
        ),
        half_h_mm: number::over(
            f,
            number::times(f, number::whole((h - 1) as nat), pitch),
            Real { bits: TWO },
        ),
        thickness_mm: thickness,
        frame_near_mm: p.bezel(),
        frame_far_mm: p.plate(f),
        emboss_mm: p.emboss_mm,
        units: p.units,
        orientation: p.orientation,
    }
}

impl Layout {
    /// At least one quad, and counts that fit the machine.
    pub open spec fn wf(self) -> bool {
        self.w >= 2 && self.h >= 2 && self.full_count() <= usize::MAX
    }

    /// Vertices of the whole grid, nothing simplified.
    pub open spec fn full_vertices(self) -> int {
        self.w * self.h + self.loops() * self.around_len() + 1
    }

    pub open spec fn has_frame(self) -> bool {
        (Real { bits: ZERO }).below(self.thickness_mm)
    }

    /// Rings between the surface and the back plate's centre.
    pub open spec fn loops(self) -> int {
        if self.has_frame() {
            3
        } else {
            1
        }
    }

    pub open spec fn around_len(self) -> int {
        2 * (self.w + self.h) - 4
    }

    /// A grid within the offered sizes fits every machine.
    pub proof fn lemma_small(self)
        requires
            2 <= self.w <= 4096,
            2 <= self.h <= 4096,
        ensures
            self.wf(),
            self.full_vertices() <= u32::MAX,
    {
        crate::params::lemma_area_small(self.w as int, self.h as int);
        let p = self.around_len();
        let l = self.loops();
        assert((2 * l + 1) * p <= 7 * p && l * p <= 3 * p) by (nonlinear_arith)
            requires
                1 <= l <= 3,
                p >= 0,
        ;
        assert((self.w - 1) * (self.h - 1) <= 0x100_0000) by (nonlinear_arith)
            requires
                2 <= self.w <= 4096,
                2 <= self.h <= 4096,
        ;
    }

    pub proof fn lemma_bounds(self)
        requires
            self.wf(),
        ensures
            4 <= self.around_len() <= self.w * self.h,
            (self.w - 1) * (self.h - 1) <= self.w * self.h,
            0 <= (self.w - 1) * (self.h - 1),
            self.w <= self.w * self.h,
            self.h <= self.w * self.h,
            2 * ((self.w - 1) * (self.h - 1)) == 2 * (self.w * self.h) - self.around_len() - 2,
            self.full_count() == 2 * self.full_vertices() - 4,
            self.w * self.h + 3 * self.around_len() + 1 <= self.full_vertices() || (
            !self.has_frame() && self.w * self.h + self.around_len() + 1 == self.full_vertices()),
            self.full_vertices() <= usize::MAX,
            2 * (self.w + self.h) <= usize::MAX,
    {
        let w = self.w as int;
        let h = self.h as int;
        let p = self.around_len();
        assert(self.loops() * p == (if self.has_frame() {
            3 * p
        } else {
            p
        })) by (nonlinear_arith)
            requires
                self.loops() == (if self.has_frame() {
                    3int
                } else {
                    1
                }),
        ;
        assert((2 * self.loops() + 1) * p == 2 * (self.loops() * p) + p) by (nonlinear_arith);
        assert(2 * (w + h) - 4 <= w * h) by (nonlinear_arith)
            requires
                w >= 2,
                h >= 2,
        ;
        assert((w - 1) * (h - 1) == w * h - w - h + 1) by (nonlinear_arith);
        assert(0 <= (w - 1) * (h - 1)) by (nonlinear_arith)
            requires
                w >= 2,
                h >= 2,
        ;
        assert(w <= w * h) by (nonlinear_arith)
            requires
                w >= 2,
                h >= 2,
        ;
        assert(h <= w * h) by (nonlinear_arith)
            requires
                w >= 2,
                h >= 2,
        ;
    }

    pub fn new<F: Fn(Op, Real, Real) -> Real>(
        field: &HeightField,
        params: &Params,
        arith: &F,
    ) -> (r: Self)
        requires
            number::steady(*arith),
        ensures
            r == layout_of(*arith, *field, *params),
    {
        let w: usize = if field.w < 2 {
            2
        } else {
            field.w
        };
        let h: usize = if field.h < 2 {
            2
        } else {
            field.h
        };
        let thickness_mm = if params.framed() {
            params.frame_thickness_mm
        } else {
            Real { bits: ZERO }
        };
        // The requested size is the longest outer side, so the relief itself
        // gets what the frame leaves. Deriving the scale from the face keeps the
        // controls independent: the relief depth does not change the width.
        let both = number::ask(arith, Op::Times, Real { bits: TWO }, thickness_mm);
        let data = number::ask(arith, Op::Minus, params.size_mm, both).max(Real { bits: ONE });
        let longest: usize = if w >= h {
            w
        } else {
            h
        };
        let pitch_mm = number::ask(arith, Op::Over, data, Real::from_int((longest - 1) as u64));
        let across = number::ask(arith, Op::Times, Real::from_int((w - 1) as u64), pitch_mm);
        let down = number::ask(arith, Op::Times, Real::from_int((h - 1) as u64), pitch_mm);
        Layout {
            w,
            h,
            pitch_mm,
            half_w_mm: number::ask(arith, Op::Over, across, Real { bits: TWO }),
            half_h_mm: number::ask(arith, Op::Over, down, Real { bits: TWO }),
            thickness_mm,
            frame_near_mm: params.frame_near_clamped(),
            frame_far_mm: params.frame_far(arith),
            emboss_mm: params.emboss_mm,
            units: params.units,
            orientation: params.orientation,
        }
    }

    /// Does this solid have a bezel, or do its sides drop straight to the plate?
    pub fn framed(&self) -> (r: bool)
        ensures
            r == self.has_frame(),
    {
        (Real { bits: ZERO }).lt(self.thickness_mm)
    }

    /// Length of the border cycle.
    pub fn perimeter(&self) -> (r: usize)
        requires
            self.wf(),
        ensures
            r == self.around_len(),
    {
        proof {
            self.lemma_bounds();
        }
        2 * (self.w + self.h) - 4
    }

    /// Rings between the surface and the back plate's centre: three with a frame
    /// (rim, outer, back), one without (back).
    pub fn rings(&self) -> (r: usize)
        ensures
            r == self.loops(),
    {
        if self.framed() {
            3
        } else {
            1
        }
    }

    pub fn vertex_count(&self) -> (r: usize)
        requires
            self.wf(),
        ensures
            r == self.w * self.h + self.loops() * self.around_len() + 1,
    {
        proof {
            self.lemma_bounds();
        }
        self.w * self.h + self.rings() * self.perimeter() + 1
    }

    /// Two per quad, two per ring step per strip, one per back-plate fan step.
    pub open spec fn full_count(self) -> int {
        2 * ((self.w - 1) * (self.h - 1)) + (2 * self.loops() + 1) * self.around_len()
    }

    /// Triangles of the whole grid, nothing simplified.
    pub fn triangle_count(&self) -> (r: usize)
        requires
            self.wf(),
        ensures
            r == self.full_count(),
    {
        proof {
            self.lemma_bounds();
        }
        let rings: usize = self.rings();
        let p: usize = self.perimeter();
        assert((2 * rings + 1) * p <= 7 * p) by (nonlinear_arith)
            requires
                rings <= 3,
                p >= 0,
        ;
        2 * ((self.w - 1) * (self.h - 1)) + (2 * rings + 1) * p
    }

    /// Grid coordinates of the `k`th border vertex, counter-clockwise seen from
    /// the front: down the left column, right along the bottom, up the right
    /// column, left along the top.
    pub fn border(&self, k: usize) -> (r: (usize, usize))
        requires
            self.wf(),
            k < self.around_len(),
        ensures
            (r.0 as int, r.1 as int) == patch::around(self.w - 1, self.h - 1, k as int),
            r.0 < self.w,
            r.1 < self.h,
    {
        proof {
            self.lemma_bounds();
        }
        grid::border_point(self.w, self.h, k)
    }

    /// Where a grid vertex stands in the plane, measured from the centre.
    pub open spec fn flat_x<F: Fn(Op, Real, Real) -> Real>(self, f: F, i: int) -> Real {
        number::times(
            f,
            number::minus(f, number::whole(i as nat), half_steps(f, (self.w - 1) as nat)),
            self.pitch_mm,
        )
    }

    pub open spec fn flat_y<F: Fn(Op, Real, Real) -> Real>(self, f: F, j: int) -> Real {
        number::times(
            f,
            number::minus(f, half_steps(f, (self.h - 1) as nat), number::whole(j as nat)),
            self.pitch_mm,
        )
    }

    /// A border vertex pushed out to the frame's outer edge: edge vertices move
    /// perpendicular to their edge, the four corners diagonally.
    pub open spec fn outer_x<F: Fn(Op, Real, Real) -> Real>(self, f: F, i: int) -> Real {
        let edge = number::plus(f, self.half_w_mm, self.thickness_mm);
        if i == 0 {
            edge.opposite()
        } else if i == self.w - 1 {
            edge
        } else {
            self.flat_x(f, i)
        }
    }

    pub open spec fn outer_y<F: Fn(Op, Real, Real) -> Real>(self, f: F, j: int) -> Real {
        let edge = number::plus(f, self.half_h_mm, self.thickness_mm);
        if j == 0 {
            edge
        } else if j == self.h - 1 {
            edge.opposite()
        } else {
            self.flat_y(f, j)
        }
    }

    /// Position of a surface grid vertex.
    fn grid_xy<F: Fn(Op, Real, Real) -> Real>(&self, i: usize, j: usize, arith: &F) -> (r: (
        Real,
        Real,
    ))
        requires
            number::steady(*arith),
            self.wf(),
        ensures
            r.0 == self.flat_x(*arith, i as int),
            r.1 == self.flat_y(*arith, j as int),
    {
        let two = Real { bits: TWO };
        let mid_x = number::ask(arith, Op::Over, Real::from_int((self.w - 1) as u64), two);
        let mid_y = number::ask(arith, Op::Over, Real::from_int((self.h - 1) as u64), two);
        let x = number::ask(arith, Op::Minus, Real::from_int(i as u64), mid_x);
        let y = number::ask(arith, Op::Minus, mid_y, Real::from_int(j as u64));
        (
            number::ask(arith, Op::Times, x, self.pitch_mm),
            number::ask(arith, Op::Times, y, self.pitch_mm),
        )
    }

    fn outer_xy<F: Fn(Op, Real, Real) -> Real>(&self, i: usize, j: usize, arith: &F) -> (r: (
        Real,
        Real,
    ))
        requires
            number::steady(*arith),
            self.wf(),
        ensures
            r.0 == self.outer_x(*arith, i as int),
            r.1 == self.outer_y(*arith, j as int),
    {
        let (x, y) = self.grid_xy(i, j, arith);
        let edge_x = number::ask(arith, Op::Plus, self.half_w_mm, self.thickness_mm);
        let edge_y = number::ask(arith, Op::Plus, self.half_h_mm, self.thickness_mm);
        let x = if i == 0 {
            edge_x.neg()
        } else if i == self.w - 1 {
            edge_x
        } else {
            x
        };
        let y = if j == 0 {
            edge_y
        } else if j == self.h - 1 {
            edge_y.neg()
        } else {
            y
        };
        (x, y)
    }

    pub open spec fn extents<F: Fn(Op, Real, Real) -> Real>(self, f: F) -> Vector {
        let two = Real { bits: TWO };
        Vector {
            x: number::times(f, two, number::plus(f, self.half_w_mm, self.thickness_mm)),
            y: number::times(f, two, number::plus(f, self.half_h_mm, self.thickness_mm)),
            z: number::minus(f, self.frame_near_mm.larger(Real { bits: ZERO }), self.frame_far_mm),
        }
    }

    /// Bounding box in millimetres, in view space. The front-most plane is the
    /// bezel face where it stands proud, the relief's own front otherwise.
    pub fn extents_mm<F: Fn(Op, Real, Real) -> Real>(&self, arith: &F) -> (r: Vector)
        requires
            number::steady(*arith),
        ensures
            r == self.extents(*arith),
    {
        let two = Real { bits: TWO };
        let x = number::ask(arith, Op::Plus, self.half_w_mm, self.thickness_mm);
        let y = number::ask(arith, Op::Plus, self.half_h_mm, self.thickness_mm);
        let front = self.frame_near_mm.max(Real { bits: ZERO });
        Vector {
            x: number::ask(arith, Op::Times, two, x),
            y: number::ask(arith, Op::Times, two, y),
            z: number::ask(arith, Op::Minus, front, self.frame_far_mm),
        }
    }

    /// Relief depth: the number the step-size check divides.
    pub fn relief_mm(&self) -> (r: Real)
        ensures
            r == self.emboss_mm,
    {
        self.emboss_mm
    }

    /// View space turned into the print orientation and set on the bed.
    pub open spec fn printed<F: Fn(Op, Real, Real) -> Real>(self, f: F, p: Vector) -> Vector {
        match self.orientation {
            Orientation::FaceUp => Vector {
                x: p.x,
                y: p.y,
                z: number::minus(f, p.z, self.frame_far_mm),
            },
            Orientation::Upright => Vector {
                x: p.x,
                y: p.z.opposite(),
                z: number::plus(f, number::plus(f, p.y, self.half_h_mm), self.thickness_mm),
            },
        }
    }

    /// Rotate view space into the chosen print orientation and drop the result
    /// onto the bed. Millimetres in, millimetres out.
    pub fn to_print<F: Fn(Op, Real, Real) -> Real>(&self, p: Vector, arith: &F) -> (r: Vector)
        requires
            number::steady(*arith),
        ensures
            r == self.printed(*arith, p),
    {
        match self.orientation {
            Orientation::FaceUp => Vector {
                x: p.x,
                y: p.y,
                z: number::ask(arith, Op::Minus, p.z, self.frame_far_mm),
            },
            // A quarter turn: image-up becomes up, the relief faces the front.
            Orientation::Upright => {
                let half = number::ask(arith, Op::Plus, p.y, self.half_h_mm);
                Vector {
                    x: p.x,
                    y: p.z.neg(),
                    z: number::ask(arith, Op::Plus, half, self.thickness_mm),
                }
            },
        }
    }
}

/// Index blocks, so callers can talk about a vertex without knowing the layout.
#[derive(Debug, Clone, Copy, PartialEq, Eq, Structural)]
pub enum Block {
    Surface { i: usize, j: usize },
    /// The border lifted to the bezel plane. Framed solids only.
    Rim(usize),
    /// The rim pushed out to the frame's edge. Framed solids only.
    Outer(usize),
    /// The outline dropped to the back plate.
    Back(usize),
    Centre,
}

/// A closed relief solid over a borrowed height field.
pub struct Solid<'a> {
    pub layout: Layout,
    pub field: &'a HeightField,
    pub albedo: Option<&'a Albedo>,
    /// When present, the surface is the simplified triangulation instead of the
    /// full grid, and the frame is built on the border that it leaves behind.
    pub decimation: Option<&'a Decimation>,
}

/// The frame around a surface with `top` vertices and this border: strips from
/// ring to ring, and a fan that closes the back.
pub open spec fn closing(rim: Seq<u32>, top: int, framed: bool) -> Seq<[u32; 3]> {
    let p = rim.len();
    let a = topology::ring(top, p);
    if framed {
        let b = topology::ring(top + p, p);
        let c = topology::ring(top + 2 * p, p);
        topology::strip(rim, a) + topology::strip(a, b) + topology::strip(b, c) + topology::fan(
            c,
            (top + 3 * p) as u32,
        )
    } else {
        topology::strip(rim, a) + topology::fan(a, (top + p) as u32)
    }
}

/// What is reported while the frame is listed.
pub open spec fn closing_progress(framed: bool) -> Seq<Fraction> {
    if framed {
        seq![
            (Fraction { done: 1, total: 4 }),
            (Fraction { done: 2, total: 4 }),
            (Fraction { done: 3, total: 4 }),
            (Fraction { done: 4, total: 4 }),
        ]
    } else {
        seq![(Fraction { done: 3, total: 4 }), (Fraction { done: 4, total: 4 })]
    }
}

/// What is reported while a full grid is listed: each row.
pub open spec fn rows_progress(h: int) -> Seq<Fraction> {
    Seq::new((h - 1) as nat, |j: int| Fraction { done: (j + 1) as u64, total: (h - 1) as u64 })
}

/// The first four fifths of a whole.
pub open spec fn early(f: Fraction) -> Fraction {
    Fraction { done: (4 * f.done) as u64, total: (5 * f.total) as u64 }
}

/// The last fifth of a whole.
pub open spec fn late(f: Fraction) -> Fraction {
    Fraction { done: (4 * f.total + f.done) as u64, total: (5 * f.total) as u64 }
}

impl<'a> Solid<'a> {
    /// How many vertices the relief sheet has.
    pub open spec fn surface_count(self) -> int {
        match self.decimation {
            None => self.layout.w * self.layout.h,
            Some(d) => d.tree().vertex_count(),
        }
    }

    /// The triangles of the relief sheet.
    pub open spec fn surface(self) -> Seq<[u32; 3]> {
        match self.decimation {
            None => full::mesh(self.layout.w as int, self.layout.h as int),
            Some(d) => d.tree().mesh(),
        }
    }

    /// The border of the relief sheet, as vertex numbers.
    pub open spec fn rim(self) -> Seq<u32> {
        match self.decimation {
            None => full::rim(self.layout.w as int, self.layout.h as int),
            Some(d) => d.tree().rim(),
        }
    }

    /// Grid coordinates of the `k`th border vertex.
    pub open spec fn rim_point(self, k: int) -> (int, int) {
        match self.decimation {
            None => patch::around(self.layout.w - 1, self.layout.h - 1, k),
            Some(d) => d.tree().border()[k],
        }
    }

    pub open spec fn vertex_total(self) -> int {
        self.surface_count() + self.layout.loops() * self.rim().len() + 1
    }

    /// All triangles of the solid.
    pub open spec fn mesh(self) -> Seq<[u32; 3]> {
        self.surface() + self.frame()
    }

    /// Everything that turns the sheet into a solid.
    pub open spec fn frame(self) -> Seq<[u32; 3]> {
        closing(self.rim(), self.surface_count(), self.layout.has_frame())
    }

    pub open spec fn surface_progress(self) -> Seq<Fraction> {
        match self.decimation {
            None => rows_progress(self.layout.h as int),
            Some(d) => decimate::progress_of(d.tree()),
        }
    }

    pub open spec fn mesh_progress(self) -> Seq<Fraction> {
        let a = self.surface_progress();
        let b = closing_progress(self.layout.has_frame());
        Seq::new(a.len(), |i: int| early(a[i])) + Seq::new(b.len(), |i: int| late(b[i]))
    }

    /// The parts belong together, and vertex numbers fit.
    pub open spec fn wf(self) -> bool {
        &&& self.layout.wf()
        &&& self.field.wf()
        &&& self.layout.w == self.field.w
        &&& self.layout.h == self.field.h
        &&& self.albedo matches Some(a) ==> a.w * a.h <= usize::MAX
        &&& self.decimation matches Some(d) ==> d.wf() && d.tree().w() == self.layout.w
            && d.tree().h() == self.layout.h
        &&& self.layout.full_vertices() <= u32::MAX
    }

    /// The relief sheet is a sheet, and its counts are tied to each other.
    pub proof fn lemma_surface(self)
        requires
            self.wf(),
        ensures
            topology::sheet(self.surface(), self.rim(), self.surface_count()),
            self.surface().len() == 2 * self.surface_count() - self.rim().len() - 2,
            4 <= self.rim().len() <= self.layout.around_len() <= self.layout.w * self.layout.h,
            0 <= self.surface_count() <= self.layout.w * self.layout.h,
            self.layout.loops() * self.rim().len() == (if self.layout.has_frame() {
                3 * self.rim().len()
            } else {
                self.rim().len()
            }),
            (2 * self.layout.loops() + 1) * self.rim().len() == 2 * (self.layout.loops()
                * self.rim().len()) + self.rim().len(),
            self.vertex_total() <= self.layout.full_vertices() <= u32::MAX,
            self.vertex_total() <= usize::MAX,
            self.surface().len() + (2 * self.layout.loops() + 1) * self.rim().len() == 2
                * self.vertex_total() - 4,
            2 * self.vertex_total() - 4 <= usize::MAX,
            self.surface().len() <= 2 * (self.layout.w * self.layout.h),
    {
        let (w, h) = (self.layout.w as int, self.layout.h as int);
        self.layout.lemma_bounds();
        let (l, n) = (self.layout.loops(), self.rim().len() as int);
        assert(l * n == (if l == 3 {
            3 * n
        } else {
            n
        })) by (nonlinear_arith)
            requires
                l == 3 || l == 1,
        ;
        assert((2 * l + 1) * n == 2 * (l * n) + n) by (nonlinear_arith);
        let p = self.layout.around_len();
        assert(l * p == (if l == 3 {
            3 * p
        } else {
            p
        })) by (nonlinear_arith)
            requires
                l == 3 || l == 1,
        ;
        match self.decimation {
            None => {
                full::lemma_sheet(w, h);
            },
            Some(d) => {
                d.lemma_wf();
                d.tree().lemma_mesh_sheet();
                lemma_outline_short(d.tree(), d.tree().outline_len() as nat);
            },
        }
    }

    pub fn new<F: Fn(Op, Real, Real) -> Real>(
        field: &'a HeightField,
        params: &Params,
        arith: &F,
    ) -> (r: Self)
        requires
            number::steady(*arith),
        ensures
            r.layout == layout_of(*arith, *field, *params),
            r.field == field,
            r.albedo is None,
            r.decimation is None,
            field.wf() && field.w >= 2 && field.h >= 2 && r.layout.full_count() <= usize::MAX
                && r.layout.full_vertices() <= u32::MAX ==> r.wf(),
    {
        Solid { layout: Layout::new(field, params, arith), field, albedo: None, decimation: None }
    }

    pub fn with_albedo(self, albedo: Option<&'a Albedo>) -> (r: Self)
        ensures
            r.layout == self.layout,
            r.field == self.field,
            r.decimation == self.decimation,
            r.albedo == albedo,
    {
        Solid { layout: self.layout, field: self.field, albedo, decimation: self.decimation }
    }

    /// Use a simplified surface. The height field must be the one it was built
    /// from, or the vertices will not line up.
    pub fn with_decimation(self, decimation: Option<&'a Decimation>) -> (r: Self)
        ensures
            r.layout == self.layout,
            r.field == self.field,
            r.albedo == self.albedo,
            r.decimation == decimation,
    {
        Solid { layout: self.layout, field: self.field, albedo: self.albedo, decimation }
    }

    pub fn decimation(&self) -> (r: Option<&'a Decimation>)
        ensures
            r == self.decimation,
    {
        self.decimation
    }

    /// Is the surface simplified?
    pub fn has_leaves(&self) -> (r: bool)
        ensures
            r == self.decimation is Some,
    {
        self.decimation.is_some()
    }

    pub fn field(&self) -> (r: &'a HeightField)
        ensures
            r == self.field,
    {
        self.field
    }

    pub fn has_colour(&self) -> (r: bool)
        ensures
            r == self.albedo is Some,
    {
        self.albedo.is_some()
    }

    /// Surface vertices: every grid sample, or only the ones that survived.
    fn surface_vertices(&self) -> (r: usize)
        requires
            self.wf(),
        ensures
            r == self.surface_count(),
    {
        match self.decimation {
            None => self.layout.w * self.layout.h,
            Some(d) => d.vertices(),
        }
    }

    fn surface_triangles(&self) -> (r: usize)
        requires
            self.wf(),
        ensures
            r == self.surface().len(),
    {
        proof {
            self.layout.lemma_bounds();
            self.lemma_surface();
        }
        match self.decimation {
            None => 2 * ((self.layout.w - 1) * (self.layout.h - 1)),
            Some(d) => d.triangles(),
        }
    }

    /// Length of the border cycle the frame is built on.
    pub fn perimeter(&self) -> (r: usize)
        requires
            self.wf(),
        ensures
            r == self.rim().len(),
    {
        match self.decimation {
            None => self.layout.perimeter(),
            Some(d) => d.border().len(),
        }
    }

    /// Grid coordinates of the `k`th border vertex.
    pub fn border_cell(&self, k: usize) -> (r: (usize, usize))
        requires
            self.wf(),
            k < self.rim().len(),
        ensures
            (r.0 as int, r.1 as int) == self.rim_point(k as int),
            r.0 < self.layout.w,
            r.1 < self.layout.h,
    {
        match self.decimation {
            None => self.layout.border(k),
            Some(d) => {
                proof {
                    let t = d.tree();
                    d.lemma_wf();
                    t.lemma_border();
                    let p = t.border()[k as int];
                    t.lemma_used_inside(p);
                    grid::lemma_index(t.w(), t.h(), p.0, p.1);
                }
                let at: usize = d.border()[k] as usize;
                (at % self.layout.w, at / self.layout.w)
            },
        }
    }

    /// Vertex number of the `k`th border vertex.
    fn border_vertex(&self, k: usize) -> (r: u32)
        requires
            self.wf(),
            k < self.rim().len(),
        ensures
            r == self.rim()[k as int],
    {
        let (i, j) = self.border_cell(k);
        proof {
            grid::lemma_index(self.layout.w as int, self.layout.h as int, i as int, j as int);
        }
        let flat: u32 = (j * self.layout.w + i) as u32;
        match self.decimation {
            None => flat,
            Some(d) => d.compact(flat),
        }
    }

    pub fn vertex_count(&self) -> (r: usize)
        requires
            self.wf(),
        ensures
            r == self.vertex_total(),
    {
        proof {
            self.lemma_surface();
        }
        self.surface_vertices() + self.layout.rings() * self.perimeter() + 1
    }

    pub fn triangle_count(&self) -> (r: usize)
        requires
            self.wf(),
        ensures
            r == self.mesh().len(),
            r == self.surface().len() + (2 * self.layout.loops() + 1) * self.rim().len(),
    {
        proof {
            self.lemma_surface();
        }
        let rings: usize = self.layout.rings();
        let p: usize = self.perimeter();
        assert((2 * rings + 1) * p <= 7 * p) by (nonlinear_arith)
            requires
                rings <= 3,
                p >= 0,
        ;
        self.surface_triangles() + (2 * rings + 1) * p
    }
}

proof fn lemma_outline_short(t: crate::quadtree::Tree, n: nat)
    ensures
        t.outline(n).len() <= n,
    decreases n,
{
    if n > 0 {
        lemma_outline_short(t, (n - 1) as nat);
    }
}


// ---------------------------------------------------------------------------
// Positions and colours
// ---------------------------------------------------------------------------

impl<'a> Solid<'a> {
    /// Which block a flat vertex index falls in.
    pub open spec fn block_of(self, index: int, b: Block) -> bool {
        let top = self.surface_count();
        let p = self.rim().len() as int;
        if index < top {
            &&& b matches Block::Surface { i, j }
            &&& i < self.layout.w
            &&& j < self.layout.h
            &&& match self.decimation {
                None => j * self.layout.w + i == index,
                Some(d) => d.tree().used((i as int, j as int)) && (d.tree().number())(
                    (i as int, j as int),
                ) == index,
            }
        } else if self.layout.has_frame() {
            if index < top + p {
                b == Block::Rim((index - top) as usize)
            } else if index < top + 2 * p {
                b == Block::Outer((index - top - p) as usize)
            } else if index < top + 3 * p {
                b == Block::Back((index - top - 2 * p) as usize)
            } else {
                b == Block::Centre
            }
        } else if index < top + p {
            b == Block::Back((index - top) as usize)
        } else {
            b == Block::Centre
        }
    }

    /// Which block a flat vertex index falls in.
    pub fn block(&self, index: usize) -> (r: Block)
        requires
            self.wf(),
        ensures
            self.block_of(index as int, r),
    {
        proof {
            self.lemma_surface();
        }
        let surface: usize = self.surface_vertices();
        let p: usize = self.perimeter();
        if index < surface {
            let at: usize = match self.decimation {
                None => index,
                Some(d) => d.grid(index as u32) as usize,
            };
            proof {
                grid::lemma_cell(self.layout.w as int, self.layout.h as int, at as int);
            }
            return Block::Surface { i: at % self.layout.w, j: at / self.layout.w };
        }
        let k: usize = index - surface;
        if !self.layout.framed() {
            if k < p {
                Block::Back(k)
            } else {
                Block::Centre
            }
        } else if k < p {
            Block::Rim(k)
        } else if k - p < p {
            Block::Outer(k - p)
        } else if k - p - p < p {
            Block::Back(k - p - p)
        } else {
            Block::Centre
        }
    }

    /// View-space position of a vertex in some block.
    pub open spec fn place<F: Fn(Op, Real, Real) -> Real>(self, f: F, b: Block) -> Vector {
        let l = self.layout;
        match b {
            Block::Surface { i, j } => Vector {
                x: l.flat_x(f, i as int),
                y: l.flat_y(f, j as int),
                z: self.field.height(i as int, j as int),
            },
            Block::Rim(k) => Vector {
                x: l.flat_x(f, self.rim_point(k as int).0),
                y: l.flat_y(f, self.rim_point(k as int).1),
                z: l.frame_near_mm,
            },
            Block::Outer(k) => Vector {
                x: l.outer_x(f, self.rim_point(k as int).0),
                y: l.outer_y(f, self.rim_point(k as int).1),
                z: l.frame_near_mm,
            },
            Block::Back(k) => Vector {
                x: l.outer_x(f, self.rim_point(k as int).0),
                y: l.outer_y(f, self.rim_point(k as int).1),
                z: l.frame_far_mm,
            },
            Block::Centre => Vector {
                x: Real { bits: ZERO },
                y: Real { bits: ZERO },
                z: l.frame_far_mm,
            },
        }
    }

    /// The block of a vertex index.
    pub open spec fn at(self, index: int) -> Block {
        choose|b: Block| self.block_of(index, b)
    }

    /// A vertex index falls in one block only.
    pub proof fn lemma_one_block(self, index: int, a: Block, b: Block)
        requires
            self.wf(),
            0 <= index,
            self.block_of(index, a),
            self.block_of(index, b),
        ensures
            a == b,
            self.at(index) == a,
    {
        self.lemma_same_block(index, a, b);
        self.lemma_same_block(index, a, self.at(index));
    }

    proof fn lemma_same_block(self, index: int, a: Block, b: Block)
        requires
            self.wf(),
            0 <= index,
            self.block_of(index, a),
            self.block_of(index, b),
        ensures
            a == b,
    {
        if index < self.surface_count() {
            let (w, h) = (self.layout.w as int, self.layout.h as int);
            if let Block::Surface { i, j } = a {
                if let Block::Surface { i: k, j: l } = b {
                    grid::lemma_index(w, h, i as int, j as int);
                    grid::lemma_index(w, h, k as int, l as int);
                    if let Some(d) = self.decimation {
                        let t = d.tree();
                        d.lemma_wf();
                        t.lemma_used_inside((i as int, j as int));
                        t.lemma_used_inside((k as int, l as int));
                        let m = (j * w + i) as nat;
                        let n = (l * w + k) as nat;
                        t.lemma_rank_order(0, m);
                        t.lemma_rank_order(0, n);
                        t.lemma_rank_injective(m, n);
                    }
                }
            }
        }
    }

    /// Every vertex index falls in some block.
    pub proof fn lemma_some_block(self, index: int) -> (b: Block)
        requires
            self.wf(),
            0 <= index,
        ensures
            self.block_of(index, b),
    {
        let top = self.surface_count();
        let p = self.rim().len() as int;
        let (w, h) = (self.layout.w as int, self.layout.h as int);
        if index < top {
            self.lemma_surface();
            let k = match self.decimation {
                None => index,
                Some(d) => {
                    let t = d.tree();
                    decimate::law_numbers_round_trip(*d, index as u32);
                    let k = choose|k: nat|
                        t.keeps(k as int) && #[trigger] t.rank(k) == index as u32;
                    k as int
                },
            };
            grid::lemma_cell(w, h, k);
            Block::Surface { i: (k % w) as usize, j: (k / w) as usize }
        } else if self.layout.has_frame() {
            if index < top + p {
                Block::Rim((index - top) as usize)
            } else if index < top + 2 * p {
                Block::Outer((index - top - p) as usize)
            } else if index < top + 3 * p {
                Block::Back((index - top - 2 * p) as usize)
            } else {
                Block::Centre
            }
        } else if index < top + p {
            Block::Back((index - top) as usize)
        } else {
            Block::Centre
        }
    }

    /// View-space position in millimetres: x right, y up, relief towards the
    /// viewer.
    pub fn position<F: Fn(Op, Real, Real) -> Real>(&self, index: usize, arith: &F) -> (r: Vector)
        requires
            number::steady(*arith),
            self.wf(),
        ensures
            r == self.place(*arith, self.at(index as int)),
    {
        let b = self.block(index);
        proof {
            self.lemma_one_block(index as int, b, b);
            self.lemma_surface();
        }
        self.position_in(b, arith)
    }

    /// View-space position of a vertex in a block.
    fn position_in<F: Fn(Op, Real, Real) -> Real>(&self, b: Block, arith: &F) -> (r: Vector)
        requires
            number::steady(*arith),
            self.wf(),
            match b {
                Block::Surface { i, j } => i < self.layout.w && j < self.layout.h,
                Block::Rim(k) | Block::Outer(k) | Block::Back(k) => k < self.rim().len(),
                Block::Centre => true,
            },
        ensures
            r == self.place(*arith, b),
    {
        let l = &self.layout;
        match b {
            Block::Surface { i, j } => {
                let (x, y) = l.grid_xy(i, j, arith);
                Vector { x, y, z: self.field.at(i, j) }
            },
            Block::Rim(k) => {
                let (i, j) = self.border_cell(k);
                let (x, y) = l.grid_xy(i, j, arith);
                Vector { x, y, z: l.frame_near_mm }
            },
            Block::Outer(k) => {
                let (i, j) = self.border_cell(k);
                let (x, y) = l.outer_xy(i, j, arith);
                Vector { x, y, z: l.frame_near_mm }
            },
            Block::Back(k) => {
                let (i, j) = self.border_cell(k);
                let (x, y) = l.outer_xy(i, j, arith);
                Vector { x, y, z: l.frame_far_mm }
            },
            Block::Centre => Vector {
                x: Real { bits: ZERO },
                y: Real { bits: ZERO },
                z: l.frame_far_mm,
            },
        }
    }

    /// Where a vertex is written in a file.
    pub open spec fn written<F: Fn(Op, Real, Real) -> Real>(self, f: F, index: int) -> Vector {
        vector::scaled(
            f,
            self.layout.printed(f, self.place(f, self.at(index))),
            self.layout.units.factor(),
        )
    }

    /// Position as written to a file: print orientation, resting on the bed, in
    /// the chosen export unit.
    pub fn print_position<F: Fn(Op, Real, Real) -> Real>(&self, index: usize, arith: &F) -> (r:
        Vector)
        requires
            number::steady(*arith),
            self.wf(),
        ensures
            r == self.written(*arith, index as int),
    {
        let p = self.position(index, arith);
        self.layout.to_print(p, arith).scale(self.layout.units.per_mm(), arith)
    }

    /// The colour of a vertex in some block.
    pub open spec fn paint(self, b: Block) -> [u8; 3] {
        match (b, self.albedo) {
            (Block::Surface { i, j }, Some(a)) => a.tint(i as int, j as int),
            _ => [FRAME_GREY, FRAME_GREY, FRAME_GREY],
        }
    }

    /// Vertex colour, from the photo where there is one. Frame vertices stay
    /// grey whether or not a photo was supplied: the frame is not part of the
    /// picture.
    pub fn colour(&self, index: usize) -> (r: [u8; 3])
        requires
            self.wf(),
        ensures
            r == self.paint(self.at(index as int)),
    {
        let b = self.block(index);
        proof {
            self.lemma_one_block(index as int, b, b);
        }
        match (b, self.albedo) {
            (Block::Surface { i, j }, Some(a)) => a.at(i, j),
            _ => [FRAME_GREY, FRAME_GREY, FRAME_GREY],
        }
    }
}


// ---------------------------------------------------------------------------
// Triangles
// ---------------------------------------------------------------------------

/// The ring of `p` vertices from `base` on.
fn ring_of(base: u32, p: usize) -> (r: Vec<u32>)
    requires
        base + p <= u32::MAX,
    ensures
        r@ == topology::ring(base as int, p as nat),
{
    let mut r: Vec<u32> = Vec::with_capacity(p);
    let mut k: usize = 0;
    while k < p
        invariant
            base + p <= u32::MAX,
            k <= p,
            r@ == topology::ring(base as int, k as nat),
        decreases p - k,
    {
        r.push(base + k as u32);
        k = k + 1;
        assert(r@ =~= topology::ring(base as int, k as nat));
    }
    r
}

/// Two triangles per step between two rings.
///
/// Every strip is wound the same way, and that is forced: the surface's border
/// runs counter-clockwise, so a strip that shares it has to run along it
/// backwards. Each strip then hands the next ring its own edges in the cycle
/// direction again.
fn emit_strip(emit: &mut Vec<[u32; 3]>, a: &Vec<u32>, b: &Vec<u32>)
    requires
        a@.len() == b@.len(),
        a@.len() >= 1,
    ensures
        final(emit)@ == old(emit)@ + topology::strip(a@, b@),
{
    let ghost was = emit@;
    let ghost full = topology::strip(a@, b@);
    let n: usize = a.len();
    let mut k: usize = 0;
    assert(emit@ =~= was + full.take(0));
    while k < n
        invariant
            n == a@.len(),
            n == b@.len(),
            full == topology::strip(a@, b@),
            k <= n,
            emit@ == was + full.take(2 * k),
        decreases n - k,
    {
        let k2: usize = if k + 1 == n {
            0
        } else {
            k + 1
        };
        emit.push([a[k], b[k2], a[k2]]);
        emit.push([a[k], b[k], b[k2]]);
        proof {
            assert((2 * k) / 2 == k && (2 * k) % 2 == 0);
            assert((2 * k + 1) / 2 == k && (2 * k + 1) % 2 == 1);
            assert(full[2 * k] == [a@[k as int], b@[k2 as int], a@[k2 as int]]);
            assert(full[2 * k + 1] == [a@[k as int], b@[k as int], b@[k2 as int]]);
            assert(full.take(2 * k + 2) =~= full.take(2 * k).push(full[2 * k]).push(
                full[2 * k + 1],
            ));
            assert(emit@ =~= was + full.take(2 * (k + 1)));
        }
        k = k + 1;
    }
    assert(full.take(2 * n) =~= full);
}

/// The back plate, as a fan. Wound to face away from the viewer.
fn emit_fan(emit: &mut Vec<[u32; 3]>, a: &Vec<u32>, centre: u32)
    requires
        a@.len() >= 1,
    ensures
        final(emit)@ == old(emit)@ + topology::fan(a@, centre),
{
    let ghost was = emit@;
    let ghost full = topology::fan(a@, centre);
    let n: usize = a.len();
    let mut k: usize = 0;
    assert(emit@ =~= was + full.take(0));
    while k < n
        invariant
            n == a@.len(),
            full == topology::fan(a@, centre),
            k <= n,
            emit@ == was + full.take(k as int),
        decreases n - k,
    {
        let k2: usize = if k + 1 == n {
            0
        } else {
            k + 1
        };
        emit.push([centre, a[k2], a[k]]);
        proof {
            assert(full.take(k + 1) =~= full.take(k as int).push(full[k as int]));
            assert(emit@ =~= was + full.take(k + 1));
        }
        k = k + 1;
    }
    assert(full.take(n as int) =~= full);
}

/// Report the fractions of the first four fifths.
pub(crate) fn append_early(progress: &mut Vec<Fraction>, marks: &Vec<Fraction>)
    requires
        forall|i: int|
            0 <= i < marks@.len() ==> (#[trigger] marks@[i]).proper() && marks@[i].total
                <= 0x4_0000_0000,
    ensures
        final(progress)@ == old(progress)@ + Seq::new(marks@.len(), |i: int| early(marks@[i])),
{
    let ghost before = progress@;
    let mut n: usize = 0;
    assert(progress@ =~= before + Seq::new(0, |i: int| early(marks@[i])));
    while n < marks.len()
        invariant
            forall|i: int|
                0 <= i < marks@.len() ==> (#[trigger] marks@[i]).proper() && marks@[i].total
                    <= 0x4_0000_0000,
            n <= marks@.len(),
            progress@ == before + Seq::new(n as nat, |i: int| early(marks@[i])),
        decreases marks@.len() - n,
    {
        let m = marks[n];
        assert(marks@[n as int].proper());
        progress.push(Fraction { done: 4 * m.done, total: 5 * m.total });
        n = n + 1;
        assert(progress@ =~= before + Seq::new(n as nat, |i: int| early(marks@[i])));
    }
}

/// Report the fractions of the last fifth.
pub(crate) fn append_late(progress: &mut Vec<Fraction>, marks: &Vec<Fraction>)
    requires
        forall|i: int|
            0 <= i < marks@.len() ==> (#[trigger] marks@[i]).proper() && marks@[i].total
                <= 0x4_0000_0000,
    ensures
        final(progress)@ == old(progress)@ + Seq::new(marks@.len(), |i: int| late(marks@[i])),
{
    let ghost before = progress@;
    let mut n: usize = 0;
    assert(progress@ =~= before + Seq::new(0, |i: int| late(marks@[i])));
    while n < marks.len()
        invariant
            forall|i: int|
                0 <= i < marks@.len() ==> (#[trigger] marks@[i]).proper() && marks@[i].total
                    <= 0x4_0000_0000,
            n <= marks@.len(),
            progress@ == before + Seq::new(n as nat, |i: int| late(marks@[i])),
        decreases marks@.len() - n,
    {
        let m = marks[n];
        assert(marks@[n as int].proper());
        progress.push(Fraction { done: 4 * m.total + m.done, total: 5 * m.total });
        n = n + 1;
        assert(progress@ =~= before + Seq::new(n as nat, |i: int| late(marks@[i])));
    }
}

impl<'a> Solid<'a> {
    /// One row of quads of the full grid, two triangles each, wound so the
    /// normal points at the viewer.
    pub fn surface_row(&self, j: usize, emit: &mut Vec<[u32; 3]>)
        requires
            self.wf(),
            j + 1 < self.layout.h,
        ensures
            final(emit)@ == old(emit)@ + full::mesh(
                self.layout.w as int,
                self.layout.h as int,
            ).subrange(2 * (j * (self.layout.w - 1)), 2 * ((j + 1) * (self.layout.w - 1))),
    {
        let ghost was = emit@;
        let w: usize = self.layout.w;
        let ghost h = self.layout.h as int;
        let ghost whole = full::mesh(w as int, h);
        let ghost from = 2 * (j * (w - 1));
        proof {
            self.layout.lemma_bounds();
            assert(0 <= j * (w - 1) && (j + 1) * (w - 1) == j * (w - 1) + (w - 1) && (j + 1) * (w
                - 1) <= (w - 1) * (h - 1)) by (nonlinear_arith)
                requires
                    0 <= j,
                    j + 1 < h,
                    w >= 2,
            ;
            assert(emit@ =~= was + whole.subrange(from, from));
        }
        let mut i: usize = 0;
        while i < w - 1
            invariant
                self.wf(),
                w == self.layout.w,
                h == self.layout.h,
                j + 1 < h,
                whole == full::mesh(w as int, h),
                from == 2 * (j * (w - 1)),
                0 <= from,
                from + 2 * (w - 1) <= whole.len(),
                i <= w - 1,
                emit@ == was + whole.subrange(from, from + 2 * i),
            decreases w - 1 - i,
        {
            proof {
                grid::lemma_index(w as int, h, i as int, j as int);
                grid::lemma_index(w as int, h, i + 1, j + 1);
                grid::lemma_index(w - 1, h - 1, i as int, j as int);
                assert((j + 1) * w == j * w + w) by (nonlinear_arith);
                let n = from + 2 * i;
                assert(n / 2 == j * (w - 1) + i && n % 2 == 0);
                assert((n + 1) / 2 == j * (w - 1) + i && (n + 1) % 2 == 1);
                assert(whole[n] == full::face(w as int, n));
                assert(whole[n + 1] == full::face(w as int, n + 1));
            }
            let tl: u32 = (j * w + i) as u32;
            let tr: u32 = tl + 1;
            let bl: u32 = tl + w as u32;
            let br: u32 = bl + 1;
            emit.push([tl, bl, br]);
            emit.push([tl, br, tr]);
            proof {
                let n = from + 2 * i;
                assert(whole.subrange(from, n + 2) =~= whole.subrange(from, n).push(whole[n]).push(
                    whole[n + 1],
                ));
                assert(emit@ =~= was + whole.subrange(from, from + 2 * (i + 1)));
            }
            i = i + 1;
        }
    }

    /// The relief sheet alone.
    pub fn for_each_surface_triangle(
        &self,
        emit: &mut Vec<[u32; 3]>,
        progress: &mut Vec<Fraction>,
    )
        requires
            self.wf(),
        ensures
            final(emit)@ == old(emit)@ + self.surface(),
            final(progress)@ == old(progress)@ + self.surface_progress(),
    {
        if let Some(d) = self.decimation {
            d.for_each_triangle(emit, progress);
            return;
        }
        let ghost was = emit@;
        let ghost before = progress@;
        let h: usize = self.layout.h;
        let ghost w = self.layout.w as int;
        let ghost whole = self.surface();
        let ghost marks = rows_progress(h as int);
        let mut j: usize = 0;
        proof {
            self.layout.lemma_bounds();
            assert(0 * (w - 1) == 0);
            assert(emit@ =~= was + whole.take(0));
            assert(progress@ =~= before + marks.take(0));
        }
        while j < h - 1
            invariant
                self.wf(),
                self.decimation is None,
                w == self.layout.w,
                h == self.layout.h,
                whole == self.surface(),
                whole.len() == 2 * ((w - 1) * (h - 1)),
                marks == rows_progress(h as int),
                j <= h - 1,
                0 <= 2 * (j * (w - 1)) <= whole.len(),
                emit@ == was + whole.take(2 * (j * (w - 1))),
                progress@ == before + marks.take(j as int),
            decreases h - 1 - j,
        {
            proof {
                assert(0 <= j * (w - 1) && (j + 1) * (w - 1) == j * (w - 1) + (w - 1) && (j + 1) * (
                w - 1) <= (w - 1) * (h - 1)) by (nonlinear_arith)
                    requires
                        0 <= j,
                        j + 1 <= h - 1,
                        w >= 2,
                ;
            }
            self.surface_row(j, emit);
            progress.push(Fraction { done: (j + 1) as u64, total: (h - 1) as u64 });
            proof {
                let a = 2 * (j * (w - 1));
                let b = 2 * ((j + 1) * (w - 1));
                assert(whole.take(b) =~= whole.take(a) + whole.subrange(a, b));
                assert(emit@ =~= was + whole.take(b));
                assert(marks.take(j + 1) =~= marks.take(j as int).push(marks[j as int]));
                assert(progress@ =~= before + marks.take(j + 1));
            }
            j = j + 1;
        }
        proof {
            assert((h - 1) * (w - 1) == (w - 1) * (h - 1)) by (nonlinear_arith);
            assert(whole.take(whole.len() as int) =~= whole);
            assert(marks.take(marks.len() as int) =~= marks);
        }
    }

    /// Everything that turns the sheet into a solid: with a frame, the skirt,
    /// bezel, wall and plate; without one, the sides and the plate.
    pub fn for_each_frame_triangle(&self, emit: &mut Vec<[u32; 3]>, progress: &mut Vec<Fraction>)
        requires
            self.wf(),
        ensures
            final(emit)@ == old(emit)@ + self.frame(),
            final(progress)@ == old(progress)@ + closing_progress(self.layout.has_frame()),
    {
        let ghost was = emit@;
        let ghost before = progress@;
        proof {
            self.lemma_surface();
            self.layout.lemma_bounds();
        }
        let p: usize = self.perimeter();
        let top: u32 = self.surface_vertices() as u32;
        let step: u32 = p as u32;
        let mut border: Vec<u32> = Vec::with_capacity(p);
        let mut k: usize = 0;
        while k < p
            invariant
                self.wf(),
                p == self.rim().len(),
                k <= p,
                border@ == self.rim().take(k as int),
            decreases p - k,
        {
            border.push(self.border_vertex(k));
            k = k + 1;
            assert(border@ =~= self.rim().take(k as int));
        }
        assert(border@ =~= self.rim());
        let first = ring_of(top, p);
        if self.layout.framed() {
            // Skirt: the data border forward to the bezel plane. Bezel: flat
            // ring from the rim out to the frame edge. Wall: frame edge dropping
            // back to the plate.
            let second = ring_of(top + step, p);
            let third = ring_of(top + 2 * step, p);
            emit_strip(emit, &border, &first);
            progress.push(Fraction { done: 1, total: 4 });
            emit_strip(emit, &first, &second);
            progress.push(Fraction { done: 2, total: 4 });
            emit_strip(emit, &second, &third);
            progress.push(Fraction { done: 3, total: 4 });
            emit_fan(emit, &third, top + 3 * step);
            progress.push(Fraction { done: 4, total: 4 });
            proof {
                assert(emit@ =~= was + (topology::strip(border@, first@) + topology::strip(
                    first@,
                    second@,
                ) + topology::strip(second@, third@) + topology::fan(
                    third@,
                    (top + 3 * step) as u32,
                )));
                assert(progress@ =~= before + closing_progress(true));
            }
        } else {
            // The relief's own sides, straight from its border to the plate.
            emit_strip(emit, &border, &first);
            progress.push(Fraction { done: 3, total: 4 });
            emit_fan(emit, &first, top + step);
            progress.push(Fraction { done: 4, total: 4 });
            proof {
                assert(emit@ =~= was + (topology::strip(border@, first@) + topology::fan(
                    first@,
                    (top + step) as u32,
                )));
                assert(progress@ =~= before + closing_progress(false));
            }
        }
    }

    /// Emit every triangle as vertex indices: surface first, row by row, then
    /// the frame. `progress` gets a fraction every so often.
    pub fn for_each_triangle(&self, emit: &mut Vec<[u32; 3]>, progress: &mut Vec<Fraction>)
        requires
            self.wf(),
        ensures
            final(emit)@ == old(emit)@ + self.mesh(),
            final(progress)@ == old(progress)@ + self.mesh_progress(),
    {
        let ghost was = emit@;
        let ghost before = progress@;
        let mut sheet: Vec<Fraction> = Vec::new();
        let mut frame: Vec<Fraction> = Vec::new();
        self.for_each_surface_triangle(emit, &mut sheet);
        self.for_each_frame_triangle(emit, &mut frame);
        assert(emit@ =~= was + self.mesh());
        let ghost a = self.surface_progress();
        let ghost b = closing_progress(self.layout.has_frame());
        proof {
            assert(sheet@ =~= a);
            assert(frame@ =~= b);
            self.lemma_marks();
        }
        append_early(progress, &sheet);
        append_late(progress, &frame);
        assert(progress@ =~= before + self.mesh_progress());
    }

    /// The reported fractions lie between zero and one.
    pub proof fn lemma_marks(self)
        requires
            self.wf(),
        ensures
            forall|i: int|
                0 <= i < self.surface_progress().len() ==> (
                #[trigger] self.surface_progress()[i]).proper() && self.surface_progress()[i].total
                    <= 0x4_0000_0000,
            forall|i: int|
                0 <= i < closing_progress(self.layout.has_frame()).len() ==> (
                #[trigger] closing_progress(self.layout.has_frame())[i]).proper()
                    && closing_progress(self.layout.has_frame())[i].total <= 0x4_0000_0000,
    {
        self.layout.lemma_bounds();
        self.lemma_surface();
        if let Some(d) = self.decimation {
            let t = d.tree();
            d.lemma_wf();
            t.lemma_disc();
            let q = t.leaves();
            let a = decimate::progress_of(t);
            assert forall|i: int| 0 <= i < a.len() implies (#[trigger] a[i]).proper() && a[i].total
                <= 0x4_0000_0000 by {
                if i < q.len() {
                    crate::count::lemma_faces_of_take(q, i + 1);
                }
            }
        }
    }

    /// The same of the whole mesh.
    pub proof fn lemma_mesh_marks(self)
        requires
            self.wf(),
        ensures
            forall|i: int|
                0 <= i < self.mesh_progress().len() ==> (#[trigger] self.mesh_progress()[i]).proper()
                    && self.mesh_progress()[i].total <= 0x40_0000_0000,
            self.mesh_progress().len() > 0,
            self.mesh_progress().last().complete(),
    {
        self.lemma_marks();
        let a = self.surface_progress();
        let b = closing_progress(self.layout.has_frame());
        assert forall|i: int| 0 <= i < self.mesh_progress().len() implies (
        #[trigger] self.mesh_progress()[i]).proper() && self.mesh_progress()[i].total
            <= 0x40_0000_0000 by {
            if i < a.len() {
                assert(a[i].proper());
            } else {
                assert(b[i - a.len()].proper());
            }
        }
        assert(b[b.len() - 1].complete());
    }

    /// The frame grows with the outline of the grid, not with its area.
    pub proof fn lemma_frame_len(self)
        requires
            self.wf(),
        ensures
            self.frame().len() <= 14 * (self.layout.w + self.layout.h),
    {
        self.lemma_surface();
        assert(self.frame().len() <= 7 * self.rim().len());
    }

    /// On a grid within the offered sizes, the frame is small.
    pub proof fn lemma_frame_small(self)
        requires
            self.wf(),
            self.layout.w <= 4096,
            self.layout.h <= 4096,
        ensures
            3 * self.frame().len() <= u32::MAX,
    {
        self.lemma_surface();
        crate::params::lemma_area_small(self.layout.w as int, self.layout.h as int);
        assert(self.frame().len() <= 7 * self.rim().len());
    }

    /// Vertices can be numbered.
    pub proof fn lemma_counts(self)
        requires
            self.wf(),
        ensures
            0 < self.vertex_total() <= u32::MAX,
            self.mesh().len() <= 0x2_0000_0000,
    {
        self.lemma_surface();
        law_watertight(self);
    }
}

// ---------------------------------------------------------------------------
// Facets
// ---------------------------------------------------------------------------

/// A triangle as written to a file without indices: three positions and the
/// normal.
#[derive(Debug, Clone, Copy, PartialEq, Eq, Structural)]
pub struct Facet {
    pub a: Vector,
    pub b: Vector,
    pub c: Vector,
    pub normal: Vector,
}

impl<'a> Solid<'a> {
    pub open spec fn facet_of<F: Fn(Op, Real, Real) -> Real>(self, f: F, t: [u32; 3]) -> Facet {
        let a = self.written(f, t[0] as int);
        let b = self.written(f, t[1] as int);
        let c = self.written(f, t[2] as int);
        Facet { a, b, c, normal: vector::normal_of(f, a, b, c) }
    }

    /// One triangle as three print-space positions and its normal.
    pub fn facet<F: Fn(Op, Real, Real) -> Real>(&self, t: [u32; 3], arith: &F) -> (r: Facet)
        requires
            number::steady(*arith),
            self.wf(),
        ensures
            r == self.facet_of(*arith, t),
    {
        let a = self.print_position(t[0] as usize, arith);
        let b = self.print_position(t[1] as usize, arith);
        let c = self.print_position(t[2] as usize, arith);
        Facet { a, b, c, normal: a.normal(b, c, arith) }
    }

    /// Emit every triangle as three print-space positions and its normal.
    pub fn for_each_facet<F: Fn(Op, Real, Real) -> Real>(
        &self,
        emit: &mut Vec<Facet>,
        progress: &mut Vec<Fraction>,
        arith: &F,
    )
        requires
            number::steady(*arith),
            self.wf(),
        ensures
            final(emit)@ == old(emit)@ + Seq::new(
                self.mesh().len(),
                |i: int| self.facet_of(*arith, self.mesh()[i]),
            ),
            final(progress)@ == old(progress)@ + self.mesh_progress(),
    {
        let ghost was = emit@;
        let mut triangles: Vec<[u32; 3]> = Vec::new();
        self.for_each_triangle(&mut triangles, progress);
        let ghost m = self.mesh();
        assert(triangles@ =~= m);
        let mut n: usize = 0;
        assert(emit@ =~= was + Seq::new(0, |i: int| self.facet_of(*arith, m[i])));
        while n < triangles.len()
            invariant
                number::steady(*arith),
                self.wf(),
                m == self.mesh(),
                triangles@ == m,
                n <= m.len(),
                emit@ == was + Seq::new(n as nat, |i: int| self.facet_of(*arith, m[i])),
            decreases m.len() - n,
        {
            emit.push(self.facet(triangles[n], arith));
            n = n + 1;
            assert(emit@ =~= was + Seq::new(n as nat, |i: int| self.facet_of(*arith, m[i])));
        }
    }
}

// ---------------------------------------------------------------------------
// Laws
// ---------------------------------------------------------------------------

/// Whatever the grid, the frame and the simplification, the solid is closed and
/// consistently wound: every directed edge is run along exactly once, and so is
/// its reverse. It is of genus zero: with `v` vertices and `f` triangles, and so
/// `3f/2` edges, `v - 3f/2 + f` is two.
pub proof fn law_watertight(s: Solid)
    requires
        s.wf(),
    ensures
        topology::watertight(s.mesh()),
        topology::below(s.mesh(), s.vertex_total()),
        2 * s.vertex_total() - s.mesh().len() == 4,
        s.mesh().len() % 2 == 0,
{
    s.lemma_surface();
    let t = s.surface();
    let c = s.rim();
    let top = s.surface_count();
    let p = c.len() as int;
    let a = topology::ring(top, c.len());
    topology::lemma_grow(t, c, top);
    let t1 = t + topology::strip(c, a);
    if s.layout.has_frame() {
        let b = topology::ring(top + p, c.len());
        let d = topology::ring(top + 2 * p, c.len());
        topology::lemma_grow(t1, a, top + p);
        let t2 = t1 + topology::strip(a, b);
        topology::lemma_grow(t2, b, top + 2 * p);
        let t3 = t2 + topology::strip(b, d);
        topology::lemma_close(t3, d, top + 3 * p);
        assert(s.mesh() =~= t3 + topology::fan(d, (top + 3 * p) as u32));
    } else {
        topology::lemma_close(t1, a, top + p);
        assert(s.mesh() =~= t1 + topology::fan(a, (top + p) as u32));
    }
}

/// Every triangle has three different corners, and every vertex of the solid is
/// a corner of one.
pub proof fn law_every_vertex_is_used(s: Solid)
    requires
        s.wf(),
    ensures
        topology::tight(s.mesh(), s.vertex_total()),
{
    s.lemma_surface();
    s.layout.lemma_bounds();
    let t = s.surface();
    let c = s.rim();
    let top = s.surface_count();
    let p = c.len() as int;
    match s.decimation {
        None => {
            full::lemma_tight(s.layout.w as int, s.layout.h as int);
        },
        Some(d) => {
            d.lemma_wf();
            d.tree().lemma_mesh_tight();
        },
    }
    let a = topology::ring(top, c.len());
    topology::lemma_tight_strip(t, c, top);
    topology::lemma_ring(top, c.len());
    let t1 = t + topology::strip(c, a);
    if s.layout.has_frame() {
        let b = topology::ring(top + p, c.len());
        let d = topology::ring(top + 2 * p, c.len());
        topology::lemma_tight_strip(t1, a, top + p);
        topology::lemma_ring(top + p, c.len());
        let t2 = t1 + topology::strip(a, b);
        topology::lemma_tight_strip(t2, b, top + 2 * p);
        topology::lemma_ring(top + 2 * p, c.len());
        let t3 = t2 + topology::strip(b, d);
        topology::lemma_tight_fan(t3, d, top + 3 * p);
        assert(s.mesh() =~= t3 + topology::fan(d, (top + 3 * p) as u32));
    } else {
        topology::lemma_tight_fan(t1, a, top + p);
        assert(s.mesh() =~= t1 + topology::fan(a, (top + p) as u32));
    }
}

/// The border cycle is a closed walk of distinct vertices along the edge of the
/// grid, one step at a time.
pub proof fn law_border_cycle(w: int, h: int, k: int, m: int)
    requires
        w >= 2,
        h >= 2,
        0 <= k < 2 * (w + h) - 4,
        0 <= m < 2 * (w + h) - 4,
    ensures
        ({
            let p = patch::around(w - 1, h - 1, k);
            let q = patch::around(w - 1, h - 1, topology::succ(k, 2 * (w + h) - 4));
            let d = (q.0 - p.0, q.1 - p.1);
            &&& 0 <= p.0 < w
            &&& 0 <= p.1 < h
            &&& p.0 == 0 || p.0 == w - 1 || p.1 == 0 || p.1 == h - 1
            &&& d == (0int, 1int) || d == (0int, -1int) || d == (1int, 0int) || d == (-1int, 0int)
        }),
        patch::around(w - 1, h - 1, k) == patch::around(w - 1, h - 1, m) ==> k == m,
{
}

/// The unit of the file changes nothing but the numbers in the file: the layout
/// is the same in every other respect.
pub proof fn law_units_only_scale<F: Fn(Op, Real, Real) -> Real>(
    f: F,
    field: HeightField,
    p: Params,
    units: Units,
)
    ensures
        layout_of(f, field, Params { units, ..p }) == (Layout {
            units,
            ..layout_of(f, field, p)
        }),
        layout_of(f, field, Params { units, ..p }).extents(f) == layout_of(f, field, p).extents(f),
{
}

/// Two solids over the same field whose layouts differ only in how the file is
/// written have the same triangles, and every vertex in the same place.
pub proof fn law_same_shape<'a, F: Fn(Op, Real, Real) -> Real>(
    f: F,
    a: Solid<'a>,
    b: Solid<'a>,
    index: int,
)
    requires
        a.wf(),
        b.wf(),
        a.field == b.field,
        a.decimation == b.decimation,
        b.layout == (Layout {
            units: b.layout.units,
            orientation: b.layout.orientation,
            ..a.layout
        }),
        0 <= index,
    ensures
        a.mesh() == b.mesh(),
        a.vertex_total() == b.vertex_total(),
        a.place(f, a.at(index)) == b.place(f, b.at(index)),
{
    let c = a.lemma_some_block(index);
    a.lemma_one_block(index, c, c);
    assert(b.block_of(index, c));
    b.lemma_one_block(index, c, c);
}

/// The relief depth does not change the printed width and height.
pub proof fn law_depth_keeps_width<F: Fn(Op, Real, Real) -> Real>(
    f: F,
    field: HeightField,
    p: Params,
    emboss: Real,
)
    ensures
        ({
            let a = layout_of(f, field, p);
            let b = layout_of(f, field, Params { emboss_mm: emboss, ..p });
            &&& a.pitch_mm == b.pitch_mm
            &&& a.extents(f).x == b.extents(f).x
            &&& a.extents(f).y == b.extents(f).y
        }),
{
}

/// The frame's face never sits behind the deepest point of the relief.
pub proof fn law_frame_never_passes_the_relief<F: Fn(Op, Real, Real) -> Real>(
    f: F,
    field: HeightField,
    p: Params,
)
    requires
        p.has_frame(),
        !p.emboss_mm.nan(),
    ensures
        p.emboss_mm.opposite().at_most(layout_of(f, field, p).frame_near_mm),
{
}

/// Without a frame there is no bezel to offset: the bezel plane is the front of
/// the relief, and the settings for the bezel are ignored.
pub proof fn law_no_frame_no_bezel<F: Fn(Op, Real, Real) -> Real>(
    f: F,
    field: HeightField,
    p: Params,
)
    requires
        !p.has_frame(),
    ensures
        !layout_of(f, field, p).has_frame(),
        layout_of(f, field, p).frame_near_mm == (Real { bits: ZERO }),
        layout_of(f, field, p).loops() == 1,
{
}

/// A photo colours the relief and never the frame.
pub proof fn law_frame_stays_grey(s: Solid, index: int, b: Block)
    requires
        s.wf(),
        s.surface_count() <= index,
        s.block_of(index, b),
    ensures
        s.paint(b) == [FRAME_GREY, FRAME_GREY, FRAME_GREY],
{
}

/// The fractions reported while the triangles are listed lie between zero and
/// one, and the last one is one.
pub proof fn law_progress_ends_at_one(s: Solid)
    requires
        s.wf(),
    ensures
        forall|i: int|
            0 <= i < s.mesh_progress().len() ==> (#[trigger] s.mesh_progress()[i]).proper(),
        s.mesh_progress().len() > 0,
        s.mesh_progress().last().complete(),
{
    s.lemma_mesh_marks();
}

/// Twice the area of a triangle of grid points, counted positive when it faces
/// the viewer: rows run downwards.
pub open spec fn facing(t: [(int, int); 3]) -> int {
    (t[1].1 - t[0].1) * (t[2].0 - t[0].0) - (t[1].0 - t[0].0) * (t[2].1 - t[0].1)
}

/// Every triangle of the simplified surface faces the viewer.
pub proof fn law_surface_faces_the_viewer(d: Decimation, i: int)
    requires
        d.wf(),
        0 <= i < d.tree().faces().len(),
    ensures
        facing(d.tree().faces()[i]) > 0,
{
    let t = d.tree();
    d.lemma_wf();
    t.lemma_leaves();
    let at = topology::lemma_locate(t.parts(), i);
    let q = t.leaves()[at.0];
    t.lemma_cover(q.x, q.y);
    lemma_square_faces_viewer(q, at.1);
}

/// Where a vertex of a full grid `w` wide stands.
pub open spec fn spot(w: int, v: u32) -> (int, int) {
    (v as int % w, v as int / w)
}

proof fn lemma_spot(w: int, h: int, i: int, j: int)
    requires
        w >= 2,
        0 <= i < w,
        0 <= j < h,
        w * h <= u32::MAX,
    ensures
        0 <= j * w + i <= u32::MAX,
        spot(w, (j * w + i) as u32) == (i, j),
{
    assert(j * w + i <= w * h && 0 <= j * w) by (nonlinear_arith)
        requires
            0 <= i < w,
            0 <= j < h,
    ;
    vstd::arithmetic::div_mod::lemma_fundamental_div_mod_converse(j * w + i, w, j, i);
}

/// Every triangle of the full surface faces the viewer.
pub proof fn law_full_surface_faces_the_viewer(w: int, h: int, n: int)
    requires
        w >= 2,
        h >= 2,
        w * h <= u32::MAX,
        0 <= n < full::mesh(w, h).len(),
    ensures
        ({
            let t = full::mesh(w, h)[n];
            facing([spot(w, t[0]), spot(w, t[1]), spot(w, t[2])]) > 0
        }),
{
    let c = n / 2;
    let i = c % (w - 1);
    let j = c / (w - 1);
    assert(0 <= i < w - 1 && 0 <= j < h - 1) by (nonlinear_arith)
        requires
            w >= 2,
            0 <= c < (w - 1) * (h - 1),
            i == c % (w - 1),
            j == c / (w - 1),
    ;
    lemma_spot(w, h, i, j);
    lemma_spot(w, h, i + 1, j);
    lemma_spot(w, h, i, j + 1);
    lemma_spot(w, h, i + 1, j + 1);
    assert((j + 1) * w == j * w + w) by (nonlinear_arith);
    let t = full::mesh(w, h)[n];
    let a = [spot(w, t[0]), spot(w, t[1]), spot(w, t[2])];
    if n % 2 == 0 {
        assert(facing(a) == 1) by (nonlinear_arith)
            requires
                a[1].1 - a[0].1 == 1,
                a[2].0 - a[0].0 == 1,
                a[1].0 - a[0].0 == 0,
        ;
    } else {
        assert(facing(a) == 1) by (nonlinear_arith)
            requires
                a[1].1 - a[0].1 == 1,
                a[2].0 - a[0].0 == 1,
                a[2].1 - a[0].1 == 0,
        ;
    }
}

proof fn lemma_square_faces_viewer(q: crate::square::Square, i: int)
    requires
        q.wf(),
        0 <= i < q.faces().len(),
    ensures
        facing(q.faces()[i]) > 0,
{
    let s = q.span;
    let h = q.half();
    if s == 1 {
        let a = q.faces()[0];
        let b = q.faces()[1];
        assert(facing(a) == 1) by (nonlinear_arith)
            requires
                a[1].1 - a[0].1 == 1,
                a[2].0 - a[0].0 == 1,
                a[1].0 - a[0].0 == 0,
        ;
        assert(facing(b) == 1) by (nonlinear_arith)
            requires
                b[1].1 - b[0].1 == 1,
                b[2].0 - b[0].0 == 1,
                b[1].0 - b[0].0 == 1,
                b[2].1 - b[0].1 == 0,
        ;
    } else {
        q.lemma_fan_shape(i);
        assert(h > 0 && s == 2 * h);
        let (u, v) = (q.faces()[i][1], q.faces()[i][2]);
        let c = q.centre();
        assert(facing([c, u, v]) > 0) by (nonlinear_arith)
            requires
                h > 0,
                ({
                    let d = (u.0 - c.0, u.1 - c.1);
                    let e = (v.0 - c.0, v.1 - c.1);
                    ||| d.0 == -h && e.0 == -h && d.1 < e.1
                    ||| d.1 == h && e.1 == h && d.0 < e.0
                    ||| d.0 == h && e.0 == h && d.1 > e.1
                    ||| d.1 == -h && e.1 == -h && d.0 > e.0
                }),
        ;
        assert(q.faces()[i] == [c, u, v]);
    }
}

} // verus!
