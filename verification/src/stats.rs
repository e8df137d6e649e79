//! The numbers the status bar shows.
//!
//! Two of them are the point of this module. **Step size** is relief depth
//! divided by the number of levels the source could express; when it exceeds the
//! layer height, the depth map's quantisation is coarser than the printer and
//! shallow gradients terrace. **Triangle count** is the other: past a few
//! million triangles a file stops opening in a slicer.
//!
//! Everything here is millimetres. The export unit is about the *file*, not the
//! readouts.

use vstd::prelude::*;
use crate::check;
use crate::depth::BitDepth;
use crate::export::Format;
use crate::mesh::Solid;
use crate::number;
use crate::number::{Double, Op, Real};
use crate::params::{Params, Units, TRIANGLE_WARN};
use crate::text;

pub use crate::text::human_bytes;

verus! {

/// Grams of PLA per cubic millimetre, near enough to decide whether to print.
pub const PLA_G_PER_MM3: u32 = 0x3aa2_877f;

/// One hundredth.
pub const HUNDREDTH: u32 = 0x3c23_d70a;

/// One hundred.
pub const HUNDRED: u32 = 0x42c8_0000;

#[derive(Debug, Clone, Copy, PartialEq, Eq)]
pub struct Stats {
    pub grid: (usize, usize),
    pub vertices: usize,
    pub triangles: usize,
    /// Bounding box in millimetres: width, height, total thickness.
    pub bbox_mm: [Real; 3],
    /// How far the relief stands out of its plate.
    pub relief_mm: Real,
    /// Vertex spacing on the printed model — the finest detail it can carry.
    pub pitch_mm: Real,
    /// Whether the solid has a bezel at all.
    pub framed: bool,
    /// Triangles the same relief would need without simplification.
    pub full_triangles: usize,
    /// Simplification tolerance asked for, and the deviation actually reached.
    pub tolerance_mm: Real,
    pub achieved_error_mm: Real,
    /// Levels the source could express: 256 for 8-bit, 65536 for 16-bit.
    pub levels: u32,
    pub bits: BitDepth,
    /// Millimetres of relief per source level.
    pub step_mm: Real,
    pub layer_mm: Real,
    pub volume_mm3: Double,
    pub filament_g: Real,
    pub file_bytes: u64,
    pub format: Format,
    /// The unit the exported file's numbers will be written in.
    pub export_units: Units,
}

/// The caller's way to round to single precision always answers, and gives the
/// same answer to the same question.
pub open spec fn steady_narrowing<N: Fn(Double) -> Real>(n: N) -> bool {
    &&& forall|x: Double| #[trigger] call_requires(n, (x,))
    &&& forall|x: Double, r: Real| #[trigger] call_ensures(n, (x,), r) ==> r == narrowed(n, x)
}

pub open spec fn narrowed<N: Fn(Double) -> Real>(n: N, x: Double) -> Real {
    choose|r: Real| call_ensures(n, (x,), r)
}

/// Everything there is to say of a solid.
pub open spec fn stats_of<
    F: Fn(Op, Real, Real) -> Real,
    D: Fn(Double, Real) -> Double,
    N: Fn(Double) -> Real,
>(f: F, d: D, n: N, s: Solid, format: Format, p: Params) -> Stats {
    let report = check::summary_of(f, d, s);
    let e = s.layout.extents(f);
    let levels = s.field.bits.count();
    Stats {
        grid: (s.layout.w, s.layout.h),
        vertices: s.vertex_total() as usize,
        triangles: s.mesh().len() as usize,
        bbox_mm: [e.x, e.y, e.z],
        relief_mm: s.layout.emboss_mm,
        pitch_mm: s.layout.pitch_mm,
        framed: s.layout.has_frame(),
        full_triangles: s.layout.full_count() as usize,
        tolerance_mm: p.tolerance_mm,
        achieved_error_mm: match s.decimation {
            None => Real { bits: number::ZERO },
            Some(d) => d.error(),
        },
        levels,
        bits: s.field.bits,
        step_mm: number::over(f, s.layout.emboss_mm, number::whole((levels - 1) as nat)),
        layer_mm: p.layer_mm,
        volume_mm3: report.volume_mm3,
        filament_g: number::times(
            f,
            narrowed(n, report.volume_mm3),
            Real { bits: PLA_G_PER_MM3 },
        ),
        file_bytes: format.expected_len(s) as u64,
        format,
        export_units: p.units,
    }
}

impl Stats {
    pub fn new<
        F: Fn(Op, Real, Real) -> Real,
        D: Fn(Double, Real) -> Double,
        N: Fn(Double) -> Real,
    >(
        solid: &Solid,
        format: Format,
        params: &Params,
        arith: &F,
        total: &D,
        narrow: &N,
    ) -> (r: Self)
        requires
            number::steady(*arith),
            check::steady_sum(*total),
            steady_narrowing(*narrow),
            solid.wf(),
        ensures
            r == stats_of(*arith, *total, *narrow, *solid, format, *params),
    {
        let report = check::summary(solid, arith, total);
        let bbox = solid.layout.extents_mm(arith);
        let relief_mm: Real = solid.layout.relief_mm();
        let levels: u32 = solid.field.bits.levels();
        let achieved: Real = match solid.decimation {
            None => Real { bits: number::ZERO },
            Some(d) => d.max_error_mm(),
        };
        let step: Real = number::ask(
            arith,
            Op::Over,
            relief_mm,
            Real::from_int((levels - 1) as u64),
        );
        let mass: Real = number::ask(
            arith,
            Op::Times,
            narrow(report.volume_mm3),
            Real { bits: PLA_G_PER_MM3 },
        );
        Stats {
            grid: (solid.layout.w, solid.layout.h),
            vertices: report.vertices,
            triangles: report.triangles,
            bbox_mm: [bbox.x, bbox.y, bbox.z],
            relief_mm,
            pitch_mm: solid.layout.pitch_mm,
            framed: solid.layout.framed(),
            full_triangles: solid.layout.triangle_count(),
            tolerance_mm: params.tolerance_mm,
            achieved_error_mm: achieved,
            levels,
            bits: solid.field.bits,
            step_mm: step,
            layer_mm: params.layer_mm,
            volume_mm3: report.volume_mm3,
            filament_g: mass,
            file_bytes: format.estimated_bytes(solid),
            format,
            export_units: params.units,
        }
    }

    /// Is the depth map's quantisation finer than the printer's layers?
    pub fn steps_ok(&self) -> (r: bool)
        ensures
            r == self.step_mm.at_most(self.layer_mm),
    {
        self.step_mm.le(self.layer_mm)
    }

    /// Is the surface simplified, and did it achieve anything?
    pub fn simplified(&self) -> (r: bool)
        ensures
            r == ((Real { bits: number::ZERO }).below(self.tolerance_mm) && self.triangles
                < self.full_triangles),
    {
        (Real { bits: number::ZERO }).lt(self.tolerance_mm) && self.triangles < self.full_triangles
    }

    /// The share of the full-resolution triangles that is gone.
    pub open spec fn removed<F: Fn(Op, Real, Real) -> Real>(self, f: F) -> Real {
        if self.full_triangles == 0 {
            Real { bits: number::ZERO }
        } else {
            number::minus(
                f,
                Real { bits: number::ONE },
                number::over(
                    f,
                    number::whole(self.triangles as nat),
                    number::whole(self.full_triangles as nat),
                ),
            )
        }
    }

    /// Fraction of the full-resolution triangles removed.
    pub fn reduction<F: Fn(Op, Real, Real) -> Real>(&self, arith: &F) -> (r: Real)
        requires
            number::steady(*arith),
        ensures
            r == self.removed(*arith),
    {
        if self.full_triangles == 0 {
            return Real { bits: number::ZERO };
        }
        let left: Real = number::ask(
            arith,
            Op::Over,
            Real::from_int(self.triangles as u64),
            Real::from_int(self.full_triangles as u64),
        );
        number::ask(arith, Op::Minus, Real { bits: number::ONE }, left)
    }

    /// A tolerance that is on, and finer than the source's steps.
    pub open spec fn too_fine(self) -> bool {
        (Real { bits: number::ZERO }).below(self.tolerance_mm) && self.tolerance_mm.below(
            self.step_mm,
        )
    }

    /// Is the tolerance finer than the source can express?
    ///
    /// Below the quantisation step there is nothing to simplify: every step is a
    /// feature.
    pub fn tolerance_below_source(&self) -> (r: bool)
        ensures
            r == self.too_fine(),
    {
        (Real { bits: number::ZERO }).lt(self.tolerance_mm) && self.tolerance_mm.lt(self.step_mm)
    }

    pub open spec fn simplify_text<
        F: Fn(Op, Real, Real) -> Real,
        T: Fn(Real, usize) -> String,
    >(self, f: F, fixed: T) -> Seq<char> {
        if self.tolerance_mm.at_most(Real { bits: number::ZERO }) {
            "off — every grid vertex is kept"@
        } else if self.too_fine() {
            "blocked: "@ + text::shown(fixed, self.tolerance_mm, 3)
                + " mm is finer than the source's "@ + text::shown(fixed, self.step_mm, 3)
                + " mm step, so every step has to be kept. Raise the tolerance or pre-smooth."@
        } else {
            "−"@ + text::shown(
                fixed,
                number::times(f, Real { bits: HUNDRED }, self.removed(f)),
                0,
            ) + "% ("@ + text::decimal(self.triangles as nat) + " from "@ + text::decimal(
                self.full_triangles as nat,
            ) + "), worst deviation "@ + text::shown(fixed, self.achieved_error_mm, 3) + " mm of "@
                + text::shown(fixed, self.tolerance_mm, 3) + " allowed"@
        }
    }

    /// What simplification did, phrased for a person.
    pub fn simplify_line<F: Fn(Op, Real, Real) -> Real, T: Fn(Real, usize) -> String>(
        &self,
        arith: &F,
        fixed: &T,
    ) -> (r: String)
        requires
            number::steady(*arith),
            text::steady_text(*fixed),
        ensures
            r@ == self.simplify_text(*arith, *fixed),
    {
        if self.tolerance_mm.le(Real { bits: number::ZERO }) {
            return "off — every grid vertex is kept".to_owned();
        }
        if self.tolerance_below_source() {
            let mut r = "blocked: ".to_owned();
            text::append_fixed(&mut r, self.tolerance_mm, 3, fixed);
            r.append(" mm is finer than the source's ");
            text::append_fixed(&mut r, self.step_mm, 3, fixed);
            r.append(
                " mm step, so every step has to be kept. Raise the tolerance or pre-smooth.",
            );
            return r;
        }
        let gone: Real = number::ask(
            arith,
            Op::Times,
            Real { bits: HUNDRED },
            self.reduction(arith),
        );
        let mut r = "−".to_owned();
        text::append_fixed(&mut r, gone, 0, fixed);
        r.append("% (");
        r.append(text::number_text(self.triangles as u64).as_str());
        r.append(" from ");
        r.append(text::number_text(self.full_triangles as u64).as_str());
        r.append("), worst deviation ");
        text::append_fixed(&mut r, self.achieved_error_mm, 3, fixed);
        r.append(" mm of ");
        text::append_fixed(&mut r, self.tolerance_mm, 3, fixed);
        r.append(" allowed");
        r
    }

    /// Will this many triangles give a slicer trouble?
    pub fn slicer_strain(&self) -> (r: bool)
        ensures
            r == (self.triangles > TRIANGLE_WARN),
    {
        self.triangles > TRIANGLE_WARN
    }

    pub open spec fn bbox_text<T: Fn(Real, usize) -> String>(self, fixed: T) -> Seq<char> {
        text::shown(fixed, self.bbox_mm[0], 1) + " × "@ + text::shown(fixed, self.bbox_mm[1], 1)
            + " × "@ + text::shown(fixed, self.bbox_mm[2], 1) + " mm"@
    }

    pub fn bbox_line<T: Fn(Real, usize) -> String>(&self, fixed: &T) -> (r: String)
        requires
            text::steady_text(*fixed),
        ensures
            r@ == self.bbox_text(*fixed),
    {
        let mut r = fixed(self.bbox_mm[0], 1);
        r.append(" × ");
        text::append_fixed(&mut r, self.bbox_mm[1], 1, fixed);
        r.append(" × ");
        text::append_fixed(&mut r, self.bbox_mm[2], 1, fixed);
        r.append(" mm");
        r
    }

    pub fn relief_line<T: Fn(Real, usize) -> String>(&self, fixed: &T) -> (r: String)
        requires
            text::steady_text(*fixed),
        ensures
            r@ == text::shown(*fixed, self.relief_mm, 1) + " mm"@,
    {
        let mut r = fixed(self.relief_mm, 1);
        r.append(" mm");
        r
    }

    /// Vertex spacing, phrased as the detail the print can carry.
    pub fn pitch_line<T: Fn(Real, usize) -> String>(&self, fixed: &T) -> (r: String)
        requires
            text::steady_text(*fixed),
        ensures
            r@ == text::shown(*fixed, self.pitch_mm, 3) + " mm/vertex"@,
    {
        let mut r = fixed(self.pitch_mm, 3);
        r.append(" mm/vertex");
        r
    }

    pub open spec fn step_text<T: Fn(Real, usize) -> String>(self, fixed: T) -> Seq<char> {
        let places: usize = if self.step_mm.below(Real { bits: HUNDREDTH }) {
            4
        } else {
            3
        };
        let step = text::shown(fixed, self.step_mm, places);
        let layer = text::shown(fixed, self.layer_mm, 2);
        if self.step_mm.at_most(self.layer_mm) {
            step + " mm/level — finer than a "@ + layer + " mm layer"@
        } else {
            step + " mm/level — coarser than a "@ + layer
                + " mm layer; raise Smooth radius, lower Emboss height, or use a 16-bit map"@
        }
    }

    /// The step-size verdict, phrased for a person.
    pub fn step_line<T: Fn(Real, usize) -> String>(&self, fixed: &T) -> (r: String)
        requires
            text::steady_text(*fixed),
        ensures
            r@ == self.step_text(*fixed),
    {
        let places: usize = if self.step_mm.lt(Real { bits: HUNDREDTH }) {
            4
        } else {
            3
        };
        let mut r = fixed(self.step_mm, places);
        if self.steps_ok() {
            r.append(" mm/level — finer than a ");
            text::append_fixed(&mut r, self.layer_mm, 2, fixed);
            r.append(" mm layer");
        } else {
            r.append(" mm/level — coarser than a ");
            text::append_fixed(&mut r, self.layer_mm, 2, fixed);
            r.append(
                " mm layer; raise Smooth radius, lower Emboss height, or use a 16-bit map",
            );
        }
        r
    }

    pub open spec fn file_text(self) -> Seq<char> {
        text::size_text(self.file_bytes as nat) + " "@ + self.format.name() + " in "@
            + self.export_units.long_name()
    }

    pub fn file_line(&self) -> (r: String)
        ensures
            r@ == self.file_text(),
    {
        let mut r = text::human_bytes(self.file_bytes);
        r.append(" ");
        r.append(self.format.label());
        r.append(" in ");
        r.append(self.export_units.long_label());
        r
    }
}

// ---------------------------------------------------------------------------
// Laws
// ---------------------------------------------------------------------------

/// The readouts are millimetres whatever the export unit is: two sets of
/// parameters that differ in nothing else give the same numbers, but for the
/// unit itself.
pub proof fn law_readouts_are_millimetres<
    'a,
    F: Fn(Op, Real, Real) -> Real,
    D: Fn(Double, Real) -> Double,
    N: Fn(Double) -> Real,
    T: Fn(Real, usize) -> String,
>(f: F, d: D, n: N, fixed: T, s: Solid<'a>, t: Solid<'a>, format: Format, p: Params, units: Units)
    requires
        s.layout == crate::mesh::layout_of(f, *s.field, p),
        t.layout == crate::mesh::layout_of(f, *s.field, Params { units, ..p }),
        t.field == s.field,
        t.albedo == s.albedo,
        t.decimation == s.decimation,
    ensures
        ({
            let a = stats_of(f, d, n, s, format, p);
            let b = stats_of(f, d, n, t, format, Params { units, ..p });
            &&& a.bbox_text(fixed) == b.bbox_text(fixed)
            &&& a.relief_mm == b.relief_mm
            &&& a.pitch_mm == b.pitch_mm
            &&& a.step_text(fixed) == b.step_text(fixed)
            &&& a.simplify_text(f, fixed) == b.simplify_text(f, fixed)
            &&& a.triangles == b.triangles
            &&& a.vertices == b.vertices
            &&& b.export_units == units
        }),
{
    crate::mesh::law_units_only_scale(f, *s.field, p, units);
}

} // verus!
