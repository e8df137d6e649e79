//! The controls, their ranges, and their defaults.
//!
//! Everything physical is millimetres, which keeps the controls independent:
//! changing the relief depth does not change how wide the plaque prints. The
//! near and far planes are fractions, because they window the depth map's own
//! range, which has no physical unit until the emboss height gives it one.

use vstd::prelude::*;
use vstd::arithmetic::power2;
use crate::error::Error;
use crate::measure;
use crate::number;
use crate::number::{Op, Real, HALF, ONE, ZERO};
use crate::rounding;

verus! {

/// Longest side of the mesh grid, in pixels.
pub const SIZE_PX_MIN: u32 = 256;

pub const SIZE_PX_MAX: u32 = 4096;

/// Past this many pixels the settings panel says so.
pub const SIZE_PX_UPSTREAM_MAX: u32 = 1024;

/// Triangle count past which a slicer starts to struggle.
pub const TRIANGLE_WARN: usize = 3_000_000;

/// Printed size limits in millimetres, as bits: 10 and 1000.
pub const SIZE_MM_MIN: u32 = 0x4120_0000;

pub const SIZE_MM_MAX: u32 = 0x447a_0000;

/// Relief depth limits in millimetres, as bits: 0.2 and 100.
pub const EMBOSS_MM_MIN: u32 = 0x3e4c_cccd;

pub const EMBOSS_MM_MAX: u32 = 0x42c8_0000;

/// The largest simplification tolerance in millimetres, as bits: 1. Zero
/// switches simplification off.
pub const TOLERANCE_MM_MAX: u32 = 0x3f80_0000;

/// The bits of 0.02 and 0.4, the layer height limits.
pub const LAYER_MM_MIN: u32 = 0x3ca3_d70a;

pub const LAYER_MM_MAX: u32 = 0x3ecc_cccd;

/// The bits of 0.2 and 25, the back plate limits.
pub const BACK_MM_MIN: u32 = 0x3e4c_cccd;

pub const BACK_MM_MAX: u32 = 0x41c8_0000;

/// The bits of 2, the strongest blur.
pub const PRESMOOTH_MAX: u32 = 0x4000_0000;

/// Which way up the exported mesh sits.
#[derive(Debug, Clone, Copy, PartialEq, Eq, Structural)]
pub enum Orientation {
    /// Relief facing up, back plate on the bed.
    FaceUp,
    /// Standing on edge, the image's vertical axis along Z, so that the relief's
    /// gradient runs across layers instead of along them.
    Upright,
}

impl Default for Orientation {
    fn default() -> (r: Self)
        ensures
            r == Orientation::FaceUp,
    {
        Orientation::FaceUp
    }
}

impl Orientation {
    /// Every orientation, in the order that they are offered.
    pub fn all() -> (r: [Orientation; 2])
        ensures
            r@ == seq![Orientation::FaceUp, Orientation::Upright],
    {
        [Orientation::FaceUp, Orientation::Upright]
    }

    pub fn label(self) -> (r: &'static str)
        ensures
            r@ == (match self {
                Orientation::FaceUp => "Face up"@,
                Orientation::Upright => "Upright"@,
            }),
    {
        match self {
            Orientation::FaceUp => "Face up",
            Orientation::Upright => "Upright",
        }
    }
}

/// The unit the exported file's numbers are written in.
///
/// Mesh files store bare numbers, so the unit is a convention between writer
/// and reader. It changes the numbers in the file and nothing else.
#[derive(Debug, Clone, Copy, PartialEq, Eq, Structural)]
pub enum Units {
    Mm,
    In,
}

impl Default for Units {
    fn default() -> (r: Self)
        ensures
            r == Units::Mm,
    {
        Units::Mm
    }
}

impl Units {
    /// Every unit, in the order that they are offered.
    pub fn all() -> (r: [Units; 2])
        ensures
            r@ == seq![Units::Mm, Units::In],
    {
        [Units::Mm, Units::In]
    }

    pub fn label(self) -> (r: &'static str)
        ensures
            r@ == (match self {
                Units::Mm => "mm"@,
                Units::In => "in"@,
            }),
    {
        match self {
            Units::Mm => "mm",
            Units::In => "in",
        }
    }

    pub fn long_label(self) -> (r: &'static str)
        ensures
            r@ == self.long_name(),
    {
        match self {
            Units::Mm => "millimetres",
            Units::In => "inches",
        }
    }

    pub open spec fn long_name(self) -> Seq<char> {
        match self {
            Units::Mm => "millimetres"@,
            Units::In => "inches"@,
        }
    }

    /// One, and one divided by 25.4.
    pub open spec fn factor(self) -> Real {
        match self {
            Units::Mm => Real { bits: ONE },
            Units::In => Real { bits: 0x3d21_4285 },
        }
    }

    /// How many of this unit make a millimetre: the factor that exported
    /// coordinates are multiplied by.
    pub fn per_mm(self) -> (r: Real)
        ensures
            r == self.factor(),
    {
        match self {
            Units::Mm => Real { bits: ONE },
            Units::In => Real { bits: 0x3d21_4285 },
        }
    }

    /// Convert a millimetre value into this unit.
    pub fn from_mm<F: Fn(Op, Real, Real) -> Real>(self, mm: Real, arith: &F) -> (r: Real)
        requires
            number::steady(*arith),
        ensures
            r == number::times(*arith, mm, self.factor()),
            rounding::rounds(*arith) && mm.finite() ==> match self {
                Units::Mm => r.finite() && r.quanta() == mm.quanta(),
                Units::In => measure::in_inches(mm, r),
            },
    {
        proof {
            if rounding::rounds(*arith) && mm.finite() {
                rounding::lemma_once(*arith, mm);
                measure::lemma_inches(*arith, mm);
            }
        }
        number::ask(arith, Op::Times, mm, self.per_mm())
    }
}

/// Every knob the geometry depends on.
#[derive(Debug, Clone, Copy, PartialEq, Eq, Structural)]
pub struct Params {
    /// Depths in front of this clamp flat. A fraction of the depth map's range.
    pub near: Real,
    /// Depths behind this clamp to a plateau. A fraction of the same range.
    pub far: Real,
    /// How far the relief stands out of its plate.
    pub emboss_mm: Real,
    /// Flip the depth map.
    pub invert: bool,
    /// The longest side of the mesh grid, in vertices.
    pub size_px: u32,
    /// Longest outer side of the finished plaque, frame included.
    pub size_mm: Real,
    /// Median window in pixels, odd; one switches it off.
    pub filter_size: u32,
    /// Gaussian blur in pixels, for 8-bit inputs only; zero switches it off.
    pub presmooth: Real,
    /// Bezel width outside the relief. Zero means no frame at all.
    pub frame_thickness_mm: Real,
    /// Height of the bezel face above the front of the relief.
    pub frame_near_mm: Real,
    /// Back plate thickness behind the deepest point.
    pub frame_back_mm: Real,
    /// How far the simplified surface may deviate from the height field. Zero
    /// keeps every grid vertex.
    pub tolerance_mm: Real,
    /// Printer layer height, for the step-size check. Not geometry.
    pub layer_mm: Real,
    pub orientation: Orientation,
    /// The unit the exported file is written in. Readouts stay metric.
    pub units: Units,
}

/// The settings a first run starts from.
pub open spec fn defaults() -> Params {
    Params {
        near: Real { bits: ZERO },
        far: Real { bits: ONE },
        emboss_mm: Real { bits: 0x41a0_0000 },
        invert: false,
        size_px: 512,
        size_mm: Real { bits: 0x42c8_0000 },
        filter_size: 3,
        presmooth: Real { bits: ZERO },
        frame_thickness_mm: Real { bits: 0x40a0_0000 },
        frame_near_mm: Real { bits: ONE },
        frame_back_mm: Real { bits: ONE },
        tolerance_mm: Real { bits: 0x3d4c_cccd },
        layer_mm: Real { bits: 0x3dcc_cccd },
        orientation: Orientation::FaceUp,
        units: Units::Mm,
    }
}

/// A deep relief with its background cut away and a sunken bezel.
pub open spec fn example_settings() -> Params {
    Params {
        far: Real { bits: HALF },
        emboss_mm: Real { bits: 0x4234_0000 },
        frame_near_mm: Real { bits: 0xc1b0_0000 },
        ..defaults()
    }
}

/// The odd window at or above `n`, from one to five.
pub open spec fn odd_window(n: u32) -> u32 {
    if n <= 1 {
        1
    } else if n <= 3 {
        3
    } else {
        5
    }
}

pub open spec fn clamp_px(n: u32) -> u32 {
    if n < SIZE_PX_MIN {
        SIZE_PX_MIN
    } else if n > SIZE_PX_MAX {
        SIZE_PX_MAX
    } else {
        n
    }
}

/// The widest bezel that leaves 2 mm of relief across a plaque of this size:
/// exactly half of what is left.
pub open spec fn widest(size: Real, r: Real) -> bool {
    if size.nan() {
        r == (Real { bits: ZERO })
    } else {
        !r.negative() && r.finite() && 2 * r.value() == size.value() - 2 * power2::pow2(149)
    }
}

/// What clamping makes of `p`, with `w` as the widest bezel.
pub open spec fn clamped(p: Params, w: Real) -> Params {
    let zero = Real { bits: ZERO };
    let one = Real { bits: ONE };
    Params {
        near: p.near.between(zero, one),
        far: p.far.between(zero, one),
        emboss_mm: p.emboss_mm.between(
            Real { bits: EMBOSS_MM_MIN },
            Real { bits: EMBOSS_MM_MAX },
        ),
        invert: p.invert,
        size_px: clamp_px(p.size_px),
        size_mm: p.size_mm.between(Real { bits: SIZE_MM_MIN }, Real { bits: SIZE_MM_MAX }),
        filter_size: odd_window(p.filter_size),
        presmooth: p.presmooth.between(zero, Real { bits: PRESMOOTH_MAX }),
        frame_thickness_mm: p.frame_thickness_mm.between(zero, w),
        frame_near_mm: p.frame_near_mm.between(
            (Real { bits: EMBOSS_MM_MAX }).opposite(),
            Real { bits: EMBOSS_MM_MAX },
        ),
        frame_back_mm: p.frame_back_mm.between(Real { bits: BACK_MM_MIN }, Real { bits: BACK_MM_MAX }),
        tolerance_mm: p.tolerance_mm.between(zero, Real { bits: TOLERANCE_MM_MAX }),
        layer_mm: p.layer_mm.between(Real { bits: LAYER_MM_MIN }, Real { bits: LAYER_MM_MAX }),
        orientation: p.orientation,
        units: p.units,
    }
}

/// From `lo` to `hi`, as far as it is a number at all.
pub open spec fn within(r: Real, lo: Real, hi: Real) -> bool {
    r.nan() || (lo.at_most(r) && r.at_most(hi))
}

/// The size of plaque that clamping leaves.
pub open spec fn legal_size(p: Params) -> Real {
    p.size_mm.between(Real { bits: SIZE_MM_MIN }, Real { bits: SIZE_MM_MAX })
}

/// What clamping makes of `p`.
pub open spec fn legal(p: Params) -> Params {
    clamped(p, widest_for(legal_size(p)))
}

/// The widest bezel for a plaque of this size.
pub open spec fn widest_for(size: Real) -> Real {
    choose|w: Real| widest(size, w)
}

/// One side of the grid: the source's side scaled so that the longest side has
/// `size` vertices, rounded down, at least two.
pub open spec fn grid_side(size: u32, side: u32, other: u32) -> int {
    let longest = if side >= other && side >= 1 {
        side as int
    } else if other >= 1 {
        other as int
    } else {
        1
    };
    let n = size * side / longest;
    if n < 2 {
        2
    } else {
        n
    }
}

impl Default for Params {
    fn default() -> (r: Self)
        ensures
            r == defaults(),
    {
        Params {
            near: Real { bits: ZERO },
            far: Real { bits: ONE },
            emboss_mm: Real { bits: 0x41a0_0000 },
            invert: false,
            size_px: 512,
            size_mm: Real { bits: 0x42c8_0000 },
            filter_size: 3,
            presmooth: Real { bits: ZERO },
            frame_thickness_mm: Real { bits: 0x40a0_0000 },
            frame_near_mm: Real { bits: ONE },
            frame_back_mm: Real { bits: ONE },
            tolerance_mm: Real { bits: 0x3d4c_cccd },
            layer_mm: Real { bits: 0x3dcc_cccd },
            orientation: Orientation::FaceUp,
            units: Units::Mm,
        }
    }
}

impl Params {
    /// A deep relief with its background cut away and a sunken bezel.
    pub fn example() -> (r: Self)
        ensures
            r == example_settings(),
    {
        let mut p = Params::default();
        p.far = Real { bits: HALF };
        p.emboss_mm = Real { bits: 0x4234_0000 };
        p.frame_near_mm = Real { bits: 0xc1b0_0000 };
        p
    }

    pub open spec fn has_frame(self) -> bool {
        (Real { bits: ZERO }).below(self.frame_thickness_mm)
    }

    /// Is there a frame at all? A bezel of zero width is no frame: the relief's
    /// sides drop straight to the back plate.
    pub fn framed(&self) -> (r: bool)
        ensures
            r == self.has_frame(),
    {
        Real { bits: ZERO }.lt(self.frame_thickness_mm)
    }

    /// Clamp every field into its legal range, in place. An empty depth window
    /// stays what it is: see `validate`.
    pub fn clamp(&mut self)
        ensures
            *final(self) == legal(*old(self)),
            legal(*final(self)) == *final(self),
            exists|w: Real| #[trigger]
                widest(legal_size(*old(self)), w) && *final(self) == clamped(*old(self), w),
            final(self).in_range(),
            final(self).leaves_room(),
    {
        let zero = Real { bits: ZERO };
        let one = Real { bits: ONE };
        let ghost was = *self;
        self.near = self.near.clamp(zero, one);
        self.far = self.far.clamp(zero, one);
        self.size_px = if self.size_px < SIZE_PX_MIN {
            SIZE_PX_MIN
        } else if self.size_px > SIZE_PX_MAX {
            SIZE_PX_MAX
        } else {
            self.size_px
        };
        self.size_mm = self.size_mm.clamp(Real { bits: SIZE_MM_MIN }, Real { bits: SIZE_MM_MAX });
        self.emboss_mm = self.emboss_mm.clamp(
            Real { bits: EMBOSS_MM_MIN },
            Real { bits: EMBOSS_MM_MAX },
        );
        self.filter_size = if self.filter_size <= 1 {
            1
        } else if self.filter_size <= 3 {
            3
        } else {
            5
        };
        self.presmooth = self.presmooth.clamp(zero, Real { bits: PRESMOOTH_MAX });
        let w = widest_frame(self.size_mm);
        self.frame_thickness_mm = self.frame_thickness_mm.clamp(zero, w);
        self.frame_near_mm = self.frame_near_mm.clamp(
            Real { bits: EMBOSS_MM_MAX }.neg(),
            Real { bits: EMBOSS_MM_MAX },
        );
        self.frame_back_mm = self.frame_back_mm.clamp(
            Real { bits: BACK_MM_MIN },
            Real { bits: BACK_MM_MAX },
        );
        self.tolerance_mm = self.tolerance_mm.clamp(zero, Real { bits: TOLERANCE_MM_MAX });
        self.layer_mm = self.layer_mm.clamp(
            Real { bits: LAYER_MM_MIN },
            Real { bits: LAYER_MM_MAX },
        );
        assert(*self == clamped(was, w));
        assert(widest(legal_size(was), w));
        proof {
            lemma_widest_unique(
                legal_size(was),
                w,
                widest_for(legal_size(was)),
            );
            lemma_settled(was, w);
            law_clamping_bounds(was, w);
        }
    }

    /// Every setting lies within its limits.
    pub open spec fn in_range(self) -> bool {
        let zero = Real { bits: ZERO };
        let one = Real { bits: ONE };
        &&& within(self.near, zero, one)
        &&& within(self.far, zero, one)
        &&& within(self.emboss_mm, Real { bits: EMBOSS_MM_MIN }, Real { bits: EMBOSS_MM_MAX })
        &&& SIZE_PX_MIN <= self.size_px <= SIZE_PX_MAX
        &&& within(self.size_mm, Real { bits: SIZE_MM_MIN }, Real { bits: SIZE_MM_MAX })
        &&& 1 <= self.filter_size <= 5 && self.filter_size % 2 == 1
        &&& within(self.presmooth, zero, Real { bits: PRESMOOTH_MAX })
        &&& self.frame_thickness_mm.nan() || zero.at_most(self.frame_thickness_mm)
        &&& within(
            self.frame_near_mm,
            (Real { bits: EMBOSS_MM_MAX }).opposite(),
            Real { bits: EMBOSS_MM_MAX },
        )
        &&& within(self.frame_back_mm, Real { bits: BACK_MM_MIN }, Real { bits: BACK_MM_MAX })
        &&& within(self.tolerance_mm, zero, Real { bits: TOLERANCE_MM_MAX })
        &&& within(self.layer_mm, Real { bits: LAYER_MM_MIN }, Real { bits: LAYER_MM_MAX })
    }

    /// The frame leaves at least 2 mm of relief across.
    pub open spec fn leaves_room(self) -> bool {
        !self.size_mm.nan() && !self.frame_thickness_mm.nan() ==> self.size_mm.value() - 2
            * self.frame_thickness_mm.value() >= 2 * power2::pow2(149)
    }

    /// Neither plane is NaN, the window fits the filter, and the grid is no
    /// larger than offered: what a relief can be made with.
    pub open spec fn usable(self) -> bool {
        &&& !self.near.nan()
        &&& !self.far.nan()
        &&& self.filter_size <= 5
        &&& self.size_px <= SIZE_PX_MAX
    }

    /// Equal as numbers: plus and minus zero are the same, and NaN is the same
    /// as nothing.
    pub open spec fn equals(self, other: Params) -> bool {
        &&& self.near.equals(other.near)
        &&& self.far.equals(other.far)
        &&& self.emboss_mm.equals(other.emboss_mm)
        &&& self.invert == other.invert
        &&& self.size_px == other.size_px
        &&& self.size_mm.equals(other.size_mm)
        &&& self.filter_size == other.filter_size
        &&& self.presmooth.equals(other.presmooth)
        &&& self.frame_thickness_mm.equals(other.frame_thickness_mm)
        &&& self.frame_near_mm.equals(other.frame_near_mm)
        &&& self.frame_back_mm.equals(other.frame_back_mm)
        &&& self.tolerance_mm.equals(other.tolerance_mm)
        &&& self.layer_mm.equals(other.layer_mm)
        &&& self.orientation == other.orientation
        &&& self.units == other.units
    }

    /// Are these the same settings, number by number?
    pub fn same(&self, other: &Params) -> (r: bool)
        ensures
            r == self.equals(*other),
    {
        self.near.same(other.near) && self.far.same(other.far) && self.emboss_mm.same(
            other.emboss_mm,
        ) && self.invert == other.invert && self.size_px == other.size_px && self.size_mm.same(
            other.size_mm,
        ) && self.filter_size == other.filter_size && self.presmooth.same(other.presmooth)
            && self.frame_thickness_mm.same(other.frame_thickness_mm) && self.frame_near_mm.same(
            other.frame_near_mm,
        ) && self.frame_back_mm.same(other.frame_back_mm) && self.tolerance_mm.same(
            other.tolerance_mm,
        ) && self.layer_mm.same(other.layer_mm) && self.orientation == other.orientation
            && self.units == other.units
    }

    /// Nothing between the near and the far plane is an error.
    pub fn validate(&self) -> (r: Result<(), Error>)
        ensures
            r is Ok <==> !self.far.at_most(self.near),
            r matches Err(e) ==> e == (Error::EmptyDepthWindow { near: self.near, far: self.far }),
    {
        if self.far.le(self.near) {
            Err(Error::EmptyDepthWindow { near: self.near, far: self.far })
        } else {
            Ok(())
        }
    }

    pub open spec fn bezel(self) -> Real {
        if self.has_frame() {
            self.frame_near_mm.larger(self.emboss_mm.opposite())
        } else {
            Real { bits: ZERO }
        }
    }

    /// The bezel plane, clamped so that it never sits behind the deepest point
    /// of the relief, and zero when there is no frame.
    pub fn frame_near_clamped(&self) -> (r: Real)
        ensures
            r == self.bezel(),
            self.has_frame() && !self.emboss_mm.nan() ==> self.emboss_mm.opposite().at_most(r),
    {
        if self.framed() {
            self.frame_near_mm.max(self.emboss_mm.neg())
        } else {
            Real { bits: ZERO }
        }
    }

    pub open spec fn plate<F: Fn(Op, Real, Real) -> Real>(self, arith: F) -> Real {
        number::minus(arith, self.emboss_mm.opposite(), self.frame_back_mm)
    }

    /// Back of the solid, in millimetres (negative).
    pub fn frame_far<F: Fn(Op, Real, Real) -> Real>(&self, arith: &F) -> (r: Real)
        requires
            number::steady(*arith),
        ensures
            r == self.plate(*arith),
    {
        number::ask(arith, Op::Minus, self.emboss_mm.neg(), self.frame_back_mm)
    }

    /// Is the surface simplified at all?
    pub fn simplifies(&self) -> (r: bool)
        ensures
            r == (Real { bits: ZERO }).below(self.tolerance_mm),
    {
        Real { bits: ZERO }.lt(self.tolerance_mm)
    }

    /// Grid dimensions for a source image of this shape, longest side `size_px`.
    /// Always at least two in each axis: one quad is the smallest surface.
    pub fn grid_for(&self, src_w: u32, src_h: u32) -> (r: (usize, usize))
        ensures
            r.0 == grid_side(self.size_px, src_w, src_h),
            r.1 == grid_side(self.size_px, src_h, src_w),
            2 <= r.0 && (r.0 <= self.size_px || r.0 == 2),
            2 <= r.1 && (r.1 <= self.size_px || r.1 == 2),
    {
        let larger: u32 = if src_w >= src_h {
            src_w
        } else {
            src_h
        };
        let longest: u64 = if larger >= 1 {
            larger as u64
        } else {
            1
        };
        (
            scaled_side(self.size_px, src_w, longest),
            scaled_side(self.size_px, src_h, longest),
        )
    }
}

fn scaled_side(size: u32, side: u32, longest: u64) -> (r: usize)
    requires
        longest >= 1,
        side <= longest <= u32::MAX,
    ensures
        r == (if (size * side) / (longest as int) < 2 {
            2
        } else {
            (size * side) / (longest as int)
        }),
        2 <= r && (r <= size || r == 2),
{
    assert(0 <= size * side <= size * longest && size * longest <= 0xffff_ffff * 0xffff_ffff)
        by (nonlinear_arith)
        requires
            side <= longest <= u32::MAX,
    ;
    let n: u64 = (size as u64 * side as u64) / longest;
    assert(n <= size) by (nonlinear_arith)
        requires
            n == (size * side) / longest as int,
            size * side <= size * longest,
            longest >= 1,
    {
        vstd::arithmetic::div_mod::lemma_div_is_ordered(
            size * side,
            size * longest,
            longest as int,
        );
        vstd::arithmetic::div_mod::lemma_div_multiples_vanish(size as int, longest as int);
        assert(size * longest == longest * size) by (nonlinear_arith);
    }
    if n < 2 {
        2
    } else {
        n as usize
    }
}

/// Half of what a plaque of this size leaves beyond 2 mm. Exact: neither the
/// difference nor the half needs rounding.
fn widest_frame(size: Real) -> (r: Real)
    requires
        size.nan() || ((Real { bits: SIZE_MM_MIN }).at_most(size) && size.at_most(
            Real { bits: SIZE_MM_MAX },
        )),
    ensures
        widest(size, r),
        (Real { bits: ZERO }).at_most(r),
{
    if size.is_nan() {
        return Real { bits: ZERO };
    }
    let e: u32 = size.bits / 0x80_0000;
    let m: u64 = (size.bits % 0x80_0000 + 0x80_0000) as u64;
    assert(130 <= e <= 136);
    // In units of the last place of numbers between eight and sixteen.
    let shift: u64 = number::power(e - 130);
    proof {
        vstd::arithmetic::power2::lemma2_to64();
        number::lemma_pow2_order((e - 130) as nat, 6);
        assert(m * shift <= 0x100_0000 * 64) by (nonlinear_arith)
            requires
                m < 0x100_0000,
                shift <= 64,
        ;
        assert(e == 130 ==> shift == 1);
        assert(e > 130 ==> shift >= 2) by {
            if e > 130 {
                number::lemma_pow2_order(1, (e - 130) as nat);
            }
        }
        assert(m * shift >= 0xa0_0000) by (nonlinear_arith)
            requires
                m >= 0x80_0000,
                shift >= 2 || m >= 0xa0_0000,
                shift >= 1,
        ;
    }
    let t: u64 = m * shift - 0x20_0000;
    // The half of it, with its leading bit in place.
    let mut k: u32 = 0;
    let mut q: u64 = t;
    proof {
        vstd::arithmetic::mul::lemma_mul_basics(t as int);
    }
    while q >= 0x100_0000
        invariant
            k <= e - 130,
            130 <= e <= 136,
            0x80_0000 <= q,
            q * power2::pow2(k as nat) == t,
            t == m * shift - 0x20_0000,
            shift == power2::pow2((e - 130) as nat),
            m < 0x100_0000,
        decreases q,
    {
        proof {
            lemma_halves(q as int, k as nat, m as int, (e - 130) as nat);
        }
        k = k + 1;
        q = q / 2;
    }
    let r = Real { bits: (128 + k) * 0x80_0000 + q as u32 };
    proof {
        let p = power2::pow2(129);
        assert(r.magnitude() == (128 + k) * 0x80_0000 + q);
        assert(r.exponent() == 129 + k && r.significand() == q);
        power2::lemma_pow2_adds(128, k as nat);
        power2::lemma_pow2_unfold(129);
        power2::lemma_pow2_adds((e - 130) as nat, 129);
        power2::lemma_pow2_adds(20, 129);
        assert((e - 130) as nat + 129 == (e - 1) as nat);
        assert(2 * (q * power2::pow2((128 + k) as nat)) == t * p) by (nonlinear_arith)
            requires
                power2::pow2((128 + k) as nat) == power2::pow2(128) * power2::pow2(k as nat),
                p == 2 * power2::pow2(128),
                q * power2::pow2(k as nat) == t,
        ;
        assert(m * power2::pow2((e - 1) as nat) == (m * shift) * p) by (nonlinear_arith)
            requires
                power2::pow2((e - 1) as nat) == shift * p,
        ;
        assert((m * shift) * p - 0x20_0000 * p == t * p) by (nonlinear_arith)
            requires
                t == m * shift - 0x20_0000,
        ;
    }
    r
}

/// A number too long for the significand has an even part to give up.
proof fn lemma_halves(q: int, k: nat, m: int, s: nat)
    requires
        q >= 0x100_0000,
        s <= 6,
        k <= s,
        m < 0x100_0000,
        q * power2::pow2(k) == m * power2::pow2(s) - 0x20_0000,
    ensures
        k < s,
        q % 2 == 0,
        (q / 2) * power2::pow2(k + 1) == q * power2::pow2(k),
{
    number::lemma_pow2_order(k, s);
    vstd::arithmetic::power2::lemma2_to64();
    let a = power2::pow2(k) as int;
    let b = power2::pow2((s - k) as nat) as int;
    let c = power2::pow2((21 - k) as nat) as int;
    power2::lemma_pow2_adds(k, (21 - k) as nat);
    assert(a * c == 0x20_0000);
    assert(q == m * b - c) by (nonlinear_arith)
        requires
            q * a == m * (a * b) - a * c,
            a > 0,
    ;
    if k == s {
        assert(b == 1);
        assert(false) by (nonlinear_arith)
            requires
                q == m * b - c,
                b == 1,
                m < 0x100_0000,
                q >= 0x100_0000,
                c >= 0,
        ;
    }
    power2::lemma_pow2_unfold((s - k) as nat);
    power2::lemma_pow2_unfold((21 - k) as nat);
    let b2 = power2::pow2((s - k - 1) as nat) as int;
    let c2 = power2::pow2((20 - k) as nat) as int;
    assert(q == 2 * (m * b2 - c2)) by (nonlinear_arith)
        requires
            q == m * b - c,
            b == 2 * b2,
            c == 2 * c2,
    ;
    power2::lemma_pow2_unfold(k + 1);
    assert((q / 2) * (2 * a) == q * a) by (nonlinear_arith)
        requires
            q % 2 == 0,
    ;
}

/// What has been clamped stays as it is when it is clamped again.
proof fn lemma_settled(p: Params, w: Real)
    requires
        widest(legal_size(p), w),
        (Real { bits: ZERO }).at_most(w),
        w == widest_for(legal_size(p)),
    ensures
        legal(clamped(p, w)) == clamped(p, w),
{
    let q = clamped(p, w);
    assert(legal_size(q) == legal_size(p));
    assert(q.frame_thickness_mm.between(Real { bits: ZERO }, w) == q.frame_thickness_mm);
}

/// Clamping leaves the widest bezel to one value: the contract of `clamp` fixes
/// its result.
pub proof fn lemma_widest_unique(size: Real, a: Real, b: Real)
    requires
        widest(size, a),
        widest(size, b),
    ensures
        a == b,
{
    if !size.nan() {
        lemma_value_order(a, b);
        lemma_value_order(b, a);
    }
}

/// Larger bits, larger value.
proof fn lemma_value_order(a: Real, b: Real)
    requires
        !a.negative(),
        !b.negative(),
        a.finite(),
        b.finite(),
    ensures
        a.bits < b.bits ==> a.value() < b.value(),
{
    if a.bits < b.bits {
        let (ea, eb) = (a.exponent(), b.exponent());
        let (ma, mb) = (a.significand(), b.significand());
        assert(ea <= eb);
        vstd::arithmetic::power2::lemma2_to64();
        if ea == 0 {
            if eb > 0 {
                let p = power2::pow2((eb - 1) as nat);
                power2::lemma_pow2_pos((eb - 1) as nat);
                assert(mb * p >= mb) by (nonlinear_arith)
                    requires
                        p >= 1,
                        mb >= 0,
                ;
            }
        } else if ea == eb {
            let p = power2::pow2((eb - 1) as nat);
            power2::lemma_pow2_pos((eb - 1) as nat);
            assert(ma * p < mb * p) by (nonlinear_arith)
                requires
                    p >= 1,
                    ma < mb,
            ;
        } else {
            let p = power2::pow2((ea - 1) as nat);
            let q = power2::pow2((eb - 1) as nat);
            number::lemma_pow2_order((ea - 1) as nat, (eb - 1) as nat);
            number::lemma_pow2_order(1, (eb - ea) as nat);
            assert((eb - 1) as nat - (ea - 1) as nat == eb - ea);
            assert(ma * p < mb * q) by (nonlinear_arith)
                requires
                    q == p * power2::pow2((eb - ea) as nat),
                    power2::pow2((eb - ea) as nat) >= 2,
                    p >= 1,
                    ma < 0x100_0000,
                    mb >= 0x80_0000,
            ;
        }
    }
}

/// A grid within the offered sizes is small enough for everything that is
/// counted on it.
pub proof fn lemma_area_small(w: int, h: int)
    requires
        2 <= w <= SIZE_PX_MAX,
        2 <= h <= SIZE_PX_MAX,
    ensures
        4 <= w * h <= 0x100_0000,
        w * w <= 0x100_0000,
        h * h <= 0x100_0000,
{
    assert(4 <= w * h <= 0x100_0000 && w * w <= 0x100_0000 && h * h <= 0x100_0000)
        by (nonlinear_arith)
        requires
            2 <= w <= 4096,
            2 <= h <= 4096,
    ;
}

/// Both sides of the grid stay within the size that is asked for.
pub proof fn lemma_grid_small(p: Params, w: u32, h: u32)
    requires
        p.size_px <= SIZE_PX_MAX,
    ensures
        2 <= grid_side(p.size_px, w, h) <= SIZE_PX_MAX,
        2 <= grid_side(p.size_px, h, w) <= SIZE_PX_MAX,
        grid_side(p.size_px, w, h) * grid_side(p.size_px, h, w) <= 0x100_0000,
{
    lemma_side_small(p.size_px, w, h);
    lemma_side_small(p.size_px, h, w);
    lemma_area_small(grid_side(p.size_px, w, h), grid_side(p.size_px, h, w));
}

proof fn lemma_side_small(size: u32, side: u32, other: u32)
    requires
        size <= SIZE_PX_MAX,
    ensures
        2 <= grid_side(size, side, other) <= SIZE_PX_MAX,
{
    let longest = if side >= other && side >= 1 {
        side as int
    } else if other >= 1 {
        other as int
    } else {
        1
    };
    assert(size * side / longest <= size) by (nonlinear_arith)
        requires
            0 <= side <= longest,
            longest >= 1,
            size >= 0,
    {
        assert(size * side <= size * longest);
        vstd::arithmetic::div_mod::lemma_div_is_ordered(size * side, size * longest, longest);
        vstd::arithmetic::div_mod::lemma_div_multiples_vanish(size as int, longest);
    }
}

/// Clamped settings lie within their limits, and their frame does not eat the
/// picture.
pub proof fn law_clamping_bounds(p: Params, w: Real)
    requires
        widest(legal_size(p), w),
    ensures
        clamped(p, w).in_range(),
        clamped(p, w).leaves_room(),
{
    let q = clamped(p, w);
    let t = q.frame_thickness_mm;
    if !q.size_mm.nan() && !t.nan() {
        if !t.negative() {
            lemma_value_order(t, w);
        } else {
            assert(t.value() == 0);
        }
    }
}

} // verus!
