//! What the panels around the view say, and what their controls do.

use vstd::prelude::*;
use crate::depth::{BitDepth, DepthMap, HeightField};
use crate::export::Format;
use crate::number;
use crate::number::{Op, Real};
use crate::params;
use crate::params::{
    Orientation, Params, Units, EMBOSS_MM_MAX, EMBOSS_MM_MIN, SIZE_MM_MAX, SIZE_MM_MIN, SIZE_PX_MIN,
    SIZE_PX_UPSTREAM_MAX, TOLERANCE_MM_MAX,
};
use crate::platform::Saved;
use crate::rebuild;
use crate::state::{AppState, Status, Tone};
use crate::stats;
use crate::stats::Stats;
use crate::text;

verus! {

/// One thousandth.
pub const MILLI: u32 = 0x3a83_126f;

/// 50.
pub const FIFTY: u32 = 0x4248_0000;

/// -50.
pub const NEG_FIFTY: u32 = 0xc248_0000;

/// A setting that a control changes.
#[derive(Debug, Clone, Copy, PartialEq, Eq, Structural)]
pub enum Field {
    Near,
    Far,
    Emboss,
    Invert,
    SizeMm,
    SizePx,
    Tolerance,
    FilterSize,
    Presmooth,
    Thickness,
    FrameNear,
    FrameBack,
    Orientation,
    Layer,
    Units,
    ShowTiles,
}

/// How a setting is changed.
#[derive(Debug, Clone, Copy, PartialEq, Eq)]
pub enum Control {
    /// A fraction, shown as a percentage with one decimal.
    Percent,
    /// A number within bounds. Steps are counted in thousandths; zero leaves
    /// them free.
    Slider { min: Real, max: Real, decimals: usize, step: u32, suffix: &'static str },
    /// A whole number within bounds.
    Whole { from: u32, to: u32, step: u32, suffix: &'static str },
    Check,
    /// One of two.
    Choice { off: &'static str, on: &'static str },
}

/// A line of the settings panel.
#[derive(Debug, Clone, Copy, PartialEq, Eq)]
pub struct Row {
    pub label: &'static str,
    pub tooltip: &'static str,
    pub control: Control,
    pub enabled: bool,
}

/// What stands in the settings panel.
#[derive(Debug, Clone, Copy, PartialEq, Eq, Structural)]
pub enum Item {
    Heading(Section),
    Setting(Field),
    Remark(Remark),
}

#[derive(Debug, Clone, Copy, PartialEq, Eq, Structural)]
pub enum Section {
    DepthRange,
    SizeAndDetail,
    Frame,
    Printing,
    View,
}

/// Something the last build measured, next to the control that set it.
#[derive(Debug, Clone, Copy, PartialEq, Eq, Structural)]
pub enum Remark {
    Grid,
    Simplify,
    Frame,
}

impl Section {
    pub open spec fn title(self) -> Seq<char> {
        match self {
            Section::DepthRange => "Depth range"@,
            Section::SizeAndDetail => "Size and detail"@,
            Section::Frame => "Frame"@,
            Section::Printing => "Printing"@,
            Section::View => "View"@,
        }
    }

    pub fn label(self) -> (r: &'static str)
        ensures
            r@ == self.title(),
    {
        match self {
            Section::DepthRange => "Depth range",
            Section::SizeAndDetail => "Size and detail",
            Section::Frame => "Frame",
            Section::Printing => "Printing",
            Section::View => "View",
        }
    }
}

/// The settings panel from top to bottom.
pub open spec fn order() -> Seq<Item> {
    seq![
        Item::Heading(Section::DepthRange),
        Item::Setting(Field::Near),
        Item::Setting(Field::Far),
        Item::Setting(Field::Emboss),
        Item::Setting(Field::Invert),
        Item::Heading(Section::SizeAndDetail),
        Item::Setting(Field::SizeMm),
        Item::Setting(Field::SizePx),
        Item::Remark(Remark::Grid),
        Item::Setting(Field::Tolerance),
        Item::Remark(Remark::Simplify),
        Item::Setting(Field::FilterSize),
        Item::Setting(Field::Presmooth),
        Item::Heading(Section::Frame),
        Item::Setting(Field::Thickness),
        Item::Remark(Remark::Frame),
        Item::Setting(Field::FrameNear),
        Item::Setting(Field::FrameBack),
        Item::Heading(Section::Printing),
        Item::Setting(Field::Orientation),
        Item::Setting(Field::Layer),
        Item::Setting(Field::Units),
        Item::Heading(Section::View),
        Item::Setting(Field::ShowTiles),
    ]
}

/// The settings panel from top to bottom.
pub fn settings() -> (r: Vec<Item>)
    ensures
        r@ == order(),
{
    let r = vec![
        Item::Heading(Section::DepthRange),
        Item::Setting(Field::Near),
        Item::Setting(Field::Far),
        Item::Setting(Field::Emboss),
        Item::Setting(Field::Invert),
        Item::Heading(Section::SizeAndDetail),
        Item::Setting(Field::SizeMm),
        Item::Setting(Field::SizePx),
        Item::Remark(Remark::Grid),
        Item::Setting(Field::Tolerance),
        Item::Remark(Remark::Simplify),
        Item::Setting(Field::FilterSize),
        Item::Setting(Field::Presmooth),
        Item::Heading(Section::Frame),
        Item::Setting(Field::Thickness),
        Item::Remark(Remark::Frame),
        Item::Setting(Field::FrameNear),
        Item::Setting(Field::FrameBack),
        Item::Heading(Section::Printing),
        Item::Setting(Field::Orientation),
        Item::Setting(Field::Layer),
        Item::Setting(Field::Units),
        Item::Heading(Section::View),
        Item::Setting(Field::ShowTiles),
    ];
    assert(r@ =~= order());
    r
}

/// The label in front of a control.
pub open spec fn label_of(field: Field) -> Seq<char> {
    match field {
        Field::Near => "Near plane"@,
        Field::Far => "Far plane"@,
        Field::Emboss => "Emboss height"@,
        Field::Invert => "Invert"@,
        Field::SizeMm => "Printed size"@,
        Field::SizePx => "Mesh resolution"@,
        Field::Tolerance => "Simplify"@,
        Field::FilterSize => "Smooth radius"@,
        Field::Presmooth => "Pre-smooth"@,
        Field::Thickness => "Thickness"@,
        Field::FrameNear => "Face height"@,
        Field::FrameBack => "Back plate"@,
        Field::Orientation => "Orientation"@,
        Field::Layer => "Layer height"@,
        Field::Units => "Export units"@,
        Field::ShowTiles => "Show chunks"@,
    }
}

/// A number's bounds and how it is shown.
pub open spec fn slides(
    c: Control,
    min: u32,
    max: u32,
    decimals: usize,
    step: u32,
    suffix: Seq<char>,
) -> bool {
    c matches Control::Slider { min: a, max: b, decimals: d, step: s, suffix: x } && a.bits == min
        && b.bits == max && d == decimals && s == step && x@ == suffix
}

/// A whole number's bounds and how it is shown.
pub open spec fn counts(c: Control, min: u32, max: u32, step: u32, suffix: Seq<char>) -> bool {
    c matches Control::Whole { from: a, to: b, step: s, suffix: x } && a == min && b == max && s
        == step && x@ == suffix
}

/// What changes a setting.
pub open spec fn control_fits(field: Field, max_px: u32, c: Control) -> bool {
    match field {
        Field::Near | Field::Far => c is Percent,
        Field::Invert | Field::ShowTiles => c is Check,
        Field::Emboss => slides(c, EMBOSS_MM_MIN, EMBOSS_MM_MAX, 1, 100, " mm"@),
        Field::SizeMm => slides(c, SIZE_MM_MIN, SIZE_MM_MAX, 0, 1000, " mm"@),
        Field::SizePx => counts(c, SIZE_PX_MIN, max_px, 256, " px"@),
        Field::Tolerance => slides(c, number::ZERO, TOLERANCE_MM_MAX, 3, 5, " mm"@),
        Field::FilterSize => counts(c, 1, 5, 2, " px"@),
        Field::Presmooth => slides(c, number::ZERO, params::PRESMOOTH_MAX, 1, 0, " px"@),
        Field::Thickness => slides(c, number::ZERO, FIFTY, 1, 500, " mm"@),
        Field::FrameNear => slides(c, NEG_FIFTY, FIFTY, 1, 500, " mm"@),
        Field::FrameBack => slides(c, params::BACK_MM_MIN, params::BACK_MM_MAX, 1, 200, " mm"@),
        Field::Layer => slides(c, params::LAYER_MM_MIN, params::LAYER_MM_MAX, 2, 0, " mm"@),
        Field::Orientation => c matches Control::Choice { off, on } && off@ == "Face up"@ && on@
            == "Upright"@,
        Field::Units => c matches Control::Choice { off, on } && off@ == "mm"@ && on@ == "in"@,
    }
}

/// Pre-smoothing is for 8-bit sources, and a bezel's height for a bezel.
pub open spec fn enabled(field: Field, p: Params, bits: BitDepth) -> bool {
    match field {
        Field::Presmooth => bits == BitDepth::Eight,
        Field::FrameNear => p.has_frame(),
        _ => true,
    }
}

fn slider(min: u32, max: u32, decimals: usize, step: u32, suffix: &'static str) -> (r: Control)
    ensures
        slides(r, min, max, decimals, step, suffix@),
{
    Control::Slider {
        min: Real::from_bits(min),
        max: Real::from_bits(max),
        decimals,
        step,
        suffix,
    }
}

/// The help that a control offers.
pub open spec fn help_of(field: Field, p: Params, bits: BitDepth) -> Seq<char> {
    match field {
        Field::Near => "How much of the depth map's range to cut off at the front. Everything in front of it flattens to a plateau."@,
        Field::Far => "How much of the depth map's range to keep. Lowering it is how you delete a busy background."@,
        Field::Emboss => "How far the relief stands out of its plate. Independent of the printed size: changing it does not change how wide the plaque prints."@,
        Field::Invert => "For depth maps where near is bright. This pipeline reads a bright pixel as far away, which is what upstream does; tools that output disparity use the opposite convention."@,
        Field::SizeMm => "Longest outer side of the finished plaque, frame included."@,
        Field::SizePx => "How finely the depth map is sampled: it is resampled so its longest side is this many pixels, and every pixel becomes one vertex. Triangle count is roughly 2·w·h, so this is the number that decides whether a slicer copes."@,
        Field::Tolerance => "Largest deviation the simplified surface may have from the depth map. A relief is mostly smooth, so a tolerance well under a layer height still removes most of the triangles. Zero keeps every grid vertex."@,
        Field::FilterSize => "Median filter window, in pixels of the mesh grid. Median, not blur: it removes depth spikes and JPEG ringing without rounding off real edges."@,
        Field::Presmooth => if bits == BitDepth::Eight {
            "Gaussian blur applied before the median, to break up the 256-level staircase an 8-bit source leaves behind."@
        } else {
            "Only applies to 8-bit sources. This map is 16-bit, which has no staircase worth breaking."@
        },
        Field::Thickness => "Width of the bezel around the relief. Zero removes the frame completely — the relief's sides then drop straight to the back plate."@,
        Field::FrameNear => if p.has_frame() {
            "How far the frame's face stands above the front of the relief. Negative sinks it in; it can never pass the deepest point."@
        } else {
            "Needs a frame. Give Thickness a width and this sets how far its face stands above the relief."@
        },
        Field::FrameBack => "Thickness of the plate behind the deepest point — the part that sits on the bed."@,
        Field::Orientation => "Face up prints it as a plaque. Upright stands it on edge, which is what a lithophane wants: the relief gradient then runs across layers instead of along them."@,
        Field::Layer => "Your printer's layer height. Not geometry — it decides whether the depth map's quantisation gets a warning."@,
        Field::Units => "The unit the exported file is written in. STL, OBJ and PLY store bare numbers with no unit field, so choosing inches divides the coordinates; slicers assume millimetres. Everything on screen stays metric either way."@,
        Field::ShowTiles => "Tint each preview chunk separately. The surface is uploaded as several meshes so no single GPU buffer has to hold it all; this is what that looks like."@,
    }
}

fn help(field: Field, p: &Params, bits: BitDepth) -> (r: &'static str)
    ensures
        r@ == help_of(field, *p, bits),
{
    match field {
        Field::Near => "How much of the depth map's range to cut off at the front. Everything in front of it flattens to a plateau.",
        Field::Far => "How much of the depth map's range to keep. Lowering it is how you delete a busy background.",
        Field::Emboss => "How far the relief stands out of its plate. Independent of the printed size: changing it does not change how wide the plaque prints.",
        Field::Invert => "For depth maps where near is bright. This pipeline reads a bright pixel as far away, which is what upstream does; tools that output disparity use the opposite convention.",
        Field::SizeMm => "Longest outer side of the finished plaque, frame included.",
        Field::SizePx => "How finely the depth map is sampled: it is resampled so its longest side is this many pixels, and every pixel becomes one vertex. Triangle count is roughly 2·w·h, so this is the number that decides whether a slicer copes.",
        Field::Tolerance => "Largest deviation the simplified surface may have from the depth map. A relief is mostly smooth, so a tolerance well under a layer height still removes most of the triangles. Zero keeps every grid vertex.",
        Field::FilterSize => "Median filter window, in pixels of the mesh grid. Median, not blur: it removes depth spikes and JPEG ringing without rounding off real edges.",
        Field::Presmooth => if bits == BitDepth::Eight {
            "Gaussian blur applied before the median, to break up the 256-level staircase an 8-bit source leaves behind."
        } else {
            "Only applies to 8-bit sources. This map is 16-bit, which has no staircase worth breaking."
        },
        Field::Thickness => "Width of the bezel around the relief. Zero removes the frame completely — the relief's sides then drop straight to the back plate.",
        Field::FrameNear => if p.framed() {
            "How far the frame's face stands above the front of the relief. Negative sinks it in; it can never pass the deepest point."
        } else {
            "Needs a frame. Give Thickness a width and this sets how far its face stands above the relief."
        },
        Field::FrameBack => "Thickness of the plate behind the deepest point — the part that sits on the bed.",
        Field::Orientation => "Face up prints it as a plaque. Upright stands it on edge, which is what a lithophane wants: the relief gradient then runs across layers instead of along them.",
        Field::Layer => "Your printer's layer height. Not geometry — it decides whether the depth map's quantisation gets a warning.",
        Field::Units => "The unit the exported file is written in. STL, OBJ and PLY store bare numbers with no unit field, so choosing inches divides the coordinates; slicers assume millimetres. Everything on screen stays metric either way.",
        Field::ShowTiles => "Tint each preview chunk separately. The surface is uploaded as several meshes so no single GPU buffer has to hold it all; this is what that looks like.",
    }
}

fn label(field: Field) -> (r: &'static str)
    ensures
        r@ == label_of(field),
{
    match field {
        Field::Near => "Near plane",
        Field::Far => "Far plane",
        Field::Emboss => "Emboss height",
        Field::Invert => "Invert",
        Field::SizeMm => "Printed size",
        Field::SizePx => "Mesh resolution",
        Field::Tolerance => "Simplify",
        Field::FilterSize => "Smooth radius",
        Field::Presmooth => "Pre-smooth",
        Field::Thickness => "Thickness",
        Field::FrameNear => "Face height",
        Field::FrameBack => "Back plate",
        Field::Orientation => "Orientation",
        Field::Layer => "Layer height",
        Field::Units => "Export units",
        Field::ShowTiles => "Show chunks",
    }
}

fn control(field: Field, max_px: u32) -> (r: Control)
    ensures
        control_fits(field, max_px, r),
{
    match field {
        Field::Near => Control::Percent,
        Field::Far => Control::Percent,
        Field::Emboss => slider(EMBOSS_MM_MIN, EMBOSS_MM_MAX, 1, 100, " mm"),
        Field::Invert => Control::Check,
        Field::SizeMm => slider(SIZE_MM_MIN, SIZE_MM_MAX, 0, 1000, " mm"),
        Field::SizePx => Control::Whole { from: SIZE_PX_MIN, to: max_px, step: 256, suffix: " px" },
        Field::Tolerance => slider(number::ZERO, TOLERANCE_MM_MAX, 3, 5, " mm"),
        Field::FilterSize => Control::Whole { from: 1, to: 5, step: 2, suffix: " px" },
        Field::Presmooth => slider(number::ZERO, params::PRESMOOTH_MAX, 1, 0, " px"),
        Field::Thickness => slider(number::ZERO, FIFTY, 1, 500, " mm"),
        Field::FrameNear => slider(NEG_FIFTY, FIFTY, 1, 500, " mm"),
        Field::FrameBack => slider(params::BACK_MM_MIN, params::BACK_MM_MAX, 1, 200, " mm"),
        Field::Orientation => Control::Choice { off: "Face up", on: "Upright" },
        Field::Layer => slider(params::LAYER_MM_MIN, params::LAYER_MM_MAX, 2, 0, " mm"),
        Field::Units => Control::Choice { off: "mm", on: "in" },
        Field::ShowTiles => Control::Check,
    }
}

/// A control with its label and its help.
pub fn row(field: Field, p: &Params, bits: BitDepth, max_px: u32) -> (r: Row)
    ensures
        r.label@ == label_of(field),
        r.tooltip@ == help_of(field, *p, bits),
        control_fits(field, max_px, r.control),
        r.enabled == enabled(field, *p, bits),
{
    let on: bool = match field {
        Field::Presmooth => bits == BitDepth::Eight,
        Field::FrameNear => p.framed(),
        _ => true,
    };
    Row {
        label: label(field),
        tooltip: help(field, p, bits),
        control: control(field, max_px),
        enabled: on,
    }
}

// ---------------------------------------------------------------------------
// Values
// ---------------------------------------------------------------------------

/// What a control shows or has been set to.
#[derive(Debug, Clone, Copy, PartialEq, Eq, Structural)]
pub enum Value {
    Number(Real),
    Count(u32),
    Flag(bool),
}

/// What a control shows.
pub open spec fn shown<F: Fn(Op, Real, Real) -> Real>(f: F, a: AppState, field: Field) -> Value {
    let p = a.params;
    let hundred = Real { bits: stats::HUNDRED };
    match field {
        Field::Near => Value::Number(number::times(f, p.near, hundred)),
        Field::Far => Value::Number(number::times(f, p.far, hundred)),
        Field::Emboss => Value::Number(p.emboss_mm),
        Field::Invert => Value::Flag(p.invert),
        Field::SizeMm => Value::Number(p.size_mm),
        Field::SizePx => Value::Count(p.size_px),
        Field::Tolerance => Value::Number(p.tolerance_mm),
        Field::FilterSize => Value::Count(p.filter_size),
        Field::Presmooth => Value::Number(p.presmooth),
        Field::Thickness => Value::Number(p.frame_thickness_mm),
        Field::FrameNear => Value::Number(p.frame_near_mm),
        Field::FrameBack => Value::Number(p.frame_back_mm),
        Field::Orientation => Value::Flag(p.orientation == Orientation::Upright),
        Field::Layer => Value::Number(p.layer_mm),
        Field::Units => Value::Flag(p.units == Units::In),
        Field::ShowTiles => Value::Flag(a.show_tiles),
    }
}

/// What a control shows.
pub fn value<F: Fn(Op, Real, Real) -> Real>(state: &AppState, field: Field, arith: &F) -> (r: Value)
    requires
        number::steady(*arith),
    ensures
        r == shown(*arith, *state, field),
{
    let p = state.params;
    let hundred = Real { bits: stats::HUNDRED };
    match field {
        Field::Near => Value::Number(number::ask(arith, Op::Times, p.near, hundred)),
        Field::Far => Value::Number(number::ask(arith, Op::Times, p.far, hundred)),
        Field::Emboss => Value::Number(p.emboss_mm),
        Field::Invert => Value::Flag(p.invert),
        Field::SizeMm => Value::Number(p.size_mm),
        Field::SizePx => Value::Count(p.size_px),
        Field::Tolerance => Value::Number(p.tolerance_mm),
        Field::FilterSize => Value::Count(p.filter_size),
        Field::Presmooth => Value::Number(p.presmooth),
        Field::Thickness => Value::Number(p.frame_thickness_mm),
        Field::FrameNear => Value::Number(p.frame_near_mm),
        Field::FrameBack => Value::Number(p.frame_back_mm),
        Field::Orientation => Value::Flag(p.orientation == Orientation::Upright),
        Field::Layer => Value::Number(p.layer_mm),
        Field::Units => Value::Flag(p.units == Units::In),
        Field::ShowTiles => Value::Flag(state.show_tiles),
    }
}

/// The parameters with one setting changed. A value of the wrong kind changes
/// nothing.
pub open spec fn changed<F: Fn(Op, Real, Real) -> Real>(f: F, p: Params, field: Field, v: Value) -> Params {
    let hundred = Real { bits: stats::HUNDRED };
    match (field, v) {
        (Field::Near, Value::Number(x)) => Params { near: number::over(f, x, hundred), ..p },
        (Field::Far, Value::Number(x)) => Params { far: number::over(f, x, hundred), ..p },
        (Field::Emboss, Value::Number(x)) => Params { emboss_mm: x, ..p },
        (Field::Invert, Value::Flag(b)) => Params { invert: b, ..p },
        (Field::SizeMm, Value::Number(x)) => Params { size_mm: x, ..p },
        (Field::SizePx, Value::Count(n)) => Params { size_px: n, ..p },
        (Field::Tolerance, Value::Number(x)) => Params { tolerance_mm: x, ..p },
        (Field::FilterSize, Value::Count(n)) => Params { filter_size: n, ..p },
        (Field::Presmooth, Value::Number(x)) => Params { presmooth: x, ..p },
        (Field::Thickness, Value::Number(x)) => Params { frame_thickness_mm: x, ..p },
        (Field::FrameNear, Value::Number(x)) => Params { frame_near_mm: x, ..p },
        (Field::FrameBack, Value::Number(x)) => Params { frame_back_mm: x, ..p },
        (Field::Orientation, Value::Flag(b)) => Params {
            orientation: if b {
                Orientation::Upright
            } else {
                Orientation::FaceUp
            },
            ..p
        },
        (Field::Layer, Value::Number(x)) => Params { layer_mm: x, ..p },
        (Field::Units, Value::Flag(b)) => Params {
            units: if b {
                Units::In
            } else {
                Units::Mm
            },
            ..p
        },
        _ => p,
    }
}

fn change<F: Fn(Op, Real, Real) -> Real>(p: Params, field: Field, v: Value, arith: &F) -> (r: Params)
    requires
        number::steady(*arith),
    ensures
        r == changed(*arith, p, field, v),
{
    let hundred = Real { bits: stats::HUNDRED };
    let mut r = p;
    match (field, v) {
        (Field::Near, Value::Number(x)) => r.near = number::ask(arith, Op::Over, x, hundred),
        (Field::Far, Value::Number(x)) => r.far = number::ask(arith, Op::Over, x, hundred),
        (Field::Emboss, Value::Number(x)) => r.emboss_mm = x,
        (Field::Invert, Value::Flag(b)) => r.invert = b,
        (Field::SizeMm, Value::Number(x)) => r.size_mm = x,
        (Field::SizePx, Value::Count(n)) => r.size_px = n,
        (Field::Tolerance, Value::Number(x)) => r.tolerance_mm = x,
        (Field::FilterSize, Value::Count(n)) => r.filter_size = n,
        (Field::Presmooth, Value::Number(x)) => r.presmooth = x,
        (Field::Thickness, Value::Number(x)) => r.frame_thickness_mm = x,
        (Field::FrameNear, Value::Number(x)) => r.frame_near_mm = x,
        (Field::FrameBack, Value::Number(x)) => r.frame_back_mm = x,
        (Field::Orientation, Value::Flag(b)) => {
            r.orientation = if b {
                Orientation::Upright
            } else {
                Orientation::FaceUp
            };
        },
        (Field::Layer, Value::Number(x)) => r.layer_mm = x,
        (Field::Units, Value::Flag(b)) => {
            r.units = if b {
                Units::In
            } else {
                Units::Mm
            };
        },
        _ => {},
    }
    r
}

/// Far at or below near leaves nothing to make. The far plane is moved a
/// thousandth past the near one, and the near one back where that leaves the
/// range: nudged rather than refused, because the slider that just moved is the
/// one a person is looking at.
pub open spec fn nudged<F: Fn(Op, Real, Real) -> Real>(f: F, p: Params) -> Params {
    let milli = Real { bits: MILLI };
    if p.far.at_most(p.near) {
        let far = number::plus(f, p.near, milli).smaller(Real { bits: number::ONE });
        Params { far, near: number::minus(f, far, milli), ..p }
    } else {
        p
    }
}

/// The settings after an edit.
pub open spec fn edited<F: Fn(Op, Real, Real) -> Real>(f: F, p: Params) -> Params {
    nudged(f, params::legal(p))
}

/// Bring edited settings back into range and start the clocks.
pub fn settle<F: Fn(Op, Real, Real) -> Real>(state: &mut AppState, now: u64, arith: &F)
    requires
        number::steady(*arith),
    ensures
        *final(state) == (AppState {
            params: edited(*arith, old(state).params),
            dirty_since: Some(now),
            save_since: Some(now),
            ..*old(state)
        }),
{
    let mut p = state.params;
    p.clamp();
    if p.far.le(p.near) {
        let milli = Real { bits: MILLI };
        p.far = number::ask(arith, Op::Plus, p.near, milli).min(Real { bits: number::ONE });
        p.near = number::ask(arith, Op::Minus, p.far, milli);
    }
    state.params = p;
    state.touch(now);
}

/// The state after a control has been set. Showing chunks is no setting of the
/// model and starts no clock.
pub open spec fn after_set<F: Fn(Op, Real, Real) -> Real>(
    f: F,
    a: AppState,
    field: Field,
    v: Value,
    now: u64,
) -> AppState {
    if field == Field::ShowTiles {
        AppState {
            show_tiles: match v {
                Value::Flag(b) => b,
                _ => a.show_tiles,
            },
            ..a
        }
    } else {
        AppState {
            params: edited(f, changed(f, a.params, field, v)),
            dirty_since: Some(now),
            save_since: Some(now),
            ..a
        }
    }
}

/// Apply what a control has been set to. Showing chunks is no setting of the
/// model and starts no clock.
pub fn set<F: Fn(Op, Real, Real) -> Real>(
    state: &mut AppState,
    field: Field,
    v: Value,
    now: u64,
    arith: &F,
)
    requires
        number::steady(*arith),
    ensures
        *final(state) == after_set(*arith, *old(state), field, v, now),
{
    if field == Field::ShowTiles {
        if let Value::Flag(b) = v {
            state.show_tiles = b;
        }
    } else {
        state.params = change(state.params, field, v, arith);
        settle(state, now, arith);
    }
}

/// Back to the defaults.
pub fn reset<F: Fn(Op, Real, Real) -> Real>(state: &mut AppState, now: u64, arith: &F)
    requires
        number::steady(*arith),
    ensures
        *final(state) == (AppState {
            params: edited(*arith, params::defaults()),
            dirty_since: Some(now),
            save_since: Some(now),
            ..*old(state)
        }),
{
    state.params = Params::default();
    settle(state, now, arith);
}

/// The example settings.
pub fn load_example<F: Fn(Op, Real, Real) -> Real>(state: &mut AppState, now: u64, arith: &F)
    requires
        number::steady(*arith),
    ensures
        *final(state) == (AppState {
            params: edited(*arith, params::example_settings()),
            dirty_since: Some(now),
            save_since: Some(now),
            ..*old(state)
        }),
{
    state.params = Params::example();
    settle(state, now, arith);
}

// ---------------------------------------------------------------------------
// Remarks
// ---------------------------------------------------------------------------

/// A percentage without decimals.
pub open spec fn percentage<F: Fn(Op, Real, Real) -> Real, T: Fn(Real, usize) -> String>(
    f: F,
    fixed: T,
    v: Real,
) -> Seq<char> {
    text::shown(fixed, number::times(f, Real { bits: stats::HUNDRED }, v), 0)
}

fn append_percentage<F: Fn(Op, Real, Real) -> Real, T: Fn(Real, usize) -> String>(
    s: &mut String,
    v: Real,
    arith: &F,
    fixed: &T,
)
    requires
        number::steady(*arith),
        text::steady_text(*fixed),
    ensures
        final(s)@ == old(s)@ + percentage(*arith, *fixed, v),
{
    let n: Real = number::ask(arith, Op::Times, Real { bits: stats::HUNDRED }, v);
    text::append_fixed(s, n, 0, fixed);
}

/// What simplification did, next to its control.
pub open spec fn simplify_remark<F: Fn(Op, Real, Real) -> Real, T: Fn(Real, usize) -> String>(
    f: F,
    fixed: T,
    s: Stats,
) -> Seq<char> {
    if s.too_fine() {
        "blocked by the source's "@ + text::shown(fixed, s.step_mm, 3)
            + " mm step — raise this or pre-smooth"@
    } else if (Real { bits: number::ZERO }).below(s.tolerance_mm) && s.triangles
        < s.full_triangles {
        "−"@ + percentage(f, fixed, s.removed(f)) + "% · worst deviation "@ + text::shown(
            fixed,
            s.achieved_error_mm,
            3,
        ) + " mm"@
    } else {
        "every grid vertex kept"@
    }
}

/// The grid and its pitch, next to the control of the resolution.
pub open spec fn grid_remark<T: Fn(Real, usize) -> String>(fixed: T, s: Stats, size_px: u32) -> Seq<char> {
    text::decimal(s.grid.0 as nat) + " × "@ + text::decimal(s.grid.1 as nat) + " · "@ + text::shown(
        fixed,
        s.pitch_mm,
        3,
    ) + " mm/vertex"@ + (if size_px > SIZE_PX_UPSTREAM_MAX {
        " · past the original's 1024 px ceiling"@
    } else {
        ""@
    })
}

/// A remark, and whether it is a warning.
pub open spec fn remarked<F: Fn(Op, Real, Real) -> Real, T: Fn(Real, usize) -> String>(
    f: F,
    fixed: T,
    a: AppState,
    remark: Remark,
) -> Option<(Seq<char>, bool)> {
    match remark {
        Remark::Grid => match a.built {
            None => None,
            Some(b) => Some((grid_remark(fixed, b.stats, a.params.size_px), false)),
        },
        Remark::Simplify => match a.built {
            None => None,
            Some(b) => Some((simplify_remark(f, fixed, b.stats), b.stats.too_fine())),
        },
        Remark::Frame => if a.params.has_frame() {
            None
        } else {
            Some(("no frame — sides drop straight to the plate"@, false))
        },
    }
}

/// A remark, and whether it is a warning, where there is something to remark.
pub fn remark<F: Fn(Op, Real, Real) -> Real, T: Fn(Real, usize) -> String>(
    state: &AppState,
    which: Remark,
    arith: &F,
    fixed: &T,
) -> (r: Option<(String, bool)>)
    requires
        number::steady(*arith),
        text::steady_text(*fixed),
    ensures
        match r {
            None => remarked(*arith, *fixed, *state, which) is None,
            Some((t, warn)) => remarked(*arith, *fixed, *state, which) == Some((t@, warn)),
        },
{
    match which {
        Remark::Grid => match &state.built {
            None => None,
            Some(b) => {
                let mut r = text::number_text(b.stats.grid.0 as u64);
                r.append(" × ");
                r.append(text::number_text(b.stats.grid.1 as u64).as_str());
                r.append(" · ");
                text::append_fixed(&mut r, b.stats.pitch_mm, 3, fixed);
                r.append(" mm/vertex");
                r.append(
                    if state.params.size_px > SIZE_PX_UPSTREAM_MAX {
                        " · past the original's 1024 px ceiling"
                    } else {
                        ""
                    },
                );
                assert(r@ == grid_remark(*fixed, b.stats, state.params.size_px));
                Some((r, false))
            },
        },
        Remark::Simplify => match &state.built {
            None => None,
            Some(b) => {
                let s = &b.stats;
                let blocked: bool = s.tolerance_below_source();
                if blocked {
                    let mut r = "blocked by the source's ".to_owned();
                    text::append_fixed(&mut r, s.step_mm, 3, fixed);
                    r.append(" mm step — raise this or pre-smooth");
                    Some((r, true))
                } else if s.simplified() {
                    let mut r = "−".to_owned();
                    append_percentage(&mut r, s.reduction(arith), arith, fixed);
                    r.append("% · worst deviation ");
                    text::append_fixed(&mut r, s.achieved_error_mm, 3, fixed);
                    r.append(" mm");
                    Some((r, false))
                } else {
                    Some(("every grid vertex kept".to_owned(), false))
                }
            },
        },
        Remark::Frame => if state.params.framed() {
            None
        } else {
            Some(("no frame — sides drop straight to the plate".to_owned(), false))
        },
    }
}

/// The caller's way to write a volume in cubic centimetres always answers, and
/// gives the same answer to the same question.
pub open spec fn steady_volume<V: Fn(number::Double) -> String>(v: V) -> bool {
    &&& forall|x: number::Double| #[trigger] call_requires(v, (x,))
    &&& forall|x: number::Double, r: String| #[trigger]
        call_ensures(v, (x,), r) ==> r@ == volume(v, x)
}

/// What the caller writes for a volume.
pub open spec fn volume<V: Fn(number::Double) -> String>(v: V, x: number::Double) -> Seq<char> {
    (choose|r: String| call_ensures(v, (x,), r))@
}

/// Everything a print depends on, at the foot of the panel.
pub open spec fn footer_text<T: Fn(Real, usize) -> String, V: Fn(number::Double) -> String>(
    fixed: T,
    cubic: V,
    s: Stats,
) -> Seq<char> {
    text::grouped(s.triangles as nat) + " triangles · "@ + text::grouped(s.vertices as nat)
        + " vertices\n"@ + volume(cubic, s.volume_mm3) + " cm³ ≈ "@ + text::shown(
        fixed,
        s.filament_g,
        0,
    ) + " g of PLA\n"@ + s.file_text()
}

/// The foot of the panel. `cubic` writes a volume in cubic centimetres.
pub fn footer<T: Fn(Real, usize) -> String, V: Fn(number::Double) -> String>(
    s: &Stats,
    fixed: &T,
    cubic: &V,
) -> (r: String)
    requires
        text::steady_text(*fixed),
        steady_volume(*cubic),
    ensures
        r@ == footer_text(*fixed, *cubic, *s),
{
    let mut r = text::thousands(s.triangles);
    r.append(" triangles · ");
    r.append(text::thousands(s.vertices).as_str());
    r.append(" vertices\n");
    r.append(cubic(s.volume_mm3).as_str());
    r.append(" cm³ ≈ ");
    text::append_fixed(&mut r, s.filament_g, 0, fixed);
    r.append(" g of PLA\n");
    r.append(s.file_line().as_str());
    r
}

/// The warning that a photo will be lost, once there is a build to export.
pub fn colour_warning(state: &AppState) -> (r: Option<&'static str>)
    ensures
        r is Some <==> state.built is Some && state.format == Format::Stl && state.photo is Some,
        r matches Some(t) ==> t@ == "STL cannot store colour — export PLY to keep the photo"@,
{
    if state.built.is_some() && !state.format.carries_colour() && state.photo.is_some() {
        Some("STL cannot store colour — export PLY to keep the photo")
    } else {
        None
    }
}

// ---------------------------------------------------------------------------
// Toolbar and status line
// ---------------------------------------------------------------------------

/// What a format is good for.
pub open spec fn hint_of(format: Format) -> Seq<char> {
    match format {
        Format::Stl => "STL — every slicer"@,
        Format::Ply => "PLY — binary, keeps colour"@,
        Format::Obj => "OBJ — text, keeps colour"@,
    }
}

pub fn format_hint(format: Format) -> (r: &'static str)
    ensures
        r@ == hint_of(format),
{
    match format {
        Format::Stl => "STL — every slicer",
        Format::Ply => "PLY — binary, keeps colour",
        Format::Obj => "OBJ — text, keeps colour",
    }
}

/// What the export button will do.
pub fn export_hint(state: &AppState) -> (r: String)
    ensures
        r@ == (match state.built {
            Some(b) => "Rebuilds at "@ + text::decimal(state.params.size_px as nat)
                + " px and streams straight to the file — about "@ + b.stats.file_text(),
            None => "Rebuild at full resolution and write the mesh"@,
        }),
{
    match state.stats() {
        Some(s) => {
            let mut r = "Rebuilds at ".to_owned();
            r.append(text::number_text(state.params.size_px as u64).as_str());
            r.append(" px and streams straight to the file — about ");
            r.append(s.file_line().as_str());
            r
        },
        None => "Rebuild at full resolution and write the mesh".to_owned(),
    }
}

/// Say how saving the settings went.
pub fn settings_saved(state: &mut AppState, outcome: Result<Saved, String>)
    ensures
        *final(state) == (AppState { status: final(state).status, ..*old(state) }),
        match outcome {
            Err(message) => final(state).status.says(Tone::Error, message@),
            Ok(Saved::Cancelled) => final(state).status.says(Tone::Info, "Not saved"@),
            Ok(Saved::Downloaded) => final(state).status.says(Tone::Info, "Settings downloaded"@),
            Ok(Saved::To(path)) => final(state).status.says(
                Tone::Info,
                "Settings written to "@ + path@,
            ),
        },
{
    state.status = match outcome {
        Err(message) => Status::error(message),
        Ok(Saved::Cancelled) => Status::info("Not saved".to_owned()),
        Ok(Saved::Downloaded) => Status::info("Settings downloaded".to_owned()),
        Ok(Saved::To(path)) => {
            let mut r = "Settings written to ".to_owned();
            r.append(path.as_str());
            Status::info(r)
        },
    };
}

/// Which of the samples is loaded, going by the name: the 16-bit one, the 8-bit
/// one.
pub fn sample_marks(state: &AppState) -> (r: (bool, bool))
    ensures
        r.0 == text::ends(state.depth.name@, "16bit.png"@),
        r.1 == text::ends(state.depth.name@, "gray.jpg"@),
{
    (
        text::ends_with(state.depth.name.as_str(), "16bit.png"),
        text::ends_with(state.depth.name.as_str(), "gray.jpg"),
    )
}

/// How a part of the status line stands out.
#[derive(Debug, Clone, Copy, PartialEq, Eq, Structural)]
pub enum Accent {
    Plain,
    Weak,
    Good,
    Warn,
}

/// A part of the status line.
#[derive(Debug)]
pub struct Part {
    pub text: String,
    pub hover: Option<String>,
    pub accent: Accent,
}

impl Part {
    pub open spec fn said(self) -> (Seq<char>, Option<Seq<char>>, Accent) {
        (
            self.text@,
            match self.hover {
                None => None,
                Some(h) => Some(h@),
            },
            self.accent,
        )
    }
}

/// The readouts of a build, from right to left.
pub open spec fn readouts<F: Fn(Op, Real, Real) -> Real, T: Fn(Real, usize) -> String>(
    f: F,
    fixed: T,
    a: AppState,
    s: Stats,
) -> Seq<(Seq<char>, Option<Seq<char>>, Accent)> {
    let none: Option<Seq<char>> = None;
    let simplified = (Real { bits: number::ZERO }).below(s.tolerance_mm) && s.triangles
        < s.full_triangles;
    let head = seq![
        (rebuild::note_of(a), none, Accent::Weak),
        (text::grouped(s.triangles as nat) + " triangles"@, none, Accent::Plain),
    ];
    let middle = if simplified {
        seq![
            (
                "−"@ + percentage(f, fixed, s.removed(f)) + "%"@,
                Some(s.simplify_text(f, fixed)),
                Accent::Good,
            ),
        ]
    } else {
        Seq::empty()
    };
    let tail = seq![
        (
            text::shown(fixed, s.step_mm, 4) + " mm/level"@,
            Some(s.step_text(fixed)),
            if s.step_mm.at_most(s.layer_mm) {
                Accent::Plain
            } else {
                Accent::Warn
            },
        ),
        (
            text::shown(fixed, s.pitch_mm, 3) + " mm/vertex"@,
            Some("Vertex spacing on the printed model — the finest detail it can carry."@),
            Accent::Plain,
        ),
        ("relief "@ + (text::shown(fixed, s.relief_mm, 1) + " mm"@), none, Accent::Plain),
        (
            s.bbox_text(fixed) + (if s.framed {
                ""@
            } else {
                " · no frame"@
            }),
            none,
            Accent::Plain,
        ),
    ];
    head + middle + tail
}

/// What stands on the status line, right to left.
pub open spec fn listed(
    v: Seq<Part>,
    want: Seq<(Seq<char>, Option<Seq<char>>, Accent)>,
) -> bool {
    v.len() == want.len() && forall|i: int| 0 <= i < v.len() ==> (#[trigger] v[i]).said() == want[i]
}

/// The readouts of the last build, from right to left; none before the first.
pub fn status_parts<F: Fn(Op, Real, Real) -> Real, T: Fn(Real, usize) -> String>(
    state: &AppState,
    arith: &F,
    fixed: &T,
) -> (r: Vec<Part>)
    requires
        number::steady(*arith),
        text::steady_text(*fixed),
    ensures
        match state.built {
            None => r@.len() == 0,
            Some(b) => listed(r@, readouts(*arith, *fixed, *state, b.stats)),
        },
{
    let mut r: Vec<Part> = Vec::new();
    if let Some(b) = &state.built {
        let s = &b.stats;
        r.push(Part { text: rebuild::preview_note(state), hover: None, accent: Accent::Weak });
        let mut count = text::thousands(s.triangles);
        count.append(" triangles");
        r.push(Part { text: count, hover: None, accent: Accent::Plain });
        if s.simplified() {
            let mut gone = "−".to_owned();
            append_percentage(&mut gone, s.reduction(arith), arith, fixed);
            gone.append("%");
            r.push(
                Part { text: gone, hover: Some(s.simplify_line(arith, fixed)), accent: Accent::Good },
            );
        }
        let mut step = fixed(s.step_mm, 4);
        step.append(" mm/level");
        let accent = if s.steps_ok() {
            Accent::Plain
        } else {
            Accent::Warn
        };
        r.push(Part { text: step, hover: Some(s.step_line(fixed)), accent });
        r.push(
            Part {
                text: s.pitch_line(fixed),
                hover: Some(
                    "Vertex spacing on the printed model — the finest detail it can carry.".to_owned(),
                ),
                accent: Accent::Plain,
            },
        );
        let mut relief = "relief ".to_owned();
        relief.append(s.relief_line(fixed).as_str());
        r.push(Part { text: relief, hover: None, accent: Accent::Plain });
        let mut extents = s.bbox_line(fixed);
        extents.append(
            if s.framed {
                ""
            } else {
                " · no frame"
            },
        );
        r.push(Part { text: extents, hover: None, accent: Accent::Plain });
    }
    r
}

// ---------------------------------------------------------------------------
// Panes
// ---------------------------------------------------------------------------

/// What is known of the depth map.
pub fn depth_caption(map: &DepthMap) -> (r: String)
    ensures
        r@ == text::size(map.width, map.height) + " · "@ + text::grouped(map.bits.count() as nat)
            + " levels"@ + (if map.was_colour {
            " · colour"@
        } else {
            ""@
        }),
{
    let mut r = "".to_owned();
    proof {
        reveal_strlit("");
    }
    text::append_size(&mut r, map.width, map.height);
    assert(r@ =~= text::size(map.width, map.height));
    r.append(" · ");
    r.append(text::thousands(map.bits.levels() as usize).as_str());
    r.append(" levels");
    r.append(
        if map.was_colour {
            " · colour"
        } else {
            ""
        },
    );
    r
}

/// What is known of the photo.
pub fn photo_caption(state: &AppState) -> (r: String)
    ensures
        r@ == (match state.photo {
            None => "No photo. The relief is plaster white."@,
            Some(p) => text::size(p.width, p.height) + " · baked as vertex colours"@,
        }),
{
    match &state.photo {
        None => "No photo. The relief is plaster white.".to_owned(),
        Some(p) => {
            let mut r = "".to_owned();
            proof {
                reveal_strlit("");
            }
            text::append_size(&mut r, p.width, p.height);
            assert(r@ =~= text::size(p.width, p.height));
            r.append(" · baked as vertex colours");
            r
        },
    }
}

/// Where the settings are kept, for a person to read.
pub fn remembered_note(location: &str) -> (r: String)
    ensures
        r@ == "Settings are remembered in "@ + location@,
{
    let mut r = "Settings are remembered in ".to_owned();
    r.append(location);
    r
}

/// 200.
pub const CHROME: u32 = 0x4348_0000;

/// 90.
pub const PANE_MIN: u32 = 0x42b4_0000;

/// 260.
pub const PANE_MAX: u32 = 0x4382_0000;

/// Two panes share what the window leaves, within reason.
pub fn pane_height<F: Fn(Op, Real, Real) -> Real>(window_height: Real, arith: &F) -> (r: Real)
    requires
        number::steady(*arith),
    ensures
        r == number::over(
            *arith,
            number::minus(*arith, window_height, Real { bits: CHROME }),
            Real { bits: number::TWO },
        ).between(Real { bits: PANE_MIN }, Real { bits: PANE_MAX }),
{
    let left: Real = number::ask(arith, Op::Minus, window_height, Real { bits: CHROME });
    let half: Real = number::ask(arith, Op::Over, left, Real { bits: number::TWO });
    half.clamp(Real { bits: PANE_MIN }, Real { bits: PANE_MAX })
}

/// The gap between one and the next number.
pub const EPSILON: u32 = 0x3400_0000;

/// The grey of a height: bright is far, the way the source file reads.
pub open spec fn grey<F: Fn(Op, Real, Real) -> Real>(f: F, z: Real, depth: Real) -> u8 {
    let t = number::over(f, z.opposite(), depth).between(
        Real { bits: number::ZERO },
        Real { bits: number::ONE },
    );
    let n = number::times(f, t, Real { bits: crate::sample::FULL_8 }).floored();
    if n > 255 {
        255
    } else {
        n as u8
    }
}

/// The conditioned field as a grey picture, row by row.
pub fn depth_pixels<F: Fn(Op, Real, Real) -> Real>(field: &HeightField, arith: &F) -> (r: Vec<u8>)
    requires
        number::steady(*arith),
        field.wf(),
    ensures
        r@ == Seq::new(
            field.z@.len(),
            |k: int|
                grey(
                    *arith,
                    field.z@[k],
                    field.deepest().larger(Real { bits: EPSILON }),
                ),
        ),
{
    let depth: Real = field.depth().max(Real { bits: EPSILON });
    let zero = Real { bits: number::ZERO };
    let one = Real { bits: number::ONE };
    let mut r: Vec<u8> = Vec::new();
    let mut k: usize = 0;
    while k < field.z.len()
        invariant
            number::steady(*arith),
            zero == (Real { bits: number::ZERO }),
            one == (Real { bits: number::ONE }),
            k <= field.z@.len(),
            r@ == Seq::new(k as nat, |k: int| grey(*arith, field.z@[k], depth)),
        decreases field.z@.len() - k,
    {
        let t: Real = number::ask(arith, Op::Over, field.z[k].neg(), depth).clamp(zero, one);
        let n: u64 = number::ask(
            arith,
            Op::Times,
            t,
            Real { bits: crate::sample::FULL_8 },
        ).to_int();
        r.push(
            if n > 255 {
                255
            } else {
                n as u8
            },
        );
        k = k + 1;
        assert(r@ =~= Seq::new(k as nat, |k: int| grey(*arith, field.z@[k], depth)));
    }
    r
}

// ---------------------------------------------------------------------------
// Laws
// ---------------------------------------------------------------------------

/// The place of a setting in the panel.
spec fn place_of(field: Field) -> int {
    match field {
        Field::Near => 1,
        Field::Far => 2,
        Field::Emboss => 3,
        Field::Invert => 4,
        Field::SizeMm => 6,
        Field::SizePx => 7,
        Field::Tolerance => 9,
        Field::FilterSize => 11,
        Field::Presmooth => 12,
        Field::Thickness => 14,
        Field::FrameNear => 16,
        Field::FrameBack => 17,
        Field::Orientation => 19,
        Field::Layer => 20,
        Field::Units => 21,
        Field::ShowTiles => 23,
    }
}

/// Every setting has its place in the panel, and only one.
pub proof fn law_every_setting_once(field: Field)
    ensures
        exists|i: int| 0 <= i < order().len() && #[trigger] order()[i] == Item::Setting(field),
        forall|i: int, j: int|
            0 <= i < order().len() && 0 <= j < order().len() && #[trigger] order()[i]
                == Item::Setting(field) && #[trigger] order()[j] == Item::Setting(field) ==> i == j,
{
    let k = place_of(field);
    assert(order()[k] == Item::Setting(field));
    assert forall|i: int|
        0 <= i < order().len() && #[trigger] order()[i] == Item::Setting(field) implies i == k by {}
}

/// A control can be moved there.
pub open spec fn offered(c: Control, v: Value) -> bool {
    match (c, v) {
        (Control::Slider { min, max, .. }, Value::Number(x)) => min.at_most(x) && x.at_most(max),
        (Control::Whole { from, to, step, .. }, Value::Count(n)) => from <= n <= to && (n - from)
            % (step as int) == 0,
        (Control::Check, Value::Flag(_)) => true,
        (Control::Choice { .. }, Value::Flag(_)) => true,
        _ => false,
    }
}

/// A control stays where it is put. The planes are left out, because they are
/// nudged apart and shown rounded; and so is the bezel, because it gives way to
/// the picture.
pub proof fn law_controls_stay_put<F: Fn(Op, Real, Real) -> Real>(
    f: F,
    a: AppState,
    field: Field,
    v: Value,
    now: u64,
    max_px: u32,
    c: Control,
)
    requires
        control_fits(field, max_px, c),
        max_px <= params::SIZE_PX_MAX,
        field != Field::Near && field != Field::Far && field != Field::Thickness,
        offered(c, v),
    ensures
        shown(f, after_set(f, a, field, v, now), field) == v,
{
}

} // verus!
