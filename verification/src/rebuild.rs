//! Turning parameters into a preview, and into a file.
//!
//! Two paths, deliberately different: the **preview** is capped at
//! `PREVIEW_MAX_PX` and rebuilt once the settings have been still for a moment;
//! the **export** runs at the full requested resolution.

use std::sync::Arc;
use vstd::prelude::*;
use crate::check;
use crate::decimate::Decimation;
use crate::depth;
use crate::depth::{Albedo, BitDepth, DepthMap, HeightField, Texture};
use crate::error::Error;
use crate::export;
use crate::export::Format;
use crate::mesh;
use crate::mesh::Solid;
use crate::number;
use crate::number::{Double, Op, Real};
use crate::params;
use crate::params::{Params, SIZE_PX_MAX};
use crate::platform::Saved;
use crate::progress::Fraction;
use crate::state;
use crate::state::{AppState, Built, Depth, Photo, Status, Tone, PREVIEW_MAX_PX, TILE_VERTS};
use crate::stats;
use crate::stats::Stats;
use crate::text;
use crate::tiles;

verus! {

// ---------------------------------------------------------------------------
// Everything between a depth map and a solid
// ---------------------------------------------------------------------------

/// A photo that can be read gives each vertex of a grid the colour that it has
/// there once it is resampled to the grid, and one that cannot be read gives
/// none. The filter of the image library need not round alike everywhere.
pub open spec fn coloured(photo: Option<Seq<u8>>, field: HeightField, a: Option<Albedo>) -> bool {
    match photo {
        None => a is None,
        Some(bytes) => match depth::decoded(bytes) {
            None => a is None,
            Some(_) => a matches Some(a) && a.w == field.w && a.h == field.h && a.rgb@.len()
                == field.w * field.h && exists|v: Seq<u8>| #[trigger]
                depth::resampled(
                    bytes,
                    depth::at_least_one(field.w),
                    depth::at_least_one(field.h),
                    v,
                ) && a.rgb@ == depth::triples(v),
        },
    }
}

/// The simplification that the parameters call for.
pub open spec fn simplified<F: Fn(Op, Real, Real) -> Real>(
    f: F,
    field: HeightField,
    p: Params,
    d: Option<Decimation>,
) -> bool {
    &&& d is None <==> p.tolerance_mm.at_most(Real { bits: number::ZERO }) || field.w < 3
        || field.h < 3
    &&& d matches Some(d) ==> d.simplifies(f, field, p.tolerance_mm)
}

/// What an export is made of, with everything but the file itself worked out.
pub struct Export {
    pub params: Params,
    pub format: Format,
    pub field: HeightField,
    pub albedo: Option<Albedo>,
    pub decimation: Option<Decimation>,
    pub stats: Stats,
}

/// The solid over a field.
pub open spec fn solid_over<F: Fn(Op, Real, Real) -> Real>(
    f: F,
    field: HeightField,
    p: Params,
    a: Option<Albedo>,
    d: Option<Decimation>,
) -> Solid<'static> {
    Solid {
        layout: mesh::layout_of(f, field, p),
        field: &field,
        albedo: match a {
            None => None,
            Some(a) => Some(&a),
        },
        decimation: match d {
            None => None,
            Some(d) => Some(&d),
        },
    }
}

impl Export {
    /// The solid that is written.
    pub open spec fn shape<F: Fn(Op, Real, Real) -> Real>(self, f: F) -> Solid<'static> {
        solid_over(f, self.field, self.params, self.albedo, self.decimation)
    }

    /// Everything follows from the depth map, the photo, the parameters and the
    /// format.
    pub open spec fn made_of<
        F: Fn(Op, Real, Real) -> Real,
        D: Fn(Double, Real) -> Double,
        N: Fn(Double) -> Real,
    >(
        self,
        f: F,
        d: D,
        n: N,
        map: DepthMap,
        photo: Option<Seq<u8>>,
        p: Params,
        format: Format,
    ) -> bool {
        &&& self.params == p
        &&& self.format == format
        &&& map.relief(f, p, self.field)
        &&& coloured(photo, self.field, self.albedo)
        &&& simplified(f, self.field, p, self.decimation)
        &&& self.shape(f).wf()
        &&& self.stats == stats::stats_of(f, d, n, self.shape(f), format, p)
    }

    /// The solid that is written.
    pub fn solid<F: Fn(Op, Real, Real) -> Real>(&self, arith: &F) -> (r: Solid<'_>)
        requires
            number::steady(*arith),
        ensures
            r == self.shape(*arith),
    {
        Solid::new(&self.field, &self.params, arith).with_albedo(self.albedo.as_ref())
            .with_decimation(self.decimation.as_ref())
    }

    /// Append the file to `out`.
    pub fn write<F: Fn(Op, Real, Real) -> Real, T: Fn(Real, usize) -> String>(
        &self,
        out: &mut Vec<u8>,
        progress: &mut Vec<Fraction>,
        arith: &F,
        fixed: &T,
    )
        requires
            number::steady(*arith),
            text::steady_text(*fixed),
            self.shape(*arith).wf(),
        ensures
            final(out)@ == old(out)@ + export::file(self.format, self.shape(*arith), *arith, *fixed),
            final(progress)@ == old(progress)@ + export::marks(self.format, self.shape(*arith)),
    {
        let solid = self.solid(arith);
        export::write(self.format, &solid, out, progress, arith, fixed)
    }
}

/// Condition, colour, simplify and measure. An empty depth window is refused.
pub fn prepare<
    F: Fn(Op, Real, Real) -> Real,
    D: Fn(Double, Real) -> Double,
    N: Fn(Double) -> Real,
>(
    map: &DepthMap,
    photo: Option<&Vec<u8>>,
    p: &Params,
    format: Format,
    arith: &F,
    total: &D,
    narrow: &N,
) -> (r: Result<Export, Error>)
    requires
        number::steady(*arith),
        check::steady_sum(*total),
        stats::steady_narrowing(*narrow),
        map.wf(),
        p.usable(),
    ensures
        r is Err <==> p.far.at_most(p.near),
        r matches Err(e) ==> e == (Error::EmptyDepthWindow { near: p.near, far: p.far }),
        r matches Ok(x) ==> x.made_of(
            *arith,
            *total,
            *narrow,
            *map,
            match photo {
                None => None,
                Some(b) => Some(b@),
            },
            *p,
            format,
        ) && 2 <= x.field.w <= SIZE_PX_MAX && 2 <= x.field.h <= SIZE_PX_MAX,
{
    proof {
        params::lemma_grid_small(*p, map.width, map.height);
    }
    let field = match map.to_height_field(p, arith) {
        Err(e) => {
            return Err(e);
        },
        Ok(field) => field,
    };
    proof {
        params::lemma_area_small(field.w as int, field.h as int);
        mesh::layout_of(*arith, field, *p).lemma_small();
    }
    let albedo: Option<Albedo> = match photo {
        None => None,
        Some(bytes) => match Albedo::decode(bytes.as_slice(), field.w, field.h) {
            Ok(a) => Some(a),
            Err(_) => None,
        },
    };
    let decimation = Decimation::build(&field, p.tolerance_mm, arith);
    let measured: Stats = {
        let solid = Solid::new(&field, p, arith).with_albedo(albedo.as_ref()).with_decimation(
            decimation.as_ref(),
        );
        assert(solid == solid_over(*arith, field, *p, albedo, decimation));
        Stats::new(&solid, format, p, arith, total, narrow)
    };
    Ok(Export { params: *p, format, field, albedo, decimation, stats: measured })
}

// ---------------------------------------------------------------------------
// The preview
// ---------------------------------------------------------------------------

/// The bytes of a photo, if there is one.
pub open spec fn photo_bytes(photo: Option<Photo>) -> Option<Seq<u8>> {
    match photo {
        None => None,
        Some(p) => Some(p.bytes@),
    }
}

/// Everything a build needs, detached from the rest of the application so it can
/// run elsewhere.
pub struct Job<'a> {
    pub depth: &'a DepthMap,
    pub photo: Option<&'a Vec<u8>>,
    pub params: Params,
}

impl<'a> Job<'a> {
    pub open spec fn photo_view(self) -> Option<Seq<u8>> {
        match self.photo {
            None => None,
            Some(b) => Some(b@),
        }
    }

    pub fn new(state: &'a AppState) -> (r: Self)
        ensures
            r.depth == *state.depth.map,
            r.photo_view() == photo_bytes(state.photo),
            r.params == state.capped(),
            state.wf() ==> r.depth.wf() && r.params.usable(),
    {
        Job {
            depth: &state.depth.map,
            photo: match &state.photo {
                None => None,
                Some(p) => Some(&p.bytes),
            },
            params: state.preview_params(),
        }
    }

    /// A build: the parts it is made of, and the chunks they are shown in.
    pub open spec fn builds<
        F: Fn(Op, Real, Real) -> Real,
        D: Fn(Double, Real) -> Double,
        N: Fn(Double) -> Real,
    >(self, f: F, d: D, n: N, b: Built) -> bool {
        exists|x: Export| #[trigger]
            x.made_of(f, d, n, *self.depth, self.photo_view(), self.params, Format::Stl) && b.params
                == self.params && b.field == x.field && b.stats == x.stats && tiles::is_preview(
                f,
                x.shape(f),
                TILE_VERTS as int,
                b.tiles@,
            )
    }

    /// The actual work: condition, colour, chunk.
    pub fn run<
        F: Fn(Op, Real, Real) -> Real,
        D: Fn(Double, Real) -> Double,
        N: Fn(Double) -> Real,
        P: Fn(Real) -> String,
    >(&self, arith: &F, total: &D, narrow: &N, plain: &P) -> (r: Result<Built, String>)
        requires
            number::steady(*arith),
            check::steady_sum(*total),
            stats::steady_narrowing(*narrow),
            text::steady_plain(*plain),
            self.depth.wf(),
            self.params.usable(),
        ensures
            r is Err <==> self.params.far.at_most(self.params.near),
            r matches Err(t) ==> (Error::EmptyDepthWindow {
                near: self.params.near,
                far: self.params.far,
            }).told(*plain, t@),
            r matches Ok(b) ==> self.builds(*arith, *total, *narrow, b),
    {
        let x = match prepare(
            self.depth,
            self.photo,
            &self.params,
            Format::Stl,
            arith,
            total,
            narrow,
        ) {
            Err(e) => {
                return Err(e.message(plain));
            },
            Ok(x) => x,
        };
        let chunks = {
            let solid = x.solid(arith);
            proof {
                solid.lemma_frame_small();
            }
            tiles::preview(&solid, TILE_VERTS, arith)
        };
        let ghost made = x;
        assert(made.made_of(
            *arith,
            *total,
            *narrow,
            *self.depth,
            self.photo_view(),
            self.params,
            Format::Stl,
        ));
        Ok(Built { params: self.params, field: x.field, stats: x.stats, tiles: chunks })
    }
}

/// What is worth saying of a build that has landed; otherwise the last real
/// message stays on screen.
pub open spec fn build_status<T: Fn(Real, usize) -> String>(
    fixed: T,
    a: AppState,
    s: Stats,
    status: Status,
) -> bool {
    if !s.step_mm.at_most(s.layer_mm) {
        status.says(Tone::Warn, s.step_text(fixed))
    } else if s.triangles > params::TRIANGLE_WARN {
        status.says(
            Tone::Warn,
            text::decimal(s.triangles as nat) + " triangles at "@ + text::decimal(
                a.params.size_px as nat,
            ) + " px — more than most slicers handle comfortably"@,
        )
    } else {
        status == a.status
    }
}

/// Put a build on screen, or say why there is none.
pub fn finish<T: Fn(Real, usize) -> String>(
    state: &mut AppState,
    result: Result<Built, String>,
    fixed: &T,
)
    requires
        text::steady_text(*fixed),
        old(state).generation < u64::MAX,
    ensures
        match result {
            Err(message) => {
                &&& *final(state) == (AppState { status: final(state).status, ..*old(state) })
                &&& final(state).status.says(Tone::Error, message@)
            },
            Ok(b) => {
                &&& *final(state) == (AppState {
                    built: Some(b),
                    applied: Some(b.params),
                    generation: (old(state).generation + 1) as u64,
                    depth_shown: false,
                    status: final(state).status,
                    ..*old(state)
                })
                &&& build_status(*fixed, *old(state), b.stats, final(state).status)
            },
        },
{
    match result {
        Err(message) => {
            state.status = Status::error(message);
        },
        Ok(built) => {
            let measured: Stats = built.stats;
            state.applied = Some(built.params);
            state.built = Some(built);
            state.generation = state.generation + 1;
            state.depth_shown = false;
            if !measured.steps_ok() {
                state.status = Status::warn(measured.step_line(fixed));
            } else if measured.slicer_strain() {
                let mut r = text::number_text(measured.triangles as u64);
                r.append(" triangles at ");
                r.append(text::number_text(state.params.size_px as u64).as_str());
                r.append(" px — more than most slicers handle comfortably");
                state.status = Status::warn(r);
            }
        },
    }
}

/// What to do about the build in this frame.
#[derive(Debug, Clone, Copy, PartialEq, Eq, Structural)]
pub enum Drive {
    Wait,
    Start,
}

/// Start a build when none is running and the settings have settled; the edit is
/// then accounted for.
pub fn drive(state: &mut AppState, busy: bool, now: u64) -> (r: Drive)
    ensures
        r == (if !busy && old(state).settled(now) {
            Drive::Start
        } else {
            Drive::Wait
        }),
        *final(state) == (if r == Drive::Start {
            AppState { dirty_since: None, ..*old(state) }
        } else {
            *old(state)
        }),
{
    if busy || !state::ready_to_rebuild(state, now) {
        return Drive::Wait;
    }
    state.dirty_since = None;
    Drive::Start
}

/// What the preview is showing, for the status line.
pub open spec fn note_of(state: AppState) -> Seq<char> {
    match state.built {
        None => "building…"@,
        Some(b) => {
            let n: int = if b.tiles@.len() == 0 {
                0
            } else {
                b.tiles@.len() - 1
            };
            "preview "@ + text::decimal(b.stats.grid.0 as nat) + "×"@ + text::decimal(
                b.stats.grid.1 as nat,
            ) + " in "@ + text::decimal(n as nat) + " chunk"@ + (if n == 1 {
                ""@
            } else {
                "s"@
            }) + (if state.params.size_px > PREVIEW_MAX_PX {
                ", export is finer"@
            } else {
                ""@
            })
        },
    }
}

pub fn preview_note(state: &AppState) -> (r: String)
    ensures
        r@ == note_of(*state),
{
    match &state.built {
        None => "building…".to_owned(),
        Some(b) => {
            let n: usize = if b.tiles.len() == 0 {
                0
            } else {
                b.tiles.len() - 1
            };
            let mut r = "preview ".to_owned();
            r.append(text::number_text(b.stats.grid.0 as u64).as_str());
            r.append("×");
            r.append(text::number_text(b.stats.grid.1 as u64).as_str());
            r.append(" in ");
            r.append(text::number_text(n as u64).as_str());
            r.append(" chunk");
            r.append(
                if n == 1 {
                    ""
                } else {
                    "s"
                },
            );
            r.append(
                if state.params.size_px > PREVIEW_MAX_PX {
                    ", export is finer"
                } else {
                    ""
                },
            );
            r
        },
    }
}

/// Load the built-in sample, at whatever bit depth is asked for.
pub fn load_sample<F: Fn(Op, Real, Real) -> Real>(
    state: &mut AppState,
    eight_bit: bool,
    now: u64,
    arith: &F,
)
    requires
        number::steady(*arith),
    ensures
        *final(state) == (AppState {
            depth: final(state).depth,
            photo: None,
            photo_shown: false,
            status: final(state).status,
            dirty_since: Some(now),
            save_since: Some(now),
            ..*old(state)
        }),
        state::sample_loaded(
            *arith,
            *final(state).depth.map,
            if eight_bit {
                BitDepth::Eight
            } else {
                BitDepth::Sixteen
            },
        ),
        final(state).depth.name@ == (if eight_bit {
            "sample_photo_gray.jpg"@
        } else {
            "sample_terrain_16bit.png"@
        }),
        final(state).status.says(
            Tone::Info,
            if eight_bit {
                "Synthetic 8-bit sample with JPEG-style blocks — raise Smooth radius to see it cleaned up"@
            } else {
                "Synthetic 16-bit sample"@
            },
        ),
        old(state).params.usable() ==> final(state).wf(),
{
    assert(crate::sample::side(1536) * crate::sample::side(1152) == 1_769_472) by {
        assert(1536int * 1152int == 1_769_472) by (nonlinear_arith);
    }
    let (bits, name) = if eight_bit {
        (BitDepth::Eight, "sample_photo_gray.jpg")
    } else {
        (BitDepth::Sixteen, "sample_terrain_16bit.png")
    };
    state.depth = Depth {
        name: name.to_owned(),
        map: Arc::new(crate::sample::depth_map_with(1536, 1152, bits, arith)),
    };
    state.photo = None;
    state.photo_shown = false;
    state.status = Status::info(
        if eight_bit {
            "Synthetic 8-bit sample with JPEG-style blocks — raise Smooth radius to see it cleaned up".to_owned()
        } else {
            "Synthetic 16-bit sample".to_owned()
        },
    );
    state.touch(now);
}

/// Bringing a changed photo on screen turns `a` into `b` and hands out `t`.
pub open spec fn photo_synced(a: AppState, b: AppState, t: Option<Texture>) -> bool {
    if !a.photo_dirty {
        b == a && t is None
    } else {
        match a.photo {
            None => t is None && b == (AppState { photo_dirty: false, photo_shown: false, ..a }),
            Some(p) => match depth::textured(p.bytes@) {
                None => {
                    &&& t is None
                    &&& b == (AppState { photo_dirty: false, status: b.status, ..a })
                    &&& exists|why: Seq<char>|
                        b.status.says(Tone::Error, #[trigger] (p.name@ + ": "@ + why))
                },
                Some((w, h, rgba)) => {
                    &&& t matches Some(t)
                    &&& t.width == w && t.height == h && t.rgba@ == rgba
                    &&& b == (AppState { photo_dirty: false, photo_shown: true, ..a })
                },
            },
        }
    }
}

/// The photo to put on screen, when it has changed and can be read. One that has
/// been taken away is no longer shown.
pub fn sync_photo_texture<P: Fn(Real) -> String>(state: &mut AppState, plain: &P) -> (r: Option<
    Texture,
>)
    requires
        text::steady_plain(*plain),
    ensures
        photo_synced(*old(state), *final(state), r),
        old(state).photo_reads() && old(state).photo_dirty ==> (r is Some <==> old(state).photo is Some),
{
    if !state.photo_dirty {
        return None;
    }
    state.photo_dirty = false;
    let outcome = match &state.photo {
        None => None,
        Some(p) => match depth::open_texture(p.bytes.as_slice()) {
            Ok(t) => Some(Ok(t)),
            Err(e) => {
                let why = e.reason(plain);
                let mut r = p.name.clone();
                r.append(": ");
                r.append(why.as_str());
                assert(r@ == p.name@ + ": "@ + why@);
                Some(Err(r))
            },
        },
    };
    match outcome {
        None => {
            state.photo_shown = false;
            None
        },
        Some(Err(message)) => {
            state.status = Status::error(message);
            None
        },
        Some(Ok(t)) => {
            state.photo_shown = true;
            Some(t)
        },
    }
}

// ---------------------------------------------------------------------------
// The export
// ---------------------------------------------------------------------------

/// The photo that a format can carry.
pub open spec fn carried(photo: Option<Photo>, format: Format) -> Option<Seq<u8>> {
    if format == Format::Stl {
        None
    } else {
        photo_bytes(photo)
    }
}

/// Work an export out at full resolution. A refusal goes to the status line.
pub fn plan_export<
    F: Fn(Op, Real, Real) -> Real,
    D: Fn(Double, Real) -> Double,
    N: Fn(Double) -> Real,
    P: Fn(Real) -> String,
>(state: &mut AppState, arith: &F, total: &D, narrow: &N, plain: &P) -> (r: Option<Export>)
    requires
        number::steady(*arith),
        check::steady_sum(*total),
        stats::steady_narrowing(*narrow),
        text::steady_plain(*plain),
        old(state).wf(),
    ensures
        ({
            let p = old(state).params;
            match r {
                None => {
                    &&& p.far.at_most(p.near)
                    &&& *final(state) == (AppState { status: final(state).status, ..*old(state) })
                    &&& final(state).status.tone == Tone::Error
                    &&& (Error::EmptyDepthWindow { near: p.near, far: p.far }).told(
                        *plain,
                        final(state).status.text@,
                    )
                },
                Some(x) => {
                    &&& !p.far.at_most(p.near)
                    &&& *final(state) == *old(state)
                    &&& x.made_of(
                        *arith,
                        *total,
                        *narrow,
                        *old(state).depth.map,
                        carried(old(state).photo, old(state).format),
                        p,
                        old(state).format,
                    )
                },
            }
        }),
{
    let result = {
        let photo: Option<&Vec<u8>> = match &state.photo {
            None => None,
            Some(p) => if state.format.carries_colour() {
                Some(&p.bytes)
            } else {
                None
            },
        };
        prepare(
            &state.depth.map,
            photo,
            &state.params,
            state.format,
            arith,
            total,
            narrow,
        )
    };
    match result {
        Err(e) => {
            state.status = Status::error(e.message(plain));
            None
        },
        Ok(x) => Some(x),
    }
}

/// What is said once an export is through.
pub open spec fn export_said(
    name: Seq<char>,
    s: Stats,
    outcome: Result<Saved, String>,
    status: Status,
) -> bool {
    let size = " — "@ + text::decimal(s.triangles as nat) + " triangles, "@ + s.file_text();
    match outcome {
        Err(message) => status.says(Tone::Error, message@),
        Ok(Saved::Cancelled) => status.says(Tone::Info, "Export cancelled"@),
        Ok(Saved::Downloaded) => status.says(Tone::Info, "Downloaded "@ + name + size),
        Ok(Saved::To(path)) => status.says(Tone::Info, "Wrote "@ + path@ + size),
    }
}

/// Say how far an export has come.
pub fn export_progress(state: &mut AppState, name: &str, m: Fraction)
    requires
        m.proper(),
    ensures
        *final(state) == (AppState { status: final(state).status, ..*old(state) }),
        final(state).status.says(
            Tone::Info,
            "Writing "@ + name@ + "… "@ + text::decimal(m.percent() as nat) + "%"@,
        ),
{
    let mut r = "Writing ".to_owned();
    r.append(name);
    r.append("… ");
    r.append(text::number_text(m.whole_percent() as u64).as_str());
    r.append("%");
    state.status = Status::info(r);
}

/// Say how an export went.
pub fn export_done(state: &mut AppState, name: &str, x: &Export, outcome: Result<Saved, String>)
    ensures
        *final(state) == (AppState { status: final(state).status, ..*old(state) }),
        export_said(name@, x.stats, outcome, final(state).status),
{
    let mut size = " — ".to_owned();
    size.append(text::number_text(x.stats.triangles as u64).as_str());
    size.append(" triangles, ");
    size.append(x.stats.file_line().as_str());
    state.status = match outcome {
        Err(message) => Status::error(message),
        Ok(Saved::Cancelled) => Status::info("Export cancelled".to_owned()),
        Ok(Saved::Downloaded) => {
            let mut r = "Downloaded ".to_owned();
            r.append(name);
            r.append(size.as_str());
            Status::info(r)
        },
        Ok(Saved::To(path)) => {
            let mut r = "Wrote ".to_owned();
            r.append(path.as_str());
            r.append(size.as_str());
            Status::info(r)
        },
    };
}

/// The largest resolution that is offered for export.
///
/// The desktop number is where a slicer stops coping; the browser's is where the
/// height field itself starts crowding a 32-bit address space.
pub fn export_max_px(browser: bool) -> (r: u32)
    ensures
        r == (if browser {
            2048
        } else {
            SIZE_PX_MAX
        }),
{
    if browser {
        2048
    } else {
        SIZE_PX_MAX
    }
}

} // verus!
