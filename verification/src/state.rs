//! What the application knows, and how it changes.
//!
//! Times are nanoseconds since the application started.

use std::sync::Arc;
use vstd::prelude::*;
use crate::depth;
use crate::depth::{DepthMap, HeightField};
use crate::error::Error;
use crate::export::Format;
use crate::number;
use crate::number::{Op, Real};
use crate::params;
use crate::params::Params;
use crate::platform::{Inbox, Opened, PickKind};
use crate::sample;
use crate::stats::Stats;
use crate::text;
use crate::tiles;
use crate::tiles::TileMesh;

verus! {

/// Grid cap for the live preview.
///
/// The preview exists to judge the shape, and 512 px of relief already reads as
/// detailed at any sensible window size. Export resolution is separate and much
/// higher — that split is what keeps a slider drag responsive.
pub const PREVIEW_MAX_PX: u32 = 512;

/// Vertices per preview chunk.
pub const TILE_VERTS: usize = tiles::DEFAULT_MAX_TILE_VERTS;

/// Idle time before a parameter change triggers a rebuild.
pub const REBUILD_DEBOUNCE: u64 = 120_000_000;

/// Idle time before settings are written to disk.
pub const AUTOSAVE_DEBOUNCE: u64 = 1_500_000_000;

#[derive(Debug, Clone, Copy, PartialEq, Eq, Structural)]
pub enum Tone {
    Info,
    Warn,
    Error,
}

/// The message on the status line.
#[derive(Debug, Clone)]
pub struct Status {
    pub text: String,
    pub tone: Tone,
}

impl Status {
    pub open spec fn says(self, tone: Tone, text: Seq<char>) -> bool {
        self.tone == tone && self.text@ == text
    }

    pub fn info(text: String) -> (r: Self)
        ensures
            r.says(Tone::Info, text@),
    {
        Status { text, tone: Tone::Info }
    }

    pub fn warn(text: String) -> (r: Self)
        ensures
            r.says(Tone::Warn, text@),
    {
        Status { text, tone: Tone::Warn }
    }

    pub fn error(text: String) -> (r: Self)
        ensures
            r.says(Tone::Error, text@),
    {
        Status { text, tone: Tone::Error }
    }
}

/// The loaded depth map. Shared, because a rebuild hands it to a worker.
pub struct Depth {
    pub name: String,
    pub map: Arc<DepthMap>,
}

/// The optional photo, kept as bytes so it can be re-sampled to whatever grid
/// the current parameters produce.
pub struct Photo {
    pub name: String,
    pub bytes: Arc<Vec<u8>>,
    pub width: u32,
    pub height: u32,
}

/// What the last completed rebuild produced.
pub struct Built {
    /// The parameters it was built from.
    pub params: Params,
    pub field: HeightField,
    pub stats: Stats,
    pub tiles: Vec<TileMesh>,
}

pub struct AppState {
    pub params: Params,
    /// The parameters the current preview was built from.
    pub applied: Option<Params>,
    pub depth: Depth,
    pub photo: Option<Photo>,
    pub inbox: Inbox,
    pub status: Status,
    pub format: Format,
    /// Tint each preview chunk differently, to show the tiling.
    pub show_tiles: bool,
    /// Set when something changed; a rebuild starts once it stops changing.
    pub dirty_since: Option<u64>,
    pub save_since: Option<u64>,
    /// Bumped when a new preview lands, so the viewport knows to re-upload.
    pub generation: u64,
    pub built: Option<Built>,
    /// The picture of the conditioned depth map is still the right one.
    pub depth_shown: bool,
    /// The photo is on screen.
    pub photo_shown: bool,
    /// The photo has changed, and the screen does not show it yet.
    pub photo_dirty: bool,
}

impl AppState {
    /// There is a depth map to work on, and parameters to do it with.
    pub open spec fn wf(self) -> bool {
        self.depth.map.wf() && self.params.usable()
    }

    /// The photo, if there is one, is an image of the size it is said to have.
    pub open spec fn photo_reads(self) -> bool {
        self.photo matches Some(p) ==> (depth::decoded(p.bytes@) matches Some(d) && d.0 == p.width
            && d.1 == p.height)
    }

    /// The sample, with the default settings.
    pub fn new<F: Fn(Op, Real, Real) -> Real>(arith: &F) -> (r: Self)
        requires
            number::steady(*arith),
        ensures
            r.wf(),
            r.params == params::defaults(),
            r.applied is None,
            r.depth.name@ == "sample_terrain_16bit.png"@,
            sample_loaded(*arith, *r.depth.map, depth::BitDepth::Sixteen),
            r.photo is None,
            r.inbox.waiting() is None,
            r.status.says(
                Tone::Info,
                "Sample depth map loaded — open your own to replace it."@,
            ),
            r.format == Format::Stl,
            !r.show_tiles,
            r.dirty_since == Some(0u64),
            r.save_since is None,
            r.generation == 0,
            r.built is None,
            !r.depth_shown,
            !r.photo_shown,
            !r.photo_dirty,
    {
        assert(sample::side(1536) * sample::side(1152) == 1_769_472) by {
            assert(1536int * 1152int == 1_769_472) by (nonlinear_arith);
        }
        AppState {
            params: Params::default(),
            applied: None,
            depth: Depth {
                name: "sample_terrain_16bit.png".to_owned(),
                map: Arc::new(sample::depth_map(1536, 1152, arith)),
            },
            photo: None,
            inbox: Inbox::new(),
            status: Status::info(
                "Sample depth map loaded — open your own to replace it.".to_owned(),
            ),
            format: Format::Stl,
            show_tiles: false,
            dirty_since: Some(0),
            save_since: None,
            generation: 0,
            built: None,
            depth_shown: false,
            photo_shown: false,
            photo_dirty: false,
        }
    }

    pub open spec fn capped(self) -> Params {
        Params {
            size_px: if self.params.size_px < PREVIEW_MAX_PX {
                self.params.size_px
            } else {
                PREVIEW_MAX_PX
            },
            ..self.params
        }
    }

    /// Preview grid: the requested resolution, capped.
    pub fn preview_params(&self) -> (r: Params)
        ensures
            r == self.capped(),
    {
        let mut p = self.params;
        if p.size_px >= PREVIEW_MAX_PX {
            p.size_px = PREVIEW_MAX_PX;
        }
        p
    }

    /// Note that something the geometry depends on has changed.
    pub fn touch(&mut self, now: u64)
        ensures
            *final(self) == (AppState {
                dirty_since: Some(now),
                save_since: Some(now),
                ..*old(self)
            }),
    {
        self.dirty_since = Some(now);
        self.save_since = Some(now);
    }

    pub fn stats(&self) -> (r: Option<&Stats>)
        ensures
            match self.built {
                None => r is None,
                Some(b) => r == Some(&b.stats),
            },
    {
        match &self.built {
            None => None,
            Some(b) => Some(&b.stats),
        }
    }

    /// The name of the depth map without what marks it as one.
    pub open spec fn subject(self) -> Seq<char> {
        text::trimmed(text::trimmed(text::stem(self.depth.name@), "_16bit"@), "_depth"@)
    }

    /// Filename to suggest for an export.
    pub fn suggested_name(&self) -> (r: String)
        ensures
            r@ == self.subject() + "."@ + self.format.suffix(),
    {
        proof {
            reveal_strlit("_16bit");
            reveal_strlit("_depth");
        }
        let stem = text::stem_of(self.depth.name.as_str());
        let plain = text::trim_end(text::trim_end(stem, "_16bit"), "_depth");
        let mut r = plain.to_owned();
        r.append(".");
        r.append(self.format.extension());
        r
    }

    /// Bring back the settings from the last session. Settings that leave
    /// nothing to make are left alone.
    pub fn restore(&mut self, params: Params, location: Option<String>)
        ensures
            ({
                let p = params::legal(params);
                if p.far.at_most(p.near) {
                    *final(self) == *old(self)
                } else {
                    &&& *final(self) == (AppState {
                        params: p,
                        status: final(self).status,
                        ..*old(self)
                    })
                    &&& final(self).status.says(
                        Tone::Info,
                        match location {
                            Some(l) => "Restored your last settings from "@ + l@,
                            None => "Restored your last settings"@,
                        },
                    )
                }
            }),
            old(self).wf() && !params.near.nan() && !params.far.nan() ==> final(self).wf(),
    {
        let mut p = params;
        p.clamp();
        if p.validate().is_ok() {
            self.params = p;
            self.status = Status::info(
                match location {
                    Some(l) => {
                        let mut r = "Restored your last settings from ".to_owned();
                        r.append(l.as_str());
                        r
                    },
                    None => "Restored your last settings".to_owned(),
                },
            );
        }
    }

    /// Has the last edit been still long enough to rebuild?
    pub open spec fn settled(self, now: u64) -> bool {
        self.dirty_since matches Some(since) && now - since >= REBUILD_DEBOUNCE
    }

    /// The preview does not show the current settings.
    pub open spec fn outdated(self) -> bool {
        self.applied matches Some(p) ==> !p.equals(self.capped())
    }

    /// Notice a parameter edit and start the debounce clock.
    pub fn watch_params(&mut self, now: u64)
        ensures
            *final(self) == (if old(self).outdated() && old(self).dirty_since is None {
                AppState { dirty_since: Some(now), save_since: Some(now), ..*old(self) }
            } else {
                *old(self)
            }),
    {
        let changed: bool = match self.applied {
            None => true,
            Some(p) => !p.same(&self.preview_params()),
        };
        if changed && self.dirty_since.is_none() {
            self.touch(now);
        }
    }

    /// Forget the time of the last edit once the settings have been still long
    /// enough to be written out. The answer is whether to write them.
    pub fn autosave(&mut self, now: u64) -> (r: bool)
        ensures
            r == (old(self).save_since matches Some(since) && now - since >= AUTOSAVE_DEBOUNCE),
            *final(self) == (if r {
                AppState { save_since: None, ..*old(self) }
            } else {
                *old(self)
            }),
    {
        match self.save_since {
            None => false,
            Some(since) => {
                if now < since || now - since < AUTOSAVE_DEBOUNCE {
                    false
                } else {
                    self.save_since = None;
                    true
                }
            },
        }
    }

    /// Whether to write the settings on the way out, so a change made in the
    /// last second is not lost.
    pub fn autosave_on_exit(&self, exiting: bool) -> (r: bool)
        ensures
            r == (exiting && self.save_since is Some),
    {
        exiting && self.save_since.is_some()
    }

    /// Take the photo away.
    pub fn remove_photo(&mut self)
        ensures
            *final(self) == (AppState {
                photo: None,
                photo_shown: false,
                photo_dirty: true,
                ..*old(self)
            }),
    {
        self.photo = None;
        self.photo_shown = false;
        self.photo_dirty = true;
    }
}

// ---------------------------------------------------------------------------
// Files
// ---------------------------------------------------------------------------

/// What is said of a depth map that has been opened.
pub open spec fn depth_note(name: Seq<char>, m: DepthMap, dropped: bool) -> Seq<char> {
    name + " — "@ + text::size(m.width, m.height) + " "@ + m.bits.name() + (if m.was_colour {
        ", colour converted to luma — a depth map should be grayscale"@
    } else {
        ""@
    }) + (if dropped {
        "; the loaded photo no longer matches and was dropped"@
    } else {
        ""@
    })
}

/// The photo of `a` does not fit `m`.
pub open spec fn photo_misfits<F: Fn(Op, Real, Real) -> Real>(f: F, a: AppState, m: DepthMap) -> bool {
    a.photo matches Some(p) && depth::misfit(f, m, p.width, p.height)
}

/// Opening a depth map turns `a` into `b`: a readable one replaces the old one,
/// and with it a photo that does not fit any more.
pub open spec fn depth_outcome<F: Fn(Op, Real, Real) -> Real, P: Fn(Real) -> String>(
    f: F,
    plain: P,
    a: AppState,
    name: Seq<char>,
    bytes: Seq<u8>,
    now: u64,
    b: AppState,
) -> bool {
    if DepthMap::readable(bytes) {
        let m = *b.depth.map;
        let dropped = photo_misfits(f, a, m);
        &&& m.read_from(f, bytes)
        &&& b.depth.name@ == name
        &&& b.status.says(
            if m.was_colour || dropped {
                Tone::Warn
            } else {
                Tone::Info
            },
            depth_note(name, m, dropped),
        )
        &&& b == (AppState {
            depth: b.depth,
            status: b.status,
            photo: if dropped {
                None
            } else {
                a.photo
            },
            photo_shown: a.photo_shown && !dropped,
            dirty_since: Some(now),
            save_since: Some(now),
            ..a
        })
    } else {
        &&& b == (AppState { status: b.status, ..a })
        &&& exists|e: Error, t: Seq<char>| #[trigger]
            DepthMap::refused(bytes, e) && #[trigger] e.told(plain, t) && b.status.says(
                Tone::Error,
                name + ": "@ + t,
            )
    }
}

/// Opening a photo turns `a` into `b`: one that can be read and fits the depth
/// map colours the relief.
pub open spec fn photo_outcome<F: Fn(Op, Real, Real) -> Real, P: Fn(Real) -> String>(
    f: F,
    plain: P,
    a: AppState,
    name: Seq<char>,
    bytes: Seq<u8>,
    now: u64,
    b: AppState,
) -> bool {
    match depth::decoded(bytes) {
        None => {
            &&& b == (AppState { status: b.status, ..a })
            &&& exists|why: Seq<char>| b.status.says(Tone::Error, #[trigger] (name + ": "@ + why))
        },
        Some((w, h, _, _)) => if depth::misfit(f, *a.depth.map, w, h) {
            let e = Error::AspectMismatch {
                photo_w: w,
                photo_h: h,
                depth_w: a.depth.map.width,
                depth_h: a.depth.map.height,
            };
            &&& b == (AppState { status: b.status, ..a })
            &&& b.status.tone == Tone::Error
            &&& e.told(plain, b.status.text@)
        } else {
            &&& b.photo matches Some(p)
            &&& p.name@ == name
            &&& p.bytes@ == bytes
            &&& p.width == w
            &&& p.height == h
            &&& b.status.says(
                Tone::Info,
                name + " — "@ + text::size(w, h) + ", colouring the relief"@,
            )
            &&& b == (AppState {
                photo: b.photo,
                status: b.status,
                photo_dirty: true,
                dirty_since: Some(now),
                save_since: Some(now),
                ..a
            })
        },
    }
}

/// Opening a settings file turns `a` into `b`: settings that can be read and
/// leave something to make replace the old ones.
pub open spec fn settings_outcome<P: Fn(Real) -> String>(
    plain: P,
    a: AppState,
    name: Seq<char>,
    parsed: Result<Params, String>,
    now: u64,
    b: AppState,
) -> bool {
    match parsed {
        Err(why) => {
            &&& b == (AppState { status: b.status, ..a })
            &&& b.status.says(Tone::Error, name + " is not settings JSON: "@ + why@)
        },
        Ok(q) => {
            let p = params::legal(q);
            if p.far.at_most(p.near) {
                let e = Error::EmptyDepthWindow { near: p.near, far: p.far };
                &&& b == (AppState { status: b.status, ..a })
                &&& b.status.tone == Tone::Error
                &&& e.told(plain, b.status.text@)
            } else {
                &&& b.status.says(Tone::Info, "Loaded settings from "@ + name)
                &&& b == (AppState {
                    params: p,
                    status: b.status,
                    dirty_since: Some(now),
                    save_since: Some(now),
                    ..a
                })
            }
        },
    }
}

impl AppState {
    /// Take over a depth map that has been picked.
    pub fn depth_opened<F: Fn(Op, Real, Real) -> Real, P: Fn(Real) -> String>(
        &mut self,
        name: String,
        bytes: &Vec<u8>,
        now: u64,
        arith: &F,
        plain: &P,
    )
        requires
            number::steady(*arith),
            text::steady_plain(*plain),
        ensures
            depth_outcome(*arith, *plain, *old(self), name@, bytes@, now, *final(self)),
            old(self).wf() ==> final(self).wf(),
    {
        let ghost was = *self;
        match DepthMap::decode(bytes.as_slice(), arith) {
            Err(e) => {
                let t = e.message(plain);
                let mut r = name;
                r.append(": ");
                r.append(t.as_str());
                self.status = Status::error(r);
                assert(DepthMap::refused(bytes@, e));
                assert(e.told(*plain, t@));
            },
            Ok(map) => {
                let mut note = name.clone();
                let mut tone = Tone::Info;
                note.append(" — ");
                text::append_size(&mut note, map.width, map.height);
                note.append(" ");
                note.append(map.bits.label());
                if map.was_colour {
                    note.append(", colour converted to luma — a depth map should be grayscale");
                    tone = Tone::Warn;
                } else {
                    note.append("");
                }
                let dropped: bool = match &self.photo {
                    None => false,
                    Some(p) => depth::check_aspect(&map, p.width, p.height, arith).is_err(),
                };
                if dropped {
                    note.append("; the loaded photo no longer matches and was dropped");
                    tone = Tone::Warn;
                    self.photo = None;
                    self.photo_shown = false;
                } else {
                    note.append("");
                }
                assert(note@ == depth_note(name@, map, dropped));
                self.depth = Depth { name, map: Arc::new(map) };
                self.status = Status { text: note, tone };
                self.touch(now);
            },
        }
    }

    /// Take over a photo that has been picked.
    pub fn photo_opened<F: Fn(Op, Real, Real) -> Real, P: Fn(Real) -> String>(
        &mut self,
        name: String,
        bytes: Vec<u8>,
        now: u64,
        arith: &F,
        plain: &P,
    )
        requires
            number::steady(*arith),
            text::steady_plain(*plain),
        ensures
            photo_outcome(*arith, *plain, *old(self), name@, bytes@, now, *final(self)),
            old(self).wf() ==> final(self).wf(),
    {
        match depth::open_picture(bytes.as_slice()) {
            Err(e) => {
                let why = e.reason(plain);
                let mut r = name;
                r.append(": ");
                r.append(why.as_str());
                self.status = Status::error(r);
                assert(self.status.says(Tone::Error, name@ + ": "@ + why@));
            },
            Ok(picture) => {
                let (width, height) = (picture.width, picture.height);
                match depth::check_aspect(&self.depth.map, width, height, arith) {
                    Err(e) => {
                        self.status = Status::error(e.message(plain));
                    },
                    Ok(()) => {
                        let mut note = name.clone();
                        note.append(" — ");
                        text::append_size(&mut note, width, height);
                        note.append(", colouring the relief");
                        self.photo = Some(Photo { name, bytes: Arc::new(bytes), width, height });
                        self.photo_dirty = true;
                        self.status = Status::info(note);
                        self.touch(now);
                    },
                }
            },
        }
    }

    /// Take over settings that have been picked.
    pub fn settings_opened<P: Fn(Real) -> String>(
        &mut self,
        name: String,
        parsed: Result<Params, String>,
        now: u64,
        plain: &P,
    )
        requires
            text::steady_plain(*plain),
        ensures
            settings_outcome(*plain, *old(self), name@, parsed, now, *final(self)),
            old(self).wf() && (parsed matches Ok(p) ==> !p.near.nan() && !p.far.nan())
                ==> final(self).wf(),
    {
        match parsed {
            Err(why) => {
                let mut r = name;
                r.append(" is not settings JSON: ");
                r.append(why.as_str());
                self.status = Status::error(r);
            },
            Ok(q) => {
                let mut p = q;
                p.clamp();
                match p.validate() {
                    Err(e) => {
                        self.status = Status::error(e.message(plain));
                    },
                    Ok(()) => {
                        let mut r = "Loaded settings from ".to_owned();
                        r.append(name.as_str());
                        self.params = p;
                        self.status = Status::info(r);
                        self.touch(now);
                    },
                }
            },
        }
    }
}

/// The caller's way to read settings always answers, and never makes a plane
/// NaN: settings are text, and text has no such number.
pub open spec fn reads_settings<J: Fn(Vec<u8>) -> Result<Params, String>>(parse: J) -> bool {
    &&& forall|b: Vec<u8>| #[trigger] call_requires(parse, (b,))
    &&& forall|b: Vec<u8>, r: Result<Params, String>| #[trigger]
        call_ensures(parse, (b,), r) ==> (r matches Ok(p) ==> !p.near.nan() && !p.far.nan())
}

/// Taking a delivery out of the inbox and acting on it turns `a` into `b`.
pub open spec fn opened_outcome<
    F: Fn(Op, Real, Real) -> Real,
    P: Fn(Real) -> String,
    J: Fn(Vec<u8>) -> Result<Params, String>,
>(f: F, plain: P, parse: J, a: AppState, now: u64, b: AppState) -> bool {
    let emptied = AppState { inbox: b.inbox, ..a };
    match a.inbox.waiting() {
        None => b == emptied,
        Some(Err(message)) => {
            &&& b == (AppState { status: b.status, ..emptied })
            &&& b.status.says(Tone::Error, message@)
        },
        Some(Ok(Opened::Cancelled)) => b == emptied,
        Some(Ok(Opened::File { kind, name, bytes })) => match kind {
            PickKind::Depth => depth_outcome(f, plain, emptied, name@, bytes@, now, b),
            PickKind::Photo => photo_outcome(f, plain, emptied, name@, bytes@, now, b),
            PickKind::Settings => exists|r: Result<Params, String>| #[trigger]
                call_ensures(parse, (bytes,), r) && settings_outcome(
                    plain,
                    emptied,
                    name@,
                    r,
                    now,
                    b,
                ),
        },
    }
}

/// Drain whatever a file picker delivered. `parse` reads settings.
pub fn apply_opened<
    F: Fn(Op, Real, Real) -> Real,
    P: Fn(Real) -> String,
    J: Fn(Vec<u8>) -> Result<Params, String>,
>(state: &mut AppState, now: u64, parse: &J, arith: &F, plain: &P)
    requires
        number::steady(*arith),
        text::steady_plain(*plain),
        reads_settings(*parse),
    ensures
        opened_outcome(*arith, *plain, *parse, *old(state), now, *final(state)),
        final(state).inbox.waiting() is None,
        old(state).wf() ==> final(state).wf(),
{
    match state.inbox.take() {
        None => {},
        Some(Err(message)) => {
            state.status = Status::error(message);
        },
        Some(Ok(Opened::Cancelled)) => {},
        Some(Ok(Opened::File { kind, name, bytes })) => match kind {
            PickKind::Depth => state.depth_opened(name, &bytes, now, arith, plain),
            PickKind::Photo => state.photo_opened(name, bytes, now, arith, plain),
            PickKind::Settings => {
                let parsed = parse(bytes);
                state.settings_opened(name, parsed, now, plain);
            },
        },
    }
}

/// Whatever is opened, a photo that is kept can be read: it was read when it came
/// in.
pub proof fn law_photo_stays_readable<
    F: Fn(Op, Real, Real) -> Real,
    P: Fn(Real) -> String,
    J: Fn(Vec<u8>) -> Result<Params, String>,
>(f: F, plain: P, parse: J, a: AppState, now: u64, b: AppState)
    requires
        opened_outcome(f, plain, parse, a, now, b),
        a.photo_reads(),
    ensures
        b.photo_reads(),
{
}

/// The built-in sample at full size.
pub open spec fn sample_loaded<F: Fn(Op, Real, Real) -> Real>(
    f: F,
    map: DepthMap,
    bits: depth::BitDepth,
) -> bool {
    &&& map.wf()
    &&& map.width == 1536
    &&& map.height == 1152
    &&& map.bits == bits
    &&& !map.was_colour
    &&& forall|i: int, j: int|
        0 <= i < 1536 && 0 <= j < 1152 ==> #[trigger] map.sample(i, j) == sample::pixel(
            f,
            1536,
            1152,
            bits,
            i,
            j,
        )
}

/// Has the dirty flag been still long enough to rebuild?
pub fn ready_to_rebuild(state: &AppState, now: u64) -> (r: bool)
    ensures
        r == state.settled(now),
{
    match state.dirty_since {
        None => false,
        Some(since) => now >= since && now - since >= REBUILD_DEBOUNCE,
    }
}

} // verus!
