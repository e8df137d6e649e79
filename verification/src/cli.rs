//! The command line: what its options mean, and what it reports.

use vstd::prelude::*;
use crate::check;
use crate::check::Report;
use crate::depth;
use crate::depth::{BitDepth, DepthMap};
use crate::error::Error;
use crate::export::Format;
use crate::number;
use crate::number::{Double, Op, Real};
use crate::panel;
use crate::params;
use crate::params::{Orientation, Params, Units, TRIANGLE_WARN};
use crate::progress::Fraction;
use crate::rebuild;
use crate::rebuild::Export;
use crate::stats;
use crate::stats::Stats;
use crate::text;

verus! {

// ---------------------------------------------------------------------------
// Parameters
// ---------------------------------------------------------------------------

/// Every geometry knob, as an override on top of the defaults or a settings
/// file. `None` means "leave whatever was there".
#[derive(Debug, Clone, Copy, PartialEq, Eq)]
pub struct ParamArgs {
    pub near: Option<Real>,
    pub far: Option<Real>,
    pub emboss: Option<Real>,
    /// Flip the depth map. Not given, whatever was there stays.
    pub invert: bool,
    pub px: Option<u32>,
    pub mm: Option<Real>,
    pub smooth: Option<u32>,
    pub presmooth: Option<Real>,
    pub thickness: Option<Real>,
    pub frame_near: Option<Real>,
    pub frame_back: Option<Real>,
    pub units: Option<Units>,
    pub tolerance: Option<Real>,
    pub layer: Option<Real>,
    pub orientation: Option<Orientation>,
}

/// The given value, or the one that was there.
pub open spec fn or<A>(given: Option<A>, was: A) -> A {
    match given {
        Some(v) => v,
        None => was,
    }
}

fn given<A: Copy>(value: Option<A>, was: A) -> (r: A)
    ensures
        r == or(value, was),
{
    match value {
        Some(v) => v,
        None => was,
    }
}

impl ParamArgs {
    /// `p` with everything that is given put in its place.
    pub open spec fn over(self, p: Params) -> Params {
        Params {
            near: or(self.near, p.near),
            far: or(self.far, p.far),
            emboss_mm: or(self.emboss, p.emboss_mm),
            invert: self.invert || p.invert,
            size_px: or(self.px, p.size_px),
            size_mm: or(self.mm, p.size_mm),
            filter_size: or(self.smooth, p.filter_size),
            presmooth: or(self.presmooth, p.presmooth),
            frame_thickness_mm: or(self.thickness, p.frame_thickness_mm),
            frame_near_mm: or(self.frame_near, p.frame_near_mm),
            frame_back_mm: or(self.frame_back, p.frame_back_mm),
            tolerance_mm: or(self.tolerance, p.tolerance_mm),
            layer_mm: or(self.layer, p.layer_mm),
            orientation: or(self.orientation, p.orientation),
            units: or(self.units, p.units),
        }
    }

    /// The parameters to work with, on top of a settings file or the defaults.
    pub fn resolve<P: Fn(Real) -> String>(&self, base: Params, plain: &P) -> (r: Result<
        Params,
        String,
    >)
        requires
            text::steady_plain(*plain),
        ensures
            ({
                let p = params::legal(self.over(base));
                if p.far.at_most(p.near) {
                    r matches Err(t) && (Error::EmptyDepthWindow { near: p.near, far: p.far }).told(
                        *plain,
                        t@,
                    )
                } else {
                    r matches Ok(q) && q == p
                }
            }),
            r matches Ok(q) ==> (!q.near.nan() && !q.far.nan() ==> q.usable()),
    {
        let mut p = Params {
            near: given(self.near, base.near),
            far: given(self.far, base.far),
            emboss_mm: given(self.emboss, base.emboss_mm),
            invert: self.invert || base.invert,
            size_px: given(self.px, base.size_px),
            size_mm: given(self.mm, base.size_mm),
            filter_size: given(self.smooth, base.filter_size),
            presmooth: given(self.presmooth, base.presmooth),
            frame_thickness_mm: given(self.thickness, base.frame_thickness_mm),
            frame_near_mm: given(self.frame_near, base.frame_near_mm),
            frame_back_mm: given(self.frame_back, base.frame_back_mm),
            tolerance_mm: given(self.tolerance, base.tolerance_mm),
            layer_mm: given(self.layer, base.layer_mm),
            orientation: given(self.orientation, base.orientation),
            units: given(self.units, base.units),
        };
        p.clamp();
        match p.validate() {
            Err(e) => Err(e.message(plain)),
            Ok(()) => Ok(p),
        }
    }
}

/// Options that are not given leave the settings as they are.
pub proof fn law_nothing_given_changes_nothing(a: ParamArgs, p: Params)
    requires
        a == (ParamArgs {
            near: None,
            far: None,
            emboss: None,
            invert: false,
            px: None,
            mm: None,
            smooth: None,
            presmooth: None,
            thickness: None,
            frame_near: None,
            frame_back: None,
            units: None,
            tolerance: None,
            layer: None,
            orientation: None,
        }),
    ensures
        a.over(p) == p,
{
}

// ---------------------------------------------------------------------------
// Reports
// ---------------------------------------------------------------------------

/// The lines of a report, top to bottom.
pub open spec fn report_text<
    F: Fn(Op, Real, Real) -> Real,
    T: Fn(Real, usize) -> String,
    V: Fn(Double) -> String,
>(f: F, fixed: T, cubic: V, s: Stats) -> Seq<Seq<char>> {
    seq![
        "  grid       "@ + text::decimal(s.grid.0 as nat) + "×"@ + text::decimal(s.grid.1 as nat)
            + " at "@ + (text::shown(fixed, s.pitch_mm, 3) + " mm/vertex"@),
        "  mesh       "@ + text::decimal(s.triangles as nat) + " triangles, "@ + text::decimal(
            s.vertices as nat,
        ) + " vertices"@ + (if s.triangles > TRIANGLE_WARN {
            "  ** more than most slicers handle comfortably **"@
        } else {
            ""@
        }),
        "  simplify   "@ + s.simplify_text(f, fixed),
        "  size       "@ + s.bbox_text(fixed) + (if s.framed {
            ""@
        } else {
            "  (no frame)"@
        }),
        "  relief     "@ + (text::shown(fixed, s.relief_mm, 1) + " mm"@),
        "  levels     "@ + text::decimal(s.levels as nat) + " ("@ + s.bits.name() + ")"@,
        "  step       "@ + s.step_text(fixed) + (if s.step_mm.at_most(s.layer_mm) {
            ""@
        } else {
            "  **"@
        }),
        "  volume     "@ + panel::volume(cubic, s.volume_mm3) + " cm³ ≈ "@ + text::shown(
            fixed,
            s.filament_g,
            0,
        ) + " g PLA"@,
        "  file       "@ + s.file_text(),
    ]
}

/// The lines say what they should.
pub open spec fn written(v: Seq<String>, want: Seq<Seq<char>>) -> bool {
    v.len() == want.len() && forall|i: int| 0 <= i < v.len() ==> (#[trigger] v[i])@ == want[i]
}

/// What a conversion produces, line by line. `cubic` writes a volume in cubic
/// centimetres.
pub fn report<
    F: Fn(Op, Real, Real) -> Real,
    T: Fn(Real, usize) -> String,
    V: Fn(Double) -> String,
>(s: &Stats, arith: &F, fixed: &T, cubic: &V) -> (r: Vec<String>)
    requires
        number::steady(*arith),
        text::steady_text(*fixed),
        panel::steady_volume(*cubic),
    ensures
        written(r@, report_text(*arith, *fixed, *cubic, *s)),
{
    let mut grid = "  grid       ".to_owned();
    grid.append(text::number_text(s.grid.0 as u64).as_str());
    grid.append("×");
    grid.append(text::number_text(s.grid.1 as u64).as_str());
    grid.append(" at ");
    grid.append(s.pitch_line(fixed).as_str());
    let mut mesh = "  mesh       ".to_owned();
    mesh.append(text::number_text(s.triangles as u64).as_str());
    mesh.append(" triangles, ");
    mesh.append(text::number_text(s.vertices as u64).as_str());
    mesh.append(" vertices");
    mesh.append(
        if s.slicer_strain() {
            "  ** more than most slicers handle comfortably **"
        } else {
            ""
        },
    );
    let mut simplify = "  simplify   ".to_owned();
    simplify.append(s.simplify_line(arith, fixed).as_str());
    let mut size = "  size       ".to_owned();
    size.append(s.bbox_line(fixed).as_str());
    size.append(
        if s.framed {
            ""
        } else {
            "  (no frame)"
        },
    );
    let mut relief = "  relief     ".to_owned();
    relief.append(s.relief_line(fixed).as_str());
    let mut levels = "  levels     ".to_owned();
    levels.append(text::number_text(s.levels as u64).as_str());
    levels.append(" (");
    levels.append(s.bits.label());
    levels.append(")");
    let mut step = "  step       ".to_owned();
    step.append(s.step_line(fixed).as_str());
    step.append(
        if s.steps_ok() {
            ""
        } else {
            "  **"
        },
    );
    let mut volume = "  volume     ".to_owned();
    volume.append(cubic(s.volume_mm3).as_str());
    volume.append(" cm³ ≈ ");
    text::append_fixed(&mut volume, s.filament_g, 0, fixed);
    volume.append(" g PLA");
    let mut file = "  file       ".to_owned();
    file.append(s.file_line().as_str());
    vec![grid, mesh, simplify, size, relief, levels, step, volume, file]
}

/// What a depth map is, in a line.
pub fn info_line(path: &str, map: &DepthMap) -> (r: String)
    ensures
        r@ == path@ + ": "@ + text::size(map.width, map.height) + " "@ + map.bits.name() + (
        if map.was_colour {
            " (colour, converted to luma — a depth map should be grayscale)"@
        } else {
            ""@
        }),
{
    let mut r = path.to_owned();
    r.append(": ");
    text::append_size(&mut r, map.width, map.height);
    r.append(" ");
    r.append(map.bits.label());
    r.append(
        if map.was_colour {
            " (colour, converted to luma — a depth map should be grayscale)"
        } else {
            ""
        },
    );
    r
}

/// The warning that a photo is left out, where the format cannot carry it.
pub fn photo_warning(format: Format) -> (r: Option<String>)
    ensures
        r is Some <==> format == Format::Stl,
        r matches Some(t) ==> t@ == "relief: warning: "@ + format.name()
            + " cannot store colour, so --photo is ignored (use --format ply)"@,
{
    if format.carries_colour() {
        return None;
    }
    let mut r = "relief: warning: ".to_owned();
    r.append(format.label());
    r.append(" cannot store colour, so --photo is ignored (use --format ply)");
    Some(r)
}

/// The photo cannot be read, or has another shape than the depth map.
pub open spec fn refused<F: Fn(Op, Real, Real) -> Real>(
    arith: F,
    map: DepthMap,
    bytes: Seq<u8>,
) -> bool {
    match depth::decoded(bytes) {
        None => true,
        Some((w, h, _, _)) => depth::misfit(arith, map, w, h),
    }
}

/// Why a photo is refused.
pub open spec fn refusal<F: Fn(Op, Real, Real) -> Real, P: Fn(Real) -> String>(
    arith: F,
    plain: P,
    map: DepthMap,
    path: Seq<char>,
    bytes: Seq<u8>,
    t: Seq<char>,
) -> bool {
    match depth::decoded(bytes) {
        None => exists|why: Seq<char>| t == #[trigger] (path + ": "@ + why),
        Some((w, h, _, _)) => (Error::AspectMismatch {
            photo_w: w,
            photo_h: h,
            depth_w: map.width,
            depth_h: map.height,
        }).told(plain, t),
    }
}

/// Whether a photo can be read and fits the depth map.
pub fn check_photo<F: Fn(Op, Real, Real) -> Real, P: Fn(Real) -> String>(
    map: &DepthMap,
    path: &str,
    bytes: &Vec<u8>,
    arith: &F,
    plain: &P,
) -> (r: Result<(), String>)
    requires
        number::steady(*arith),
        text::steady_plain(*plain),
    ensures
        r is Err <==> refused(*arith, *map, bytes@),
        r matches Err(t) ==> refusal(*arith, *plain, *map, path@, bytes@, t@),
{
    match depth::open_picture(bytes.as_slice()) {
        Err(e) => {
            let why = e.reason(plain);
            let mut r = path.to_owned();
            r.append(": ");
            r.append(why.as_str());
            assert(r@ == path@ + ": "@ + why@);
            Err(r)
        },
        Ok(picture) => match depth::check_aspect(map, picture.width, picture.height, arith) {
            Err(e) => Err(e.message(plain)),
            Ok(()) => Ok(()),
        },
    }
}

/// The photo that a conversion makes use of.
pub open spec fn kept(format: Format, photo: Option<Seq<u8>>) -> Option<Seq<u8>> {
    if format == Format::Stl {
        None
    } else {
        photo
    }
}

/// A photo as the command line has it: where it came from, and its bytes.
pub struct PhotoFile {
    pub path: String,
    pub bytes: Vec<u8>,
}

/// The bytes of a photo, if there is one.
pub open spec fn file_bytes(photo: Option<PhotoFile>) -> Option<Seq<u8>> {
    match photo {
        None => None,
        Some(f) => Some(f.bytes@),
    }
}

/// What a conversion comes to before it is written.
pub open spec fn planned<
    F: Fn(Op, Real, Real) -> Real,
    D: Fn(Double, Real) -> Double,
    N: Fn(Double) -> Real,
    P: Fn(Real) -> String,
>(
    arith: F,
    total: D,
    narrow: N,
    plain: P,
    path: Seq<char>,
    map: DepthMap,
    photo: Option<PhotoFile>,
    p: Params,
    format: Format,
    r: Result<Export, String>,
) -> bool {
    let used = kept(format, file_bytes(photo));
    let bad = used matches Some(bytes) && refused(arith, map, bytes);
    &&& r is Err <==> p.far.at_most(p.near) || bad
    &&& r matches Err(t) ==> if p.far.at_most(p.near) {
        exists|why: Seq<char>|
            t@ == #[trigger] (path + ": "@ + why) && (Error::EmptyDepthWindow {
                near: p.near,
                far: p.far,
            }).told(plain, why)
    } else {
        photo matches Some(f) && refusal(arith, plain, map, f.path@, f.bytes@, t@)
    }
    &&& r matches Ok(x) ==> x.made_of(arith, total, narrow, map, used, p, format)
}

/// Everything of a conversion but the file itself: an empty depth window is
/// refused, a photo that the format can carry is checked, any other is left out,
/// and the rest is worked out.
pub fn plan<
    F: Fn(Op, Real, Real) -> Real,
    D: Fn(Double, Real) -> Double,
    N: Fn(Double) -> Real,
    P: Fn(Real) -> String,
>(
    path: &str,
    map: &DepthMap,
    photo: &Option<PhotoFile>,
    p: &Params,
    format: Format,
    arith: &F,
    total: &D,
    narrow: &N,
    plain: &P,
) -> (r: Result<Export, String>)
    requires
        number::steady(*arith),
        check::steady_sum(*total),
        stats::steady_narrowing(*narrow),
        text::steady_plain(*plain),
        map.wf(),
        p.usable(),
    ensures
        planned(*arith, *total, *narrow, *plain, path@, *map, *photo, *p, format, r),
{
    if let Err(e) = p.validate() {
        return Err(in_file(path, e, plain));
    }
    let used: Option<&PhotoFile> = if format.carries_colour() {
        photo.as_ref()
    } else {
        None
    };
    if let Some(f) = used {
        if let Err(t) = check_photo(map, f.path.as_str(), &f.bytes, arith, plain) {
            return Err(t);
        }
    }
    let bytes: Option<&Vec<u8>> = match used {
        None => None,
        Some(f) => Some(&f.bytes),
    };
    match rebuild::prepare(map, bytes, p, format, arith, total, narrow) {
        Ok(x) => Ok(x),
        Err(e) => Err(in_file(path, e, plain)),
    }
}

/// An error, with the file that it is about.
fn in_file<P: Fn(Real) -> String>(path: &str, e: Error, plain: &P) -> (r: String)
    requires
        text::steady_plain(*plain),
    ensures
        exists|why: Seq<char>| r@ == #[trigger] (path@ + ": "@ + why) && e.told(*plain, why),
{
    let why = e.message(plain);
    let mut r = path.to_owned();
    r.append(": ");
    r.append(why.as_str());
    assert(r@ == path@ + ": "@ + why@);
    r
}

/// A photo makes no difference to a format that cannot carry it: what comes of
/// the conversion is what comes of it without the photo, so no photo can make it
/// fail.
pub proof fn law_stl_ignores_the_photo<
    F: Fn(Op, Real, Real) -> Real,
    D: Fn(Double, Real) -> Double,
    N: Fn(Double) -> Real,
    P: Fn(Real) -> String,
>(
    arith: F,
    total: D,
    narrow: N,
    plain: P,
    path: Seq<char>,
    map: DepthMap,
    photo: Option<PhotoFile>,
    p: Params,
    r: Result<Export, String>,
)
    ensures
        planned(arith, total, narrow, plain, path, map, photo, p, Format::Stl, r) == planned(
            arith,
            total,
            narrow,
            plain,
            path,
            map,
            None,
            p,
            Format::Stl,
            r,
        ),
        planned(arith, total, narrow, plain, path, map, photo, p, Format::Stl, r) ==> (
        r matches Ok(x) ==> x.albedo is None),
{
}

/// The bit depth that an option names.
pub fn sample_bits(bits: u8) -> (r: Result<BitDepth, String>)
    ensures
        match bits {
            8 => r matches Ok(b) && b == BitDepth::Eight,
            16 => r matches Ok(b) && b == BitDepth::Sixteen,
            _ => r matches Err(t) && t@ == "--bits must be 8 or 16, not "@ + text::decimal(
                bits as nat,
            ),
        },
{
    if bits == 8 {
        Ok(BitDepth::Eight)
    } else if bits == 16 {
        Ok(BitDepth::Sixteen)
    } else {
        let mut r = "--bits must be 8 or 16, not ".to_owned();
        r.append(text::number_text(bits as u64).as_str());
        Err(r)
    }
}

/// What is said of a sample that has been written.
pub fn sample_line(path: &str, width: u32, height: u32, bits: BitDepth, bytes: u64) -> (r: String)
    ensures
        r@ == "wrote "@ + path@ + " — "@ + text::size(width, height) + " "@ + bits.name() + " ("@
            + text::size_text(bytes as nat) + ")"@,
{
    let mut r = "wrote ".to_owned();
    r.append(path);
    r.append(" — ");
    text::append_size(&mut r, width, height);
    r.append(" ");
    r.append(bits.label());
    r.append(" (");
    r.append(text::human_bytes(bytes).as_str());
    r.append(")");
    r
}

// ---------------------------------------------------------------------------
// Progress and verdict
// ---------------------------------------------------------------------------

/// The last percent after some more.
pub open spec fn latest(last: Option<u8>, more: Seq<u8>) -> Option<u8> {
    if more.len() == 0 {
        last
    } else {
        Some(more.last())
    }
}

/// The percents that are worth a line: each one larger than all before.
pub open spec fn rising(last: Option<u8>, marks: Seq<Fraction>, n: nat) -> Seq<u8>
    decreases n,
{
    if n == 0 {
        Seq::empty()
    } else {
        let before = rising(last, marks, (n - 1) as nat);
        let p = marks[n - 1].percent();
        if latest(last, before) matches Some(q) ==> p > q {
            before.push(p as u8)
        } else {
            before
        }
    }
}

/// The percents that are worth a line, after the last one that had one.
pub fn percents(last: Option<u8>, marks: &Vec<Fraction>) -> (r: Vec<u8>)
    requires
        forall|i: int| 0 <= i < marks@.len() ==> (#[trigger] marks@[i]).proper(),
    ensures
        r@ == rising(last, marks@, marks@.len()),
{
    let mut r: Vec<u8> = Vec::new();
    let mut top: Option<u8> = last;
    let mut n: usize = 0;
    assert(r@ =~= rising(last, marks@, 0));
    while n < marks.len()
        invariant
            forall|i: int| 0 <= i < marks@.len() ==> (#[trigger] marks@[i]).proper(),
            n <= marks@.len(),
            r@ == rising(last, marks@, n as nat),
            top == latest(last, r@),
        decreases marks@.len() - n,
    {
        assert(marks@[n as int].proper());
        let p: u8 = marks[n].whole_percent();
        let worth: bool = match top {
            None => true,
            Some(q) => p > q,
        };
        if worth {
            r.push(p);
            top = Some(p);
        }
        n = n + 1;
    }
    r
}

/// Reports that come in chunks give the lines that they give all at once.
pub proof fn law_percents_in_chunks(last: Option<u8>, a: Seq<Fraction>, b: Seq<Fraction>, n: nat)
    requires
        n <= b.len(),
    ensures
        rising(last, a + b, a.len() + n) == rising(last, a, a.len()) + rising(
            latest(last, rising(last, a, a.len())),
            b,
            n,
        ),
    decreases n,
{
    let x = rising(last, a, a.len());
    if n == 0 {
        lemma_rising_prefix(last, a, b, a.len());
        assert(x + rising(latest(last, x), b, 0) =~= x);
    } else {
        law_percents_in_chunks(last, a, b, (n - 1) as nat);
        let y = rising(latest(last, x), b, (n - 1) as nat);
        assert((a + b)[a.len() + n - 1] == b[n - 1]);
        assert((a.len() + n - 1) as nat == a.len() + (n - 1) as nat);
        assert(latest(last, x + y) == latest(latest(last, x), y));
        assert(rising(last, a + b, a.len() + n) =~= x + rising(latest(last, x), b, n));
    }
}

proof fn lemma_rising_prefix(last: Option<u8>, a: Seq<Fraction>, b: Seq<Fraction>, n: nat)
    requires
        n <= a.len(),
    ensures
        rising(last, a + b, n) == rising(last, a, n),
    decreases n,
{
    if n > 0 {
        lemma_rising_prefix(last, a, b, (n - 1) as nat);
    }
}

/// A count that may not have been taken.
pub open spec fn counted(n: Option<usize>) -> nat {
    match n {
        Some(n) => n as nat,
        None => 0,
    }
}

/// A number with its sign.
pub open spec fn signed(n: i64) -> Seq<char> {
    if n < 0 {
        "-"@ + text::decimal((-n) as nat)
    } else {
        text::decimal(n as nat)
    }
}

fn append_signed(s: &mut String, n: i64)
    ensures
        final(s)@ == old(s)@ + signed(n),
{
    let ghost was = s@;
    if n < 0 {
        let wide: i128 = -(n as i128);
        s.append("-");
        s.append(text::number_text(wide as u64).as_str());
    } else {
        s.append(text::number_text(n as u64).as_str());
    }
    assert(s@ =~= was + signed(n));
}

/// What the checked mesh is worth.
pub open spec fn verdict_text(r: Report) -> Seq<char> {
    if r.verdict() == Some(true) {
        "watertight: closed, genus 0, outward-wound"@
    } else {
        "NOT watertight: "@ + text::decimal(counted(r.boundary_edges)) + " open edge(s), "@
            + text::decimal(counted(r.non_manifold_edges)) + " non-manifold edge(s), euler "@ + (
        match r.euler {
            Some(e) => "Some("@ + signed(e) + ")"@,
            None => "None"@,
        })
    }
}

/// Whether the checked mesh can be printed, in words.
pub fn verdict(report: &Report) -> (r: (String, bool))
    ensures
        r.0@ == verdict_text(*report),
        r.1 == (report.verdict() == Some(true)),
{
    let open: usize = match report.boundary_edges {
        Some(n) => n,
        None => 0,
    };
    let doubled: usize = match report.non_manifold_edges {
        Some(n) => n,
        None => 0,
    };
    match report.watertight() {
        Some(true) => ("watertight: closed, genus 0, outward-wound".to_owned(), true),
        _ => {
            let mut t = "NOT watertight: ".to_owned();
            t.append(text::number_text(open as u64).as_str());
            t.append(" open edge(s), ");
            t.append(text::number_text(doubled as u64).as_str());
            t.append(" non-manifold edge(s), euler ");
            let mut e: String;
            match report.euler {
                Some(n) => {
                    e = "Some(".to_owned();
                    append_signed(&mut e, n);
                    e.append(")");
                },
                None => {
                    e = "None".to_owned();
                },
            }
            t.append(e.as_str());
            (t, false)
        },
    }
}

} // verus!
