//! The command line.

use relief_core::check::inspect;
use relief_core::cli::{self, ParamArgs, PhotoFile};
use relief_core::depth::BitDepth;
use relief_core::export::{self, Format};
use relief_core::number::{Double, Op, Real};
use relief_core::params::{Orientation, Params, Units};
use relief_core::progress::Fraction;
use relief_core::rebuild;
use relief_core::sample;

fn arith(op: Op, a: Real, b: Real) -> Real {
    let (x, y) = (f32::from_bits(a.bits), f32::from_bits(b.bits));
    let r = match op {
        Op::Plus => x + y,
        Op::Minus => x - y,
        Op::Times => x * y,
        Op::Over => x / y,
        Op::Root => x.sqrt(),
        Op::Exp => x.exp(),
        Op::Round => x.round(),
        Op::Floor => x.floor(),
    };
    num(r)
}

fn num(x: f32) -> Real {
    Real { bits: x.to_bits() }
}

fn float(r: Real) -> f32 {
    f32::from_bits(r.bits)
}

fn total(sum: Double, t: Real) -> Double {
    let r = f64::from_bits(sum.bits) + f32::from_bits(t.bits) as f64 / 6.0;
    Double { bits: r.to_bits() }
}

fn narrow(d: Double) -> Real {
    num(f64::from_bits(d.bits) as f32)
}

fn fixed(x: Real, places: usize) -> String {
    format!("{:.*}", places, f32::from_bits(x.bits))
}

fn plain(x: Real) -> String {
    format!("{}", f32::from_bits(x.bits))
}

fn cubic(d: Double) -> String {
    format!("{:.1}", f64::from_bits(d.bits) / 1000.0)
}

fn nothing() -> ParamArgs {
    ParamArgs {
        near: None,
        far: None,
        emboss: None,
        invert: false,
        px: None,
        mm: None,
        smooth: None,
        presmooth: None,
        thickness: None,
        frame_near: None,
        frame_back: None,
        units: None,
        tolerance: None,
        layer: None,
        orientation: None,
    }
}

#[test]
fn options_lie_on_top_of_settings() {
    let base = Params { invert: true, size_px: 777, ..Params::default() };
    assert_eq!(nothing().resolve(base, &plain).unwrap(), base);
    let args = ParamArgs {
        near: Some(num(0.1)),
        emboss: Some(num(500.0)),
        px: Some(300),
        smooth: Some(2),
        units: Some(Units::In),
        orientation: Some(Orientation::Upright),
        tolerance: Some(num(0.25)),
        ..nothing()
    };
    let p = args.resolve(base, &plain).unwrap();
    assert_eq!(float(p.near), 0.1);
    assert_eq!(float(p.emboss_mm), 100.0);
    assert!(p.invert);
    assert_eq!(p.size_px, 300);
    assert_eq!(p.filter_size, 3);
    assert_eq!(p.units, Units::In);
    assert_eq!(p.orientation, Orientation::Upright);
    assert_eq!(float(p.tolerance_mm), 0.25);
    let bad = ParamArgs { far: Some(num(0.0)), ..nothing() };
    assert_eq!(
        bad.resolve(base, &plain).unwrap_err(),
        "the near plane (0) must be below the far plane (0) — nothing is left between them"
    );
}

#[test]
fn a_report_has_nine_lines() {
    let map = sample::depth_map(64, 48, &arith);
    let p = Params { size_px: 256, ..Params::default() };
    let x = rebuild::prepare(&map, None, &p, Format::Stl, &arith, &total, &narrow).unwrap();
    let lines = cli::report(&x.stats, &arith, &fixed, &cubic);
    assert_eq!(lines.len(), 9);
    assert_eq!(lines[0], format!("  grid       256×192 at {}", x.stats.pitch_line(&fixed)));
    assert_eq!(
        lines[1],
        format!("  mesh       {} triangles, {} vertices", x.stats.triangles, x.stats.vertices)
    );
    assert!(lines[3].starts_with("  size       100.0 × "));
    assert_eq!(lines[5], "  levels     65536 (16-bit)");
    assert!(lines[7].contains(" cm³ ≈ ") && lines[7].ends_with(" g PLA"));
    assert_eq!(lines[8], format!("  file       {}", x.stats.file_line()));
    assert_eq!(cli::info_line("a.png", &map), "a.png: 64×48 16-bit");
}

#[test]
fn a_written_mesh_is_judged() {
    let map = sample::depth_map(32, 24, &arith);
    let p = Params { size_px: 256, ..Params::default() };
    let x = rebuild::prepare(&map, None, &p, Format::Ply, &arith, &total, &narrow).unwrap();
    let report = inspect(&x.solid(&arith), &arith, &total);
    assert_eq!(
        cli::verdict(&report),
        ("watertight: closed, genus 0, outward-wound".to_string(), true)
    );
    let mut broken = report.clone();
    broken.boundary_edges = Some(3);
    broken.euler = Some(-1);
    assert_eq!(
        cli::verdict(&broken),
        (
            "NOT watertight: 3 open edge(s), 0 non-manifold edge(s), euler Some(-1)".to_string(),
            false
        )
    );
    broken.euler = None;
    assert!(cli::verdict(&broken).0.ends_with("euler None"));
}

#[test]
fn percents_only_rise() {
    let marks: Vec<Fraction> = [(0, 8), (1, 8), (1, 9), (2, 8), (8, 8)]
        .iter()
        .map(|&(done, total)| Fraction { done, total })
        .collect();
    assert_eq!(cli::percents(None, &marks), vec![0, 12, 25, 100]);
    assert_eq!(cli::percents(Some(12), &marks), vec![25, 100]);
    let (early, late) = (marks[..2].to_vec(), marks[2..].to_vec());
    assert_eq!(cli::percents(None, &early), vec![0, 12]);
    assert_eq!(cli::percents(Some(12), &late), vec![25, 100]);
    let map = sample::depth_map(16, 12, &arith);
    let p = Params { size_px: 256, ..Params::default() };
    let x = rebuild::prepare(&map, None, &p, Format::Obj, &arith, &total, &narrow).unwrap();
    let (mut out, mut all) = (Vec::new(), Vec::new());
    export::write(Format::Obj, &x.solid(&arith), &mut out, &mut all, &arith, &fixed);
    let rising = cli::percents(None, &all);
    assert!(rising.windows(2).all(|w| w[0] < w[1]));
    assert_eq!(rising.last(), Some(&100));
}

#[test]
fn a_photo_is_checked_before_it_is_used() {
    let map = sample::depth_map(64, 48, &arith);
    let bytes = sample::to_png(&sample::depth_map(32, 24, &arith), &arith).unwrap();
    assert_eq!(cli::check_photo(&map, "p.png", &bytes, &arith, &plain), Ok(()));
    let square = sample::to_png(&sample::depth_map(24, 24, &arith), &arith).unwrap();
    assert_eq!(
        cli::check_photo(&map, "q.png", &square, &arith, &plain).unwrap_err(),
        "the photo is 24×24 but the depth map is 64×48; their shapes differ too much to line up"
    );
    let junk = cli::check_photo(&map, "r.png", &b"junk".to_vec(), &arith, &plain).unwrap_err();
    assert!(junk.starts_with("r.png: "));
    assert_eq!(
        cli::photo_warning(Format::Stl).unwrap(),
        "relief: warning: STL cannot store colour, so --photo is ignored (use --format ply)"
    );
    assert_eq!(cli::photo_warning(Format::Ply), None);
}

#[test]
fn samples_come_in_two_depths() {
    assert_eq!(cli::sample_bits(8), Ok(BitDepth::Eight));
    assert_eq!(cli::sample_bits(16), Ok(BitDepth::Sixteen));
    assert_eq!(cli::sample_bits(12), Err("--bits must be 8 or 16, not 12".to_string()));
    assert_eq!(
        cli::sample_line("o.png", 4, 3, BitDepth::Eight, 2048),
        "wrote o.png — 4×3 8-bit (2 kB)"
    );
}

#[test]
fn an_stl_takes_no_notice_of_a_photo() {
    let map = sample::depth_map(16, 12, &arith);
    let p = Params { size_px: 256, ..Params::default() };
    let junk = Some(PhotoFile { path: "j.png".to_string(), bytes: b"junk".to_vec() });
    let plan = |photo: &Option<PhotoFile>, p: &Params, format| {
        cli::plan("d.png", &map, photo, p, format, &arith, &total, &narrow, &plain)
    };
    let with = plan(&junk, &p, Format::Stl).expect("the photo is left out");
    let without = plan(&None, &p, Format::Stl).expect("there is none");
    let bytes = |x: &rebuild::Export| {
        export::to_vec(Format::Stl, &x.solid(&arith), &arith, &fixed)
    };
    assert!(bytes(&with) == bytes(&without));
    assert!(with.albedo.is_none());
    assert!(plan(&junk, &p, Format::Ply).err().unwrap().starts_with("j.png: "));
    let empty = Params { near: num(0.5), far: num(0.5), ..p };
    assert!(plan(&None, &empty, Format::Ply).err().unwrap().starts_with("d.png: the near plane"));
    // The window is looked at before the photo.
    assert!(plan(&junk, &empty, Format::Ply).err().unwrap().starts_with("d.png: the near plane"));
}
