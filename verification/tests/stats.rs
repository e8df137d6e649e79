//! The numbers of the status line.

use relief_core::depth::{BitDepth, HeightField};
use relief_core::export::Format;
use relief_core::mesh::Solid;
use relief_core::number::{Double, Op, Real};
use relief_core::params::{Params, Units};
use relief_core::stats::{human_bytes, Stats};

fn arith(op: Op, a: Real, b: Real) -> Real {
    let (x, y) = (f32::from_bits(a.bits), f32::from_bits(b.bits));
    let r = match op {
        Op::Plus => x + y,
        Op::Minus => x - y,
        Op::Times => x * y,
        Op::Over => x / y,
        Op::Root => x.sqrt(),
        Op::Exp => x.exp(),
        Op::Round => x.round(),
        Op::Floor => x.floor(),
    };
    num(r)
}

fn num(x: f32) -> Real {
    Real { bits: x.to_bits() }
}

fn float(r: Real) -> f32 {
    f32::from_bits(r.bits)
}

fn total(sum: Double, t: Real) -> Double {
    let r = f64::from_bits(sum.bits) + f32::from_bits(t.bits) as f64 / 6.0;
    Double { bits: r.to_bits() }
}

fn double(d: Double) -> f64 {
    f64::from_bits(d.bits)
}

fn narrow(d: Double) -> Real {
    num(f64::from_bits(d.bits) as f32)
}

fn fixed(x: Real, places: usize) -> String {
    format!("{:.*}", places, f32::from_bits(x.bits))
}

fn field(w: usize, h: usize, bits: BitDepth, depth_mm: f32) -> HeightField {
    HeightField {
        w,
        h,
        z: (0..w * h).map(|k| num(-depth_mm * (k % w) as f32 / (w - 1) as f32)).collect(),
        bits,
    }
}

fn stats(field: &HeightField, params: &Params) -> Stats {
    let solid = Solid::new(field, params, &arith);
    Stats::new(&solid, Format::Stl, params, &arith, &total, &narrow)
}

/// The bit-depth table, recomputed here so the advice that is given cannot drift
/// from the arithmetic behind it.
#[test]
fn step_size_matches_the_published_table() {
    let cases = [
        // (relief mm, bits, expected mm/level, ok at a 0.1 mm layer?)
        (20.0, BitDepth::Eight, 0.0784, true),
        (20.0, BitDepth::Sixteen, 0.0003, true),
        (40.0, BitDepth::Eight, 0.1569, false),
        (120.0, BitDepth::Eight, 0.4706, false),
    ];
    for (relief, bits, want, ok) in cases {
        let params = Params {
            emboss_mm: num(relief),
            layer_mm: num(0.1),
            ..Params::default()
        };
        let f = field(65, 49, bits, relief);
        let stats = stats(&f, &params);
        assert!(
            (float(stats.step_mm) - want).abs() < 0.001,
            "{relief} mm {bits:?}: {} vs {want}",
            float(stats.step_mm)
        );
        assert_eq!(stats.steps_ok(), ok, "verdict for {relief} mm {bits:?}");
    }
}

#[test]
fn stl_estimate_is_fifty_bytes_a_triangle() {
    let params = Params::default();
    let f = field(33, 25, BitDepth::Sixteen, 20.0);
    let stats = stats(&f, &params);
    assert_eq!(stats.file_bytes, 84 + 50 * stats.triangles as u64);
}

/// Readouts are metric whatever the export unit is; only the file changes.
#[test]
fn readouts_are_millimetres_whatever_the_export_unit() {
    let f = field(9, 9, BitDepth::Sixteen, 20.0);
    let metric = Params { size_mm: num(254.0), ..Params::default() };
    let imperial = Params { units: Units::In, ..metric };
    let a = stats(&f, &metric);
    let b = stats(&f, &imperial);
    assert_eq!(a.bbox_line(&fixed), b.bbox_line(&fixed));
    assert!(a.bbox_line(&fixed).starts_with("254.0"), "{}", a.bbox_line(&fixed));
    assert!(a.bbox_line(&fixed).ends_with(" mm"));
    // The file line is where the unit shows up.
    assert!(a.file_line().ends_with("in millimetres"));
    assert!(b.file_line().ends_with("in inches"));
}

#[test]
fn pitch_is_the_detail_the_print_can_carry() {
    let params = Params {
        size_mm: num(100.0),
        frame_thickness_mm: num(5.0),
        ..Params::default()
    };
    let f = field(91, 91, BitDepth::Sixteen, 20.0);
    let stats = stats(&f, &params);
    // 90 mm of relief across 90 gaps.
    assert!((float(stats.pitch_mm) - 1.0).abs() < 1e-4, "{}", float(stats.pitch_mm));
    assert_eq!(stats.pitch_line(&fixed), "1.000 mm/vertex");
}

#[test]
fn bytes_read_the_way_people_write_them() {
    assert_eq!(human_bytes(512), "512 B");
    assert_eq!(human_bytes(20_500_000), "19.6 MB");
    assert_eq!(human_bytes(1_350_000_000), "1.26 GB");
}

#[test]
fn sizes_round_the_way_decimals_do() {
    for bytes in [
        0,
        1023,
        1024,
        1536,
        2560,
        1_048_575,
        1_048_576,
        1_101_005,
        1_073_741_823,
        1_073_741_824,
        u64::MAX,
        (1 << 53) + 1,
    ] {
        let b = bytes as f64;
        let want = if b < 1024.0 {
            format!("{bytes} B")
        } else if b < 1_048_576.0 {
            format!("{:.0} kB", b / 1024.0)
        } else if b < 1_073_741_824.0 {
            format!("{:.1} MB", b / 1_048_576.0)
        } else {
            format!("{:.2} GB", b / 1_073_741_824.0)
        };
        assert_eq!(human_bytes(bytes), want);
    }
}

#[test]
fn the_lines_say_what_was_measured() {
    let params = Params { layer_mm: num(0.1), ..Params::default() };
    let f = field(33, 25, BitDepth::Eight, 20.0);
    let s = stats(&f, &params);
    assert_eq!(s.relief_line(&fixed), "20.0 mm");
    assert_eq!(s.step_line(&fixed), "0.078 mm/level — finer than a 0.10 mm layer");
    assert!(!s.slicer_strain());
    assert!(!s.simplified());
    // The default tolerance is finer than 8 bits over 20 mm can express.
    assert!(s.tolerance_below_source());
    assert!(s.simplify_line(&arith, &fixed).starts_with("blocked: 0.050 mm"));
    assert!(s.simplify_line(&arith, &fixed).contains(" mm step, so every step has to be kept."));
    let off = stats(&f, &Params { tolerance_mm: num(0.0), ..params });
    assert_eq!(off.simplify_line(&arith, &fixed), "off — every grid vertex is kept");
    assert_eq!(float(off.reduction(&arith)), 0.0);
    assert!(double(s.volume_mm3) > 0.0);
    assert!((float(s.filament_g) - double(s.volume_mm3) as f32 * 1.24e-3).abs() < 1e-3);
    assert_eq!(s.levels, 256);
}
