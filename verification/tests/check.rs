//! Watertightness and volume.

use relief_core::check::{inspect, summary};
use relief_core::decimate::Decimation;
use relief_core::depth::{BitDepth, HeightField};
use relief_core::mesh::Solid;
use relief_core::number::{Double, Op, Real};
use relief_core::params::{Orientation, Params};

fn arith(op: Op, a: Real, b: Real) -> Real {
    let (x, y) = (f32::from_bits(a.bits), f32::from_bits(b.bits));
    let r = match op {
        Op::Plus => x + y,
        Op::Minus => x - y,
        Op::Times => x * y,
        Op::Over => x / y,
        Op::Root => x.sqrt(),
        Op::Exp => x.exp(),
        Op::Round => x.round(),
        Op::Floor => x.floor(),
    };
    num(r)
}

fn num(x: f32) -> Real {
    Real { bits: x.to_bits() }
}

fn float(r: Real) -> f32 {
    f32::from_bits(r.bits)
}

fn total(sum: Double, t: Real) -> Double {
    let r = f64::from_bits(sum.bits) + f32::from_bits(t.bits) as f64 / 6.0;
    Double { bits: r.to_bits() }
}

fn double(d: Double) -> f64 {
    f64::from_bits(d.bits)
}

fn bumpy(w: usize, h: usize) -> HeightField {
    let mut z = vec![num(0.0); w * h];
    for j in 0..h {
        for i in 0..w {
            let u = i as f32 / (w - 1) as f32;
            let v = j as f32 / (h - 1) as f32;
            z[j * w + i] = num(-30.0 * (0.5 + 0.5 * ((u * 9.0).sin() * (v * 7.0).cos())));
        }
    }
    HeightField { w, h, z, bits: BitDepth::Sixteen }
}

/// The load-bearing test of the whole crate: whatever the grid, whatever the
/// frame, the result is a closed, outward-wound, genus-0 solid.
#[test]
fn every_grid_produces_a_watertight_solid() {
    let shapes = [(2, 2), (3, 3), (9, 5), (5, 9), (16, 16), (33, 17), (7, 64)];
    // Millimetres: bezel width, bezel face height, back plate.
    let frames = [
        (5.0, 1.0, 1.0),
        (0.0, 1.0, 1.0),    // no frame at all — a different vertex layout
        (0.0, 8.0, 3.0),    // no frame, and a bezel offset that must be ignored
        (20.0, -25.0, 5.0), // frame face sunk into the relief
        (5.0, 50.0, 1.0),   // frame face standing well proud
    ];
    for (w, h) in shapes {
        for (thickness, near, back) in frames {
            let params = Params {
                emboss_mm: num(30.0),
                frame_thickness_mm: num(thickness),
                frame_near_mm: num(near),
                frame_back_mm: num(back),
                ..Params::default()
            };
            let field = bumpy(w, h);
            let solid = Solid::new(&field, &params, &arith);
            let report = inspect(&solid, &arith, &total);
            assert_eq!(
                report.boundary_edges,
                Some(0),
                "{w}×{h} frame {thickness}/{near}/{back}: open edges"
            );
            assert_eq!(
                report.non_manifold_edges,
                Some(0),
                "{w}×{h} frame {thickness}/{near}/{back}: inconsistent winding"
            );
            assert_eq!(
                report.euler,
                Some(2),
                "{w}×{h} frame {thickness}/{near}/{back}: not genus 0"
            );
            assert!(
                double(report.volume_mm3) > 0.0,
                "{w}×{h} frame {thickness}/{near}/{back}: volume {} — inside out",
                double(report.volume_mm3)
            );
            assert_eq!(report.watertight(), Some(true));
        }
    }
}

#[test]
fn edge_count_matches_three_halves_of_the_faces() {
    // True only for a closed triangle mesh, so this is a second, independent
    // way of saying the same thing the Euler test says.
    let field = bumpy(11, 7);
    let solid = Solid::new(&field, &Params::default(), &arith);
    let report = inspect(&solid, &arith, &total);
    assert_eq!(report.edges, Some(report.triangles * 3 / 2));
}

#[test]
fn volume_is_bounded_by_the_box_that_holds_it() {
    let field = bumpy(17, 13);
    let solid = Solid::new(&field, &Params::default(), &arith);
    let report = inspect(&solid, &arith, &total);
    let e = solid.layout.extents_mm(&arith);
    let box_volume = (float(e.x) * float(e.y) * float(e.z)) as f64;
    let volume = double(report.volume_mm3);
    assert!(volume > 0.0);
    assert!(volume < box_volume, "{volume} exceeds its bounding box {box_volume}");
    // The plate alone is a floor: back plate plus the deepest relief.
    assert!(volume > 0.1 * box_volume);
}

#[test]
fn print_orientation_does_not_change_the_volume() {
    let field = bumpy(13, 9);
    let a = Solid::new(
        &field,
        &Params { orientation: Orientation::FaceUp, ..Params::default() },
        &arith,
    );
    let b = Solid::new(
        &field,
        &Params { orientation: Orientation::Upright, ..Params::default() },
        &arith,
    );
    let va = double(summary(&a, &arith, &total).volume_mm3);
    let vb = double(summary(&b, &arith, &total).volume_mm3);
    assert!((va - vb).abs() / va < 1e-6, "{va} vs {vb}");
}

/// A relief with flat regions, sharp steps and fine texture — the three
/// things a simplifier treats differently.
fn mixed(w: usize, h: usize) -> HeightField {
    let mut z = vec![num(0.0); w * h];
    for j in 0..h {
        for i in 0..w {
            let u = i as f32 / (w - 1) as f32;
            let v = j as f32 / (h - 1) as f32;
            z[j * w + i] = num(if u < 0.3 {
                -1.0 // flat plateau
            } else if u < 0.35 {
                -14.0 // a cliff
            } else {
                -8.0 - 4.0 * ((u * 21.0).sin() * (v * 17.0).cos())
            });
        }
    }
    HeightField { w, h, z, bits: BitDepth::Sixteen }
}

/// The whole point: simplification must not cost watertightness. If the
/// balance rule or the edge stitching were wrong, this is where the holes
/// would show up.
#[test]
fn a_simplified_relief_is_still_a_closed_solid() {
    for (w, h) in [(65, 65), (129, 97), (100, 71), (33, 33)] {
        for tolerance in [0.01, 0.05, 0.2, 1.0, 5.0] {
            for frame in [5.0, 0.0] {
                let params = Params {
                    emboss_mm: num(20.0),
                    frame_thickness_mm: num(frame),
                    ..Params::default()
                };
                let field = mixed(w, h);
                let decimation = Decimation::build(&field, num(tolerance), &arith).expect("on");
                let solid =
                    Solid::new(&field, &params, &arith).with_decimation(Some(&decimation));

                let report = inspect(&solid, &arith, &total);
                let what = format!("{w}×{h} tol {tolerance} frame {frame}");
                assert_eq!(report.boundary_edges, Some(0), "{what}: open edges");
                assert_eq!(report.non_manifold_edges, Some(0), "{what}: inconsistent winding");
                assert_eq!(report.euler, Some(2), "{what}: not genus 0");
                assert!(double(report.volume_mm3) > 0.0, "{what}: inside out");
            }
        }
    }
}

/// Simplification changes the mesh, not the object: the volume it encloses
/// has to stay put, within the tolerance it was given.
#[test]
fn the_volume_survives_simplification() {
    let field = mixed(129, 129);
    let params = Params { emboss_mm: num(20.0), size_mm: num(100.0), ..Params::default() };
    let full = double(summary(&Solid::new(&field, &params, &arith), &arith, &total).volume_mm3);

    for tolerance in [0.05, 0.2, 1.0] {
        let decimation = Decimation::build(&field, num(tolerance), &arith).expect("on");
        let solid = Solid::new(&field, &params, &arith).with_decimation(Some(&decimation));
        let simplified = double(summary(&solid, &arith, &total).volume_mm3);
        // A tolerance of t mm over a 90 mm square can move at most
        // t * area of material; well inside 1% for anything sensible.
        let drift = (simplified - full).abs() / full;
        assert!(
            drift < 0.01,
            "tolerance {tolerance} moved the volume by {:.2}%",
            drift * 100.0
        );
        assert!(solid.triangle_count() < 2 * 128 * 128);
    }
}

#[test]
fn a_summary_leaves_the_edges_alone() {
    let field = bumpy(9, 7);
    let solid = Solid::new(&field, &Params::default(), &arith);
    let report = summary(&solid, &arith, &total);
    assert_eq!(report.edges, None);
    assert_eq!(report.watertight(), None);
    assert_eq!(report.vertices, solid.vertex_count());
    assert_eq!(report.triangles, solid.triangle_count());
    let full = inspect(&solid, &arith, &total);
    assert_eq!(full.volume_mm3, report.volume_mm3);
    assert_eq!(full.min_mm, report.min_mm);
    assert!((float(report.max_mm.x) - float(report.min_mm.x) - 100.0).abs() < 1e-3);
}
