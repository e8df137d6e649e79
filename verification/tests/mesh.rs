//! The solid: its layout, its vertices and its triangles.

use std::collections::HashSet;
use relief_core::decimate::Decimation;
use relief_core::depth::{Albedo, BitDepth, HeightField};
use relief_core::listing::Triangles;
use relief_core::mesh::{Block, Layout, Solid, FRAME_GREY};
use relief_core::number::{Op, Real};
use relief_core::params::{Orientation, Params, Units};

fn arith(op: Op, a: Real, b: Real) -> Real {
    let (x, y) = (f32::from_bits(a.bits), f32::from_bits(b.bits));
    let r = match op {
        Op::Plus => x + y,
        Op::Minus => x - y,
        Op::Times => x * y,
        Op::Over => x / y,
        Op::Root => x.sqrt(),
        Op::Exp => x.exp(),
        Op::Round => x.round(),
        Op::Floor => x.floor(),
    };
    num(r)
}

fn num(x: f32) -> Real {
    Real { bits: x.to_bits() }
}

fn float(r: Real) -> f32 {
    f32::from_bits(r.bits)
}

fn field(w: usize, h: usize) -> HeightField {
    // A dome in millimetres, so no two rows are alike and the winding tests
    // are not accidentally passing on a flat plane.
    let mut z = vec![num(0.0); w * h];
    for j in 0..h {
        for i in 0..w {
            let u = i as f32 / (w - 1) as f32 - 0.5;
            let v = j as f32 / (h - 1) as f32 - 0.5;
            z[j * w + i] = num(-20.0 * (u * u + v * v));
        }
    }
    HeightField { w, h, z, bits: BitDepth::Sixteen }
}

fn params() -> Params {
    Params {
        emboss_mm: num(20.0),
        size_mm: num(100.0),
        frame_thickness_mm: num(5.0),
        frame_near_mm: num(1.0),
        frame_back_mm: num(1.0),
        ..Params::default()
    }
}

#[test]
fn border_cycle_is_a_closed_walk_of_unique_vertices() {
    for (w, h) in [(2, 2), (3, 4), (9, 5), (5, 9), (17, 17)] {
        let l = Layout::new(&field(w, h), &params(), &arith);
        let p = l.perimeter();
        let mut seen = HashSet::new();
        let mut previous = l.border(p - 1);
        for k in 0..p {
            let current = l.border(k);
            assert!(current.0 < w && current.1 < h, "{current:?} outside {w}×{h}");
            assert!(seen.insert(current), "{current:?} visited twice");
            let step = (current.0.abs_diff(previous.0), current.1.abs_diff(previous.1));
            assert!(step.0 + step.1 == 1, "{previous:?} -> {current:?} is not one step");
            assert!(
                current.0 == 0 || current.0 == w - 1 || current.1 == 0 || current.1 == h - 1,
                "{current:?} is not on the border"
            );
            previous = current;
        }
        assert_eq!(seen.len(), p);
    }
}

#[test]
fn counts_match_the_closed_form() {
    let p = 2 * (9 + 5) - 4;
    for (frame, rings) in [(5.0, 3), (0.0, 1)] {
        let params = Params { frame_thickness_mm: num(frame), ..params() };
        let f = field(9, 5);
        let l = Layout::new(&f, &params, &arith);
        assert_eq!(l.perimeter(), p);
        assert_eq!(l.vertex_count(), 9 * 5 + rings * p + 1);
        assert_eq!(l.triangle_count(), 2 * 8 * 4 + (2 * rings + 1) * p);

        let solid = Solid::new(&f, &params, &arith);
        let mut emitted = Vec::new();
        solid.for_each_triangle(&mut emitted, &mut Vec::new());
        assert_eq!(emitted.len(), l.triangle_count(), "frame {frame}");
    }
}

#[test]
fn the_grid_is_centred() {
    let f = field(9, 5);
    let solid = Solid::new(&f, &params(), &arith);
    let l = solid.layout;
    // Left-most and right-most columns must be equal and opposite: half a pixel
    // of asymmetry would break this.
    let left = float(solid.position(0, &arith).x);
    let right = float(solid.position(l.w - 1, &arith).x);
    assert!((left + right).abs() < 1e-4, "{left} vs {right}");
    let top = float(solid.position(0, &arith).y);
    let bottom = float(solid.position((l.h - 1) * l.w, &arith).y);
    assert!((top + bottom).abs() < 1e-4, "{top} vs {bottom}");
}

#[test]
fn printed_size_is_the_longest_outer_side() {
    for (w, h) in [(9, 5), (5, 9), (7, 7)] {
        for frame in [0.0, 5.0, 20.0] {
            let params = Params {
                size_mm: num(120.0),
                frame_thickness_mm: num(frame),
                ..params()
            };
            let l = Layout::new(&field(w, h), &params, &arith);
            let e = l.extents_mm(&arith);
            let longest = float(e.x).max(float(e.y));
            assert!(
                (longest - 120.0).abs() < 1e-3,
                "{w}×{h} frame {frame}: longest face side {longest}"
            );
        }
    }
}

/// The reason the scale comes from the face and not the bounding box.
#[test]
fn relief_depth_does_not_change_the_printed_width() {
    let f = field(9, 5);
    let shallow = Layout::new(&f, &Params { emboss_mm: num(2.0), ..params() }, &arith);
    let deep = Layout::new(&f, &Params { emboss_mm: num(90.0), ..params() }, &arith);
    let (a, b) = (shallow.extents_mm(&arith), deep.extents_mm(&arith));
    assert!((float(a.x) - float(b.x)).abs() < 1e-3);
    assert!((float(b.z) - float(a.z) - 88.0).abs() < 1e-3);
}

#[test]
fn frame_never_passes_the_deepest_point() {
    let p = Params { emboss_mm: num(30.0), frame_near_mm: num(-90.0), ..params() };
    let l = Layout::new(&field(5, 5), &p, &arith);
    assert!((float(l.frame_near_mm) + 30.0).abs() < 1e-6);
}

#[test]
fn without_a_frame_the_sides_are_flush_with_the_relief() {
    let f = field(9, 5);
    let params = Params {
        frame_thickness_mm: num(0.0),
        frame_near_mm: num(8.0), // ignored: there is no bezel to offset
        ..params()
    };
    let solid = Solid::new(&f, &params, &arith);
    assert!(!solid.layout.framed());
    assert_eq!(float(solid.layout.frame_near_mm), 0.0);

    // Nothing stands in front of the relief's own front plane.
    let front = (0..solid.vertex_count())
        .map(|v| float(solid.position(v, &arith).z))
        .fold(f32::NEG_INFINITY, f32::max);
    assert!(front.abs() < 1e-6, "something stands proud at {front}");

    // And the outline is the relief's own border, not a pushed-out ring.
    let border = solid.position(0, &arith);
    let back = solid.position(solid.layout.w * solid.layout.h, &arith);
    assert!((float(border.x) - float(back.x)).abs() < 1e-6);
    assert!((float(border.y) - float(back.y)).abs() < 1e-6);
}

#[test]
fn print_orientation_drops_the_model_onto_the_bed() {
    let f = field(9, 5);
    for orientation in Orientation::all() {
        for frame in [0.0, 5.0] {
            let solid = Solid::new(
                &f,
                &Params { orientation, frame_thickness_mm: num(frame), ..params() },
                &arith,
            );
            let mut lowest = f32::INFINITY;
            for v in 0..solid.vertex_count() {
                lowest = lowest.min(float(solid.print_position(v, &arith).z));
            }
            assert!(
                lowest.abs() < 1e-3,
                "{orientation:?} frame {frame} leaves the model at z = {lowest}"
            );
        }
    }
}

#[test]
fn export_units_scale_the_file_and_nothing_else() {
    let f = field(9, 5);
    let metric = Solid::new(&f, &params(), &arith);
    let imperial = Solid::new(&f, &Params { units: Units::In, ..params() }, &arith);
    // The model is identical...
    assert_eq!(metric.position(0, &arith), imperial.position(0, &arith));
    assert_eq!(metric.layout.extents_mm(&arith), imperial.layout.extents_mm(&arith));
    // ...only the numbers written out differ.
    let a = metric.print_position(0, &arith);
    let b = imperial.print_position(0, &arith);
    assert!((float(a.x) / 25.4 - float(b.x)).abs() < 1e-5, "{a:?} vs {b:?}");
}

#[test]
fn every_vertex_belongs_to_a_block() {
    let f = field(3, 2);
    let framed = Solid::new(&f, &params(), &arith);
    let p = framed.perimeter();
    assert_eq!(p, 6);
    assert_eq!(framed.block(5), Block::Surface { i: 2, j: 1 });
    assert_eq!(framed.block(6), Block::Rim(0));
    assert_eq!(framed.block(framed.vertex_count() - 1), Block::Centre);
    assert_eq!(framed.border_cell(0), (0, 0));
}

#[test]
fn colour_is_the_photo_on_the_surface_and_grey_behind_it() {
    let f = field(3, 2);
    let albedo = Albedo::from_dynamic(&(0..18u8).collect(), 3, 2);
    let solid = Solid::new(&f, &params(), &arith).with_albedo(Some(&albedo));
    assert!(solid.has_colour());
    assert_eq!(solid.colour(4), [12, 13, 14]);
    for v in 6..solid.vertex_count() {
        assert_eq!(solid.colour(v), [FRAME_GREY; 3]);
    }
}

#[test]
fn the_surface_faces_the_viewer() {
    let f = field(5, 4);
    let solid = Solid::new(&f, &params(), &arith);
    let mut sheet = Vec::new();
    solid.for_each_surface_triangle(&mut sheet, &mut Vec::new());
    assert_eq!(sheet.len(), 2 * 4 * 3);
    let mut row = Vec::new();
    solid.surface_row(0, &mut row);
    assert_eq!(row[..], sheet[..8]);
    for t in sheet {
        let facet = solid.facet(t, &arith);
        assert!(float(facet.normal.z) > 0.0, "{t:?} looks away");
    }
}

#[test]
fn facets_repeat_the_triangles() {
    let f = field(4, 3);
    let solid = Solid::new(&f, &params(), &arith);
    let (mut triangles, mut facets, mut marks) = (Vec::new(), Vec::new(), Vec::new());
    solid.for_each_triangle(&mut triangles, &mut Vec::new());
    solid.for_each_facet(&mut facets, &mut marks, &arith);
    assert_eq!(facets.len(), triangles.len());
    assert_eq!(facets[7].b, solid.print_position(triangles[7][1] as usize, &arith));
    let mut frame = Vec::new();
    solid.for_each_frame_triangle(&mut frame, &mut Vec::new());
    assert_eq!(frame.len(), triangles.len() - 12);
    let last = marks.last().unwrap();
    assert_eq!(last.done, last.total);
}

#[test]
fn a_listing_gives_the_triangles_in_order() {
    let field = field(33, 17);
    let params = Params::default();
    let simple = Decimation::build(&field, num(0.5), &arith).expect("on");
    for decimation in [None, Some(&simple)] {
        let solid = Solid::new(&field, &params, &arith).with_decimation(decimation);
        let (mut all, mut reports) = (Vec::new(), Vec::new());
        solid.for_each_triangle(&mut all, &mut reports);
        let mut listing = Triangles::new(&solid);
        let (mut some, mut marks) = (Vec::new(), Vec::new());
        let mut steps = 0;
        while listing.next(&solid, &mut some, &mut marks) {
            steps += 1;
        }
        assert!(steps > 2);
        assert_eq!(some, all);
        assert_eq!(marks, reports);
        assert!(!listing.next(&solid, &mut some, &mut marks));
        assert_eq!(some.len(), all.len());
    }
}

#[test]
fn every_vertex_is_a_corner() {
    let field = field(33, 17);
    let simple = Decimation::build(&field, num(0.5), &arith).expect("on");
    for frame_mm in [0.0, 4.0] {
        let params = Params { frame_thickness_mm: num(frame_mm), ..Params::default() };
        for decimation in [None, Some(&simple)] {
            let solid = Solid::new(&field, &params, &arith).with_decimation(decimation);
            let (mut all, mut reports) = (Vec::new(), Vec::new());
            solid.for_each_triangle(&mut all, &mut reports);
            let used: HashSet<u32> = all.iter().flatten().copied().collect();
            assert_eq!(used.len(), solid.vertex_count());
            assert!(all.iter().all(|t| t[0] != t[1] && t[1] != t[2] && t[2] != t[0]));
        }
    }
}
