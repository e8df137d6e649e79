//! Simplification.

use std::collections::HashSet;
use relief_core::decimate::{suggested_tolerance, Decimation, Leaf};
use relief_core::depth::{BitDepth, HeightField};
use relief_core::number::{Op, Real};

fn arith(op: Op, a: Real, b: Real) -> Real {
    let (x, y) = (f32::from_bits(a.bits), f32::from_bits(b.bits));
    let r = match op {
        Op::Plus => x + y,
        Op::Minus => x - y,
        Op::Times => x * y,
        Op::Over => x / y,
        Op::Root => x.sqrt(),
        Op::Exp => x.exp(),
        Op::Round => x.round(),
        Op::Floor => x.floor(),
    };
    num(r)
}

fn num(x: f32) -> Real {
    Real { bits: x.to_bits() }
}

fn float(r: Real) -> f32 {
    f32::from_bits(r.bits)
}

/// A field that is flat in one half and busy in the other, so simplification
/// has something obvious to do and something it must not do.
fn half_and_half(w: usize, h: usize) -> HeightField {
    let mut z = vec![num(0.0); w * h];
    for j in 0..h {
        for i in 0..w {
            z[j * w + i] = num(if i < w / 2 {
                -5.0
            } else {
                -5.0 - 3.0 * ((i as f32 * 0.7).sin() * (j as f32 * 0.9).cos())
            });
        }
    }
    HeightField { w, h, z, bits: BitDepth::Sixteen }
}

fn flat(w: usize, h: usize) -> HeightField {
    HeightField { w, h, z: vec![num(-2.0); w * h], bits: BitDepth::Sixteen }
}

fn build(field: &HeightField, tolerance: f32) -> Option<Decimation> {
    Decimation::build(field, num(tolerance), &arith)
}

fn leaves(d: &Decimation) -> Vec<Leaf> {
    let mut v = Vec::new();
    d.for_each_leaf(&mut v);
    v
}

#[test]
fn switched_off_by_a_zero_tolerance() {
    assert!(build(&flat(33, 33), 0.0).is_none());
}

#[test]
fn a_flat_field_collapses_to_almost_nothing() {
    let field = flat(129, 129);
    let d = build(&field, 0.05).expect("on");
    assert!(d.triangles() <= 8, "a plane should not need {} triangles", d.triangles());
    assert_eq!(float(d.max_error_mm()), 0.0);
    // Its border is the four corners, and the frame will be built on those.
    assert_eq!(d.border().len(), 4);
}

#[test]
fn detail_is_kept_and_flatness_is_not() {
    let field = half_and_half(129, 129);
    let d = build(&field, 0.05).expect("on");
    // The busy half oscillates every few cells with 3 mm of amplitude, so it
    // is incompressible at this tolerance and *should* survive intact. Half
    // the field vanishing is therefore the right answer, not a weak one.
    let full = 2 * 128 * 128;
    let kept = d.triangles() as f32 / full as f32;
    assert!(
        (0.45..0.58).contains(&kept),
        "kept {:.0}% — expected the flat half to go and the busy half to stay",
        kept * 100.0
    );

    // Every leaf on the flat side is coarse; the busy side keeps fine ones.
    let mut coarse_left = 0;
    let mut fine_right = 0;
    for leaf in leaves(&d) {
        if leaf.x0 + leaf.span <= 60 && leaf.span >= 16 {
            coarse_left += 1;
        }
        if leaf.x0 >= 70 && leaf.span <= 2 {
            fine_right += 1;
        }
    }
    assert!(coarse_left > 0, "the flat half did not simplify");
    assert!(fine_right > 0, "the busy half lost its detail");
}

#[test]
fn the_error_bound_is_respected() {
    for tolerance in [0.01, 0.05, 0.2, 1.0] {
        let field = half_and_half(129, 97);
        let d = build(&field, tolerance).expect("on");
        assert!(
            float(d.max_error_mm()) <= tolerance + 1e-6,
            "asked for {tolerance}, achieved {}",
            float(d.max_error_mm())
        );
    }
}

/// Every grid sample against the triangles that are emitted over it.
fn strays(d: &Decimation, field: &HeightField) -> f64 {
    let (mut faces, mut marks) = (Vec::new(), Vec::new());
    d.for_each_triangle(&mut faces, &mut marks);
    let mut worst = 0.0f64;
    let mut hit = vec![false; field.w * field.h];
    for face in faces {
        let corners: Vec<(i64, i64, f64)> = face
            .iter()
            .map(|&c| {
                let k = d.grid(c) as usize;
                ((k % field.w) as i64, (k / field.w) as i64, float(field.z[k]) as f64)
            })
            .collect();
        let area = |p: (i64, i64), q: (i64, i64), r: (i64, i64)| {
            (r.0 - p.0) * (q.1 - p.1) - (r.1 - p.1) * (q.0 - p.0)
        };
        let [a, b, c] = [0, 1, 2].map(|k| (corners[k].0, corners[k].1));
        let whole = area(a, b, c);
        assert!(whole > 0);
        let xs = [a.0, b.0, c.0];
        let ys = [a.1, b.1, c.1];
        for y in *ys.iter().min().unwrap()..=*ys.iter().max().unwrap() {
            for x in *xs.iter().min().unwrap()..=*xs.iter().max().unwrap() {
                let p = (x, y);
                let (u, v, t) = (area(p, b, c), area(a, p, c), area(a, b, p));
                if u < 0 || v < 0 || t < 0 {
                    continue;
                }
                let flat = (u as f64 * corners[0].2 + v as f64 * corners[1].2
                    + t as f64 * corners[2].2)
                    / whole as f64;
                let k = y as usize * field.w + x as usize;
                hit[k] = true;
                worst = worst.max((flat - float(field.z[k]) as f64).abs());
            }
        }
    }
    assert!(hit.iter().all(|&h| h), "every sample lies under a triangle");
    worst
}

#[test]
fn the_triangles_stay_within_the_tolerance() {
    // A saddle: a quad through its corners is exact, a fan from its centre is not.
    let z = (0..25).map(|k| num(-(((k % 5) * (k / 5)) as f32))).collect();
    let saddle = HeightField { w: 5, h: 5, z, bits: BitDepth::Sixteen };
    let d = build(&saddle, 0.05).expect("on");
    assert!(strays(&d, &saddle) <= 0.05);
    assert!(d.triangles() > 4);
    for tolerance in [0.01, 0.05, 0.2, 1.0] {
        let field = half_and_half(65, 49);
        let d = build(&field, tolerance).expect("on");
        let worst = strays(&d, &field);
        assert!(worst <= tolerance as f64 + 1e-5, "{worst} at {tolerance}");
        assert!((worst - float(d.max_error_mm()) as f64).abs() < 1e-5);
    }
}

#[test]
fn a_side_is_stitched_towards_half_its_span() {
    let d = build(&half_and_half(65, 65), 0.05).expect("on");
    let all = leaves(&d);
    let over = |x: i64, y: i64| {
        all.iter().find(|l| {
            (l.x0 as i64..(l.x0 + l.span) as i64).contains(&x)
                && (l.y0 as i64..(l.y0 + l.span) as i64).contains(&y)
        })
    };
    let mut stitched = 0;
    for l in &all {
        let (x, y, s) = (l.x0 as i64, l.y0 as i64, l.span as i64);
        for (side, next) in [over(x - 1, y), over(x, y + s), over(x + s, y), over(x, y - 1)]
            .iter()
            .enumerate()
        {
            if let Some(n) = next {
                assert_eq!(l.stitches[side], 2 * n.span == l.span);
                stitched += l.stitches[side] as usize;
            }
        }
    }
    assert!(stitched > 0);
}

#[test]
fn a_looser_tolerance_never_costs_more_triangles() {
    let field = half_and_half(129, 129);
    let mut previous = usize::MAX;
    for tolerance in [0.01, 0.05, 0.1, 0.5, 2.0] {
        let d = build(&field, tolerance).expect("on");
        assert!(
            d.triangles() <= previous,
            "{tolerance} mm produced more triangles than the tolerance before it"
        );
        previous = d.triangles();
    }
}

/// Balance is what keeps the stitching rule sufficient: without it a leaf
/// could touch one two levels finer, and one midpoint would not be enough.
#[test]
fn neighbouring_leaves_differ_by_at_most_one_level() {
    let field = half_and_half(129, 129);
    let d = build(&field, 0.05).expect("on");

    // Map every cell to the span of the leaf covering it.
    let mut spans = vec![0usize; 128 * 128];
    for leaf in leaves(&d) {
        for y in leaf.y0..leaf.y0 + leaf.span {
            for x in leaf.x0..leaf.x0 + leaf.span {
                spans[y * 128 + x] = leaf.span;
            }
        }
    }
    for y in 0..128 {
        for x in 0..127 {
            let (a, b) = (spans[y * 128 + x], spans[y * 128 + x + 1]);
            assert!(
                a.max(b) <= 2 * a.min(b),
                "spans {a} and {b} are more than one level apart at {x},{y}"
            );
        }
    }
}

#[test]
fn every_cell_is_covered_exactly_once() {
    let field = half_and_half(97, 65);
    let d = build(&field, 0.08).expect("on");
    let mut covered = vec![0u8; 96 * 64];
    for leaf in leaves(&d) {
        for y in leaf.y0..leaf.y0 + leaf.span {
            for x in leaf.x0..leaf.x0 + leaf.span {
                covered[y * 96 + x] += 1;
            }
        }
    }
    assert!(covered.iter().all(|&c| c == 1), "leaves overlap or leave gaps");
}

/// Grids are rarely a power of two plus one; the padded blocks that hang over
/// the edge have to subdivide rather than invent geometry.
#[test]
fn awkward_grid_sizes_are_covered_exactly() {
    for (w, h) in [(100, 71), (513, 385), (37, 37), (3, 3)] {
        let field = half_and_half(w, h);
        let d = build(&field, 0.05).expect("on");
        let mut covered = vec![0u8; (w - 1) * (h - 1)];
        for leaf in leaves(&d) {
            assert!(leaf.x0 + leaf.span < w && leaf.y0 + leaf.span < h);
            for y in leaf.y0..leaf.y0 + leaf.span {
                for x in leaf.x0..leaf.x0 + leaf.span {
                    covered[y * (w - 1) + x] += 1;
                }
            }
        }
        assert!(covered.iter().all(|&c| c == 1), "{w}×{h} is not covered exactly once");
    }
}

#[test]
fn compact_indices_round_trip() {
    let field = half_and_half(65, 65);
    let d = build(&field, 0.05).expect("on");
    assert!(d.vertices() > 4);
    for compact in 0..d.vertices() as u32 {
        assert_eq!(d.compact(d.grid(compact)), compact);
    }
}

#[test]
fn the_border_is_a_walk_around_the_edge() {
    let field = half_and_half(65, 49);
    let d = build(&field, 0.05).expect("on");
    let border = d.border();
    assert!(border.len() >= 4);
    for &index in border {
        let (x, y) = ((index as usize) % 65, (index as usize) / 65);
        assert!(
            x == 0 || y == 0 || x == 64 || y == 48,
            "{x},{y} is not on the border"
        );
        assert!(d.contains(index), "the border must survive simplification");
    }
    // No repeats, and the corners are all present.
    let unique: HashSet<_> = border.iter().collect();
    assert_eq!(unique.len(), border.len());
    for corner in [0, 64, 48 * 65, 48 * 65 + 64] {
        assert!(border.contains(&corner), "corner {corner} missing");
    }
}

#[test]
fn blocks_over_the_edge_subdivide_even_without_a_bound() {
    let field = half_and_half(100, 71);
    let d = build(&field, f32::INFINITY).expect("on");
    for leaf in leaves(&d) {
        assert!(leaf.x0 + leaf.span < 100 && leaf.y0 + leaf.span < 71);
    }
}

#[test]
fn triangles_are_those_of_the_leaves() {
    let field = half_and_half(33, 33);
    let d = build(&field, 0.1).expect("on");
    let sum: usize = leaves(&d).iter().map(|l| l.triangles()).sum();
    assert_eq!(sum, d.triangles());
    let mut emitted = Vec::new();
    let mut marks = Vec::new();
    d.for_each_triangle(&mut emitted, &mut marks);
    assert_eq!(emitted.len(), sum);
    assert!(emitted.iter().flatten().all(|&v| (v as usize) < d.vertices()));
    let last = marks.last().unwrap();
    assert_eq!(last.done, last.total);
    assert_eq!(float(d.tolerance_mm()), 0.1);
    let mut first = Vec::new();
    let leaf = leaves(&d)[0];
    d.leaf_triangles(&leaf, &mut first);
    assert_eq!(first.len(), leaf.triangles());
    assert_eq!(first[..], emitted[..first.len()]);
}

#[test]
fn a_tolerance_is_suggested_from_the_layer() {
    assert_eq!(float(suggested_tolerance(num(0.01), num(0.1), &arith)), 0.05);
    // Never below what the source can express.
    assert_eq!(float(suggested_tolerance(num(0.08), num(0.1), &arith)), 0.08);
}

#[test]
fn a_walk_meets_the_leaves_in_order() {
    let d = build(&half_and_half(129, 97), 0.05).expect("on");
    let mut walk = d.walk();
    let mut met = Vec::new();
    while let Some(leaf) = walk.next(&d) {
        met.push((leaf.x0, leaf.y0, leaf.span, leaf.stitches));
    }
    let all: Vec<_> = leaves(&d).iter().map(|l| (l.x0, l.y0, l.span, l.stitches)).collect();
    assert_eq!(met, all);
    assert!(walk.next(&d).is_none());
}

#[test]
fn a_spike_in_the_middle_is_not_smoothed_into_a_fan() {
    // One fan would run through the spike, but the quad through the corners does
    // not come near it.
    let mut z = vec![num(0.0); 9];
    z[4] = num(-1.0);
    let field = HeightField { w: 3, h: 3, z, bits: BitDepth::Sixteen };
    assert_eq!(build(&field, 0.05).expect("on").triangles(), 8);
    assert_eq!(build(&field, 2.0).expect("on").triangles(), 4);
}
