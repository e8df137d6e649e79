//! The chunks of the preview.

use std::collections::{HashMap, HashSet};
use relief_core::decimate::Decimation;
use relief_core::depth::{BitDepth, HeightField};
use relief_core::mesh::Solid;
use relief_core::number::{Op, Real};
use relief_core::params::Params;
use relief_core::tiles::{frame_tile, plan, preview, surface_tile, TileKind};

fn arith(op: Op, a: Real, b: Real) -> Real {
    let (x, y) = (f32::from_bits(a.bits), f32::from_bits(b.bits));
    let r = match op {
        Op::Plus => x + y,
        Op::Minus => x - y,
        Op::Times => x * y,
        Op::Over => x / y,
        Op::Root => x.sqrt(),
        Op::Exp => x.exp(),
        Op::Round => x.round(),
        Op::Floor => x.floor(),
    };
    num(r)
}

fn num(x: f32) -> Real {
    Real { bits: x.to_bits() }
}

fn float(r: Real) -> f32 {
    f32::from_bits(r.bits)
}

fn field(w: usize, h: usize) -> HeightField {
    HeightField {
        w,
        h,
        z: (0..w * h).map(|k| num(-10.0 * ((k % w) as f32 / w as f32))).collect(),
        bits: BitDepth::Sixteen,
    }
}

#[test]
fn tiles_cover_every_cell_exactly_once() {
    for (w, h, max) in [(9, 5, 16), (33, 17, 64), (100, 7, 1024), (2, 2, 4)] {
        let tiles = plan(w, h, max);
        assert!(!tiles.is_empty());
        let mut covered = vec![0u8; (w - 1) * (h - 1)];
        for t in &tiles {
            assert!(t.vertices() <= max.max(4), "{t:?} exceeds {max} vertices");
            for j in t.y0..t.y1 {
                for i in t.x0..t.x1 {
                    covered[j * (w - 1) + i] += 1;
                }
            }
        }
        assert!(
            covered.iter().all(|&c| c == 1),
            "{w}×{h} max {max}: cells covered {:?}",
            covered.iter().collect::<HashSet<_>>()
        );
    }
}

#[test]
fn chunking_preserves_the_triangle_count() {
    let f = field(65, 33);
    let p = Params::default();
    let solid = Solid::new(&f, &p, &arith);
    let chunks = preview(&solid, 256, &arith);
    let total: usize = chunks.iter().map(|c| c.triangles()).sum();
    assert_eq!(total, solid.triangle_count());
    assert!(chunks.len() > 4, "expected several tiles, got {}", chunks.len());
}

#[test]
fn seam_vertices_agree_between_neighbouring_tiles() {
    let f = field(17, 9);
    let p = Params::default();
    let solid = Solid::new(&f, &p, &arith);
    let tiles = plan(17, 9, 36);
    // Every vertex shared by two tiles must have identical position and
    // normal, or the seam shows as a crease.
    let mut seen: HashMap<(usize, usize), ([Real; 3], [Real; 3])> = HashMap::new();
    for rect in &tiles {
        let tile = surface_tile(&solid, rect, &arith);
        for (k, (i, j)) in (rect.y0..=rect.y1)
            .flat_map(|j| (rect.x0..=rect.x1).map(move |i| (i, j)))
            .enumerate()
        {
            let entry = (tile.positions[k], tile.normals[k]);
            if let Some(prior) = seen.insert((i, j), entry) {
                assert_eq!(prior, entry, "seam mismatch at {i},{j}");
            }
        }
    }
}

#[test]
fn a_rectangle_knows_its_counts() {
    let t = plan(9, 5, 1000)[0];
    assert_eq!((t.x0, t.y0, t.x1, t.y1), (0, 0, 8, 4));
    assert_eq!((t.width(), t.height()), (9, 5));
    assert_eq!(t.vertices(), 45);
    assert_eq!(t.triangles(), 64);
}

#[test]
fn the_frame_is_the_last_chunk_and_flat() {
    let f = field(9, 7);
    let solid = Solid::new(&f, &Params::default(), &arith);
    let chunks = preview(&solid, 40, &arith);
    let (last, surface) = chunks.split_last().unwrap();
    assert_eq!(last.kind, TileKind::Frame);
    assert!(surface.iter().all(|t| t.kind == TileKind::Surface));
    let frame = frame_tile(&solid, &arith);
    assert_eq!(frame.positions, last.positions);
    assert_eq!(frame.positions.len(), 3 * frame.triangles());
    for t in frame.normals.chunks(3) {
        assert_eq!(t[0], t[1]);
        assert_eq!(t[1], t[2]);
    }
}

#[test]
fn a_simplified_surface_is_chunked_whole() {
    let f = field(65, 33);
    let d = Decimation::build(&f, num(0.05), &arith).unwrap();
    let solid = Solid::new(&f, &Params::default(), &arith).with_decimation(Some(&d));
    let chunks = preview(&solid, 64, &arith);
    let total: usize = chunks.iter().map(|c| c.triangles()).sum();
    assert_eq!(total, solid.triangle_count());
    for chunk in &chunks {
        assert!(chunk.indices.iter().all(|&i| (i as usize) < chunk.positions.len()));
        assert!(chunk.uvs.iter().flatten().all(|&t| (0.0..=1.0).contains(&float(t))));
    }
}

#[test]
fn tiles_share_the_triangles_of_the_grid_out() {
    for (w, h) in [(2usize, 2usize), (9, 5), (33, 70)] {
        for max in [0, 4, 16, 100, 100_000] {
            let sum: usize = plan(w, h, max).iter().map(|t| t.triangles()).sum();
            assert_eq!(sum, 2 * (w - 1) * (h - 1));
        }
    }
}

#[test]
fn any_bound_will_do_for_a_small_solid() {
    let field = HeightField {
        w: 9,
        h: 5,
        z: (0..45).map(|k| num(-((k * 7 % 11) as f32))).collect(),
        bits: BitDepth::Sixteen,
    };
    let simple = Decimation::build(&field, num(0.01), &arith).expect("on");
    for decimation in [None, Some(&simple)] {
        let solid = Solid::new(&field, &Params::default(), &arith).with_decimation(decimation);
        for max in [4, 7, 100, usize::MAX] {
            let chunks = preview(&solid, max, &arith);
            let sum: usize = chunks.iter().map(|c| c.triangles()).sum();
            assert_eq!(sum, solid.triangle_count());
            for (i, c) in chunks.iter().enumerate() {
                assert_eq!(c.kind == TileKind::Frame, i + 1 == chunks.len());
                assert!(c.kind == TileKind::Frame || c.positions.len() <= max);
                assert_eq!(c.normals.len(), c.positions.len());
                assert_eq!(c.uvs.len(), c.positions.len());
                assert!(c.indices.iter().all(|&k| (k as usize) < c.positions.len()));
            }
        }
    }
}
