//! The synthetic sample.

use relief_core::depth::{BitDepth, DepthMap};
use relief_core::number::{Op, Real};
use relief_core::sample::{depth_map, depth_map_with, to_png};

fn arith(op: Op, a: Real, b: Real) -> Real {
    let (x, y) = (f32::from_bits(a.bits), f32::from_bits(b.bits));
    let r = match op {
        Op::Plus => x + y,
        Op::Minus => x - y,
        Op::Times => x * y,
        Op::Over => x / y,
        Op::Root => x.sqrt(),
        Op::Exp => x.exp(),
        Op::Round => x.round(),
        Op::Floor => x.floor(),
    };
    num(r)
}

fn num(x: f32) -> Real {
    Real { bits: x.to_bits() }
}

fn float(r: Real) -> f32 {
    f32::from_bits(r.bits)
}

#[test]
fn sample_uses_its_whole_range_and_is_stable() {
    let map = depth_map(64, 48, &arith);
    let lo = map.data.iter().map(|&v| float(v)).fold(f32::INFINITY, f32::min);
    let hi = map.data.iter().map(|&v| float(v)).fold(f32::NEG_INFINITY, f32::max);
    // Not the full 0..1 — it does not need to be, because `condition`
    // normalises whatever range arrives. It does need enough spread that
    // the near/far window has something to bite on.
    assert!(lo < 0.2, "lowest sample is {lo}");
    assert!(hi > 0.6, "highest sample is {hi}");
    assert!(hi - lo > 0.5, "sample spans only {}", hi - lo);
    // Same seed, same terrain, every run.
    assert_eq!(map.data, depth_map(64, 48, &arith).data);
}

#[test]
fn eight_bit_sample_is_quantised() {
    let map = depth_map_with(32, 32, BitDepth::Eight, &arith);
    assert_eq!(map.bits.levels(), 256);
    for &v in &map.data {
        let v = float(v);
        let level = v * 255.0;
        assert!((level - level.round()).abs() < 1e-4, "{v} is not on a 256-level grid");
    }
}

#[test]
fn png_round_trips_through_the_decoder() {
    let map = depth_map(48, 32, &arith);
    let png = to_png(&map, &arith).unwrap();
    let back = DepthMap::decode(&png, &arith).unwrap();
    assert_eq!((back.width, back.height), (48, 32));
    assert_eq!(back.bits, BitDepth::Sixteen);
    for (a, b) in map.data.iter().zip(&back.data) {
        assert!((float(*a) - float(*b)).abs() < 1.0 / 65_535.0 + 1e-6);
    }
}

#[test]
fn an_eight_bit_png_round_trips_too() {
    let map = depth_map_with(40, 30, BitDepth::Eight, &arith);
    let png = to_png(&map, &arith).unwrap();
    assert_eq!(&png[1..4], b"PNG");
    let back = DepthMap::decode(&png, &arith).unwrap();
    assert_eq!((back.width, back.height), (40, 30));
    assert_eq!(back.bits, BitDepth::Eight);
    for (a, b) in map.data.iter().zip(&back.data) {
        assert!((float(*a) - float(*b)).abs() < 1e-6);
    }
}

#[test]
fn a_sample_has_at_least_a_quad() {
    let map = depth_map(0, 1, &arith);
    assert_eq!((map.width, map.height), (2, 2));
    assert_eq!(map.data.len(), 4);
    // The corners lie on the plate, far away.
    assert!(map.data.iter().all(|&v| float(v) == 1.0));
}
