//! The parameters, their limits and their defaults.

use relief_core::number::{Op, Real};
use relief_core::params::{Orientation, Params, Units};
use relief_core::error::Error;

fn arith(op: Op, a: Real, b: Real) -> Real {
    let (x, y) = (f32::from_bits(a.bits), f32::from_bits(b.bits));
    let r = match op {
        Op::Plus => x + y,
        Op::Minus => x - y,
        Op::Times => x * y,
        Op::Over => x / y,
        Op::Root => x.sqrt(),
        Op::Exp => x.exp(),
        Op::Round => x.round(),
        Op::Floor => x.floor(),
    };
    num(r)
}

fn num(x: f32) -> Real {
    Real { bits: x.to_bits() }
}

fn float(r: Real) -> f32 {
    f32::from_bits(r.bits)
}

#[test]
fn defaults_are_upstreams_in_millimetres() {
    let p = Params::default();
    assert_eq!(float(p.near), 0.0);
    assert_eq!(float(p.far), 1.0);
    assert_eq!(p.size_px, 512);
    assert_eq!(p.filter_size, 3);
    // A 20% emboss and a 5% bezel, on a 100 mm plaque.
    assert_eq!(float(p.size_mm), 100.0);
    assert_eq!(float(p.emboss_mm), 20.0);
    assert_eq!(float(p.frame_thickness_mm), 5.0);
}

#[test]
fn clamp_forces_odd_filter() {
    let mut p = Params { filter_size: 4, ..Params::default() };
    p.clamp();
    assert_eq!(p.filter_size, 5);

    let mut p = Params { filter_size: 99, ..Params::default() };
    p.clamp();
    assert_eq!(p.filter_size, 5);
}

#[test]
fn a_frame_cannot_eat_the_picture() {
    let mut p = Params {
        size_mm: num(50.0),
        frame_thickness_mm: num(40.0),
        ..Params::default()
    };
    p.clamp();
    assert_eq!(float(p.frame_thickness_mm), 24.0);
    assert!(p.framed());
}

#[test]
fn zero_thickness_means_no_frame() {
    let p = Params {
        frame_thickness_mm: num(0.0),
        frame_near_mm: num(8.0),
        ..Params::default()
    };
    assert!(!p.framed());
    // With no frame there is no bezel face to offset.
    assert_eq!(float(p.frame_near_clamped()), 0.0);
}

#[test]
fn empty_window_is_an_error() {
    let p = Params { near: num(0.6), far: num(0.5), ..Params::default() };
    assert!(p.validate().is_err());
}

#[test]
fn grid_keeps_aspect_and_never_degenerates() {
    let p = Params { size_px: 512, ..Params::default() };
    assert_eq!(p.grid_for(1536, 1152), (512, 384));
    assert_eq!(p.grid_for(1152, 1536), (384, 512));
    // A pathological aspect still yields a meshable grid.
    assert_eq!(p.grid_for(10_000, 1), (512, 2));
}

#[test]
fn inches_only_scale_the_export() {
    assert_eq!(float(Units::Mm.per_mm()), 1.0);
    assert!((float(Units::In.from_mm(num(25.4), &arith)) - 1.0).abs() < 1e-6);
}

#[test]
fn clamping_brings_every_number_into_its_range() {
    let mut p = Params {
        near: num(-1.0),
        far: num(7.0),
        emboss_mm: num(1e9),
        invert: true,
        size_px: 10,
        size_mm: num(1.0),
        filter_size: 0,
        presmooth: num(-3.0),
        frame_thickness_mm: num(1e6),
        frame_near_mm: num(-1e6),
        frame_back_mm: num(0.0),
        tolerance_mm: num(3.0),
        layer_mm: num(0.0),
        orientation: Orientation::Upright,
        units: Units::In,
    };
    p.clamp();
    assert_eq!(float(p.near), 0.0);
    assert_eq!(float(p.far), 1.0);
    assert_eq!(float(p.emboss_mm), 100.0);
    assert!(p.invert);
    assert_eq!(p.size_px, 256);
    assert_eq!(float(p.size_mm), 10.0);
    assert_eq!(p.filter_size, 1);
    assert_eq!(float(p.presmooth), 0.0);
    assert_eq!(float(p.frame_thickness_mm), 4.0);
    assert_eq!(float(p.frame_near_mm), -100.0);
    assert_eq!(float(p.frame_back_mm), 0.2);
    assert_eq!(float(p.tolerance_mm), 1.0);
    assert_eq!(float(p.layer_mm), 0.02);
    assert_eq!(p.orientation, Orientation::Upright);
    assert_eq!(p.units, Units::In);
    let once = p;
    p.clamp();
    assert_eq!(p, once);
}

#[test]
fn an_empty_window_names_both_planes() {
    let p = Params { near: num(0.6), far: num(0.5), ..Params::default() };
    match p.validate() {
        Err(Error::EmptyDepthWindow { near, far }) => {
            assert_eq!(float(near), 0.6);
            assert_eq!(float(far), 0.5);
        }
        _ => panic!("the window is empty"),
    }
}

#[test]
fn settings_are_compared_as_numbers() {
    let p = Params::default();
    assert!(p.same(&p));
    assert!(p.same(&Params { near: num(-0.0), ..p }));
    assert!(!p.same(&Params { near: num(0.1), ..p }));
    let odd = Params { near: num(f32::NAN), ..p };
    assert!(!odd.same(&odd));
}

#[test]
fn choices_are_named() {
    assert_eq!(Orientation::all(), [Orientation::FaceUp, Orientation::Upright]);
    assert_eq!(Orientation::FaceUp.label(), "Face up");
    assert_eq!(Orientation::Upright.label(), "Upright");
    assert_eq!(Units::all(), [Units::Mm, Units::In]);
    assert_eq!(Units::Mm.label(), "mm");
    assert_eq!(Units::In.long_label(), "inches");
}

#[test]
fn the_example_is_deep_and_sunken() {
    let p = Params::example();
    assert_eq!(float(p.far), 0.5);
    assert_eq!(float(p.emboss_mm), 45.0);
    assert_eq!(float(p.frame_near_mm), -22.0);
    assert_eq!(float(p.frame_near_clamped()), -22.0);
    assert_eq!(float(p.frame_far(&arith)), -46.0);
    assert!(p.simplifies());
}
