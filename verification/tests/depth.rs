//! Depth maps, their conditioning, and photos.

use relief_core::depth::{check_aspect, gaussian, median, open_picture, Albedo, BitDepth, DepthMap};
use relief_core::error::Error;
use relief_core::number::{Op, Real};
use relief_core::params::Params;

fn arith(op: Op, a: Real, b: Real) -> Real {
    let (x, y) = (f32::from_bits(a.bits), f32::from_bits(b.bits));
    let r = match op {
        Op::Plus => x + y,
        Op::Minus => x - y,
        Op::Times => x * y,
        Op::Over => x / y,
        Op::Root => x.sqrt(),
        Op::Exp => x.exp(),
        Op::Round => x.round(),
        Op::Floor => x.floor(),
    };
    num(r)
}

fn num(x: f32) -> Real {
    Real { bits: x.to_bits() }
}

fn float(r: Real) -> f32 {
    f32::from_bits(r.bits)
}

fn ramp(w: usize, h: usize) -> DepthMap {
    let data = (0..w * h).map(|k| num((k % w) as f32 / (w - 1) as f32)).collect();
    DepthMap {
        width: w as u32,
        height: h as u32,
        bits: BitDepth::Sixteen,
        was_colour: false,
        data,
    }
}

#[test]
fn median_removes_a_spike_but_keeps_an_edge() {
    let w = 7;
    let h = 7;
    let mut v = vec![num(0.2); w * h];
    v[3 * w + 3] = num(1.0); // lone spike
    let out = median(&v, w, h, 3);
    assert!((float(out[3 * w + 3]) - 0.2).abs() < 1e-6, "spike survived");

    // A step edge must stay a step edge.
    let mut e = vec![num(0.0); w * h];
    for j in 0..h {
        for i in 0..w {
            e[j * w + i] = num(if i >= 4 { 1.0 } else { 0.0 });
        }
    }
    let out = median(&e, w, h, 3);
    assert_eq!(float(out[3 * w + 2]), 0.0);
    assert_eq!(float(out[3 * w + 5]), 1.0);
}

#[test]
fn conditioning_spans_exactly_the_emboss_depth() {
    let p = Params { emboss_mm: num(40.0), filter_size: 1, ..Params::default() };
    let field = ramp(9, 5).condition(&p, &arith);
    let lo = field.z.iter().map(|&z| float(z)).fold(f32::INFINITY, f32::min);
    let hi = field.z.iter().map(|&z| float(z)).fold(f32::NEG_INFINITY, f32::max);
    assert!((hi - 0.0).abs() < 1e-6, "near side should sit at z = 0");
    assert!((lo + 40.0).abs() < 1e-4, "far side should sit at -emboss_mm");
}

#[test]
fn window_flattens_everything_outside_it() {
    let p = Params {
        near: num(0.25),
        far: num(0.75),
        emboss_mm: num(25.0),
        filter_size: 1,
        ..Params::default()
    };
    let field = ramp(101, 3).condition(&p, &arith);
    // Columns below the near plane are all one plateau, as are those above far.
    assert_eq!(float(field.at(0, 0)), float(field.at(20, 0)));
    assert_eq!(float(field.at(80, 0)), float(field.at(100, 0)));
    assert!(float(field.at(50, 0)) < float(field.at(20, 0)));
}

#[test]
fn invert_mirrors_the_relief() {
    let p = Params { filter_size: 1, ..Params::default() };
    let straight = ramp(9, 3).condition(&p, &arith);
    let flipped = ramp(9, 3).condition(&Params { invert: true, ..p }, &arith);
    for i in 0..9 {
        assert!((float(straight.at(i, 0)) - float(flipped.at(8 - i, 0))).abs() < 1e-6);
    }
}

#[test]
fn resize_preserves_the_corners() {
    let src = ramp(9, 9);
    let out = src.resized(5, 5, &arith);
    assert!((float(out.at(0, 0)) - 0.0).abs() < 1e-6);
    assert!((float(out.at(4, 0)) - 1.0).abs() < 1e-6);
}

#[test]
fn aspect_mismatch_is_caught() {
    let depth = ramp(1536, 1152);
    assert!(check_aspect(&depth, 1536, 1152, &arith).is_ok());
    assert!(check_aspect(&depth, 1024, 768, &arith).is_ok(), "same 4:3 is fine");
    assert!(check_aspect(&depth, 1000, 1000, &arith).is_err());
}

#[test]
fn a_misfit_names_both_shapes() {
    match check_aspect(&ramp(40, 30), 30, 30, &arith) {
        Err(Error::AspectMismatch { photo_w, photo_h, depth_w, depth_h }) => {
            assert_eq!((photo_w, photo_h, depth_w, depth_h), (30, 30, 40, 30));
        }
        _ => panic!("a square is no 4:3"),
    }
}

/// A picture of one colour as the bytes of a PNG.
fn file(image: image::DynamicImage) -> Vec<u8> {
    let mut bytes = Vec::new();
    image.write_to(&mut std::io::Cursor::new(&mut bytes), image::ImageFormat::Png).unwrap();
    bytes
}

#[test]
fn a_decoded_map_has_the_samples_of_its_file() {
    let mut grey = image::GrayImage::new(3, 2);
    grey.put_pixel(0, 0, image::Luma([255]));
    grey.put_pixel(2, 1, image::Luma([51]));
    let map = DepthMap::decode(&file(image::DynamicImage::ImageLuma8(grey)), &arith).unwrap();
    assert_eq!((map.width, map.height), (3, 2));
    assert_eq!(map.bits, BitDepth::Eight);
    assert!(!map.was_colour);
    assert_eq!(float(map.data[0]), 1.0);
    assert_eq!(float(map.data[1]), 0.0);
    assert!((float(map.data[5]) - 0.2).abs() < 1e-6);
    assert_eq!(float(map.at(9, 9)), float(map.data[5]));
}

#[test]
fn colour_is_read_as_luma_and_flagged() {
    let red = image::RgbImage::from_pixel(4, 4, image::Rgb([255, 0, 0]));
    let bytes = file(image::DynamicImage::ImageRgb8(red));
    let map = DepthMap::decode(&bytes, &arith).unwrap();
    assert!(map.was_colour);
    assert!((float(map.data[0]) - 0.299).abs() < 1e-5);
    let picture = open_picture(&bytes).unwrap();
    assert_eq!((picture.width, picture.height), (4, 4));
}

#[test]
fn a_map_must_hold_a_quad() {
    let thin = image::GrayImage::new(5, 1);
    match DepthMap::decode(&file(image::DynamicImage::ImageLuma8(thin)), &arith) {
        Err(Error::TooSmall { width, height }) => assert_eq!((width, height), (5, 1)),
        _ => panic!("one row is no relief"),
    }
}

#[test]
fn a_photo_is_stretched_onto_the_grid() {
    let mut photo = image::RgbImage::from_pixel(8, 4, image::Rgb([10, 20, 30]));
    for y in 0..4 {
        photo.put_pixel(0, y, image::Rgb([10, 20, 30]));
    }
    let bytes = file(image::DynamicImage::ImageRgb8(photo));
    let albedo = Albedo::decode(&bytes, 16, 3).unwrap();
    assert_eq!((albedo.w, albedo.h), (16, 3));
    assert_eq!(albedo.rgb.len(), 48);
    assert_eq!(albedo.at(0, 0), [10, 20, 30]);
    assert_eq!(albedo.at(15, 2), [10, 20, 30]);
    assert!(matches!(Albedo::decode(b"no photo", 4, 4), Err(Error::Decode(_))));
}

#[test]
fn channels_go_in_threes() {
    let albedo = Albedo::from_dynamic(&vec![1, 2, 3, 4, 5, 6, 7], 2, 1);
    assert_eq!(albedo.rgb, vec![[1, 2, 3], [4, 5, 6]]);
    assert_eq!(albedo.at(1, 0), [4, 5, 6]);
    // Outside the grid the nearest pixel answers.
    assert_eq!(albedo.at(7, 7), [4, 5, 6]);
    // With no pixel to answer, grey does.
    let empty = Albedo::from_dynamic(&vec![], 0, 0);
    assert_eq!(empty.at(0, 0), [0x80, 0x80, 0x80]);
}

#[test]
fn a_blur_keeps_what_is_even_and_spreads_what_is_not() {
    let even = vec![num(0.25); 20];
    for v in gaussian(&even, 5, 4, num(1.0), &arith) {
        assert!((float(v) - 0.25).abs() < 1e-6);
    }
    let mut spike = vec![num(0.0); 49];
    spike[24] = num(1.0);
    let out = gaussian(&spike, 7, 7, num(1.0), &arith);
    assert!(float(out[24]) < 0.2 && float(out[23]) > 0.05);
}

#[test]
fn depths_are_named() {
    assert_eq!(BitDepth::Eight.levels(), 256);
    assert_eq!(BitDepth::Sixteen.levels(), 65_536);
    assert_eq!(BitDepth::Eight.label(), "8-bit");
    assert_eq!(BitDepth::Sixteen.label(), "16-bit");
}

#[test]
fn a_field_answers_at_its_edge() {
    let p = Params { filter_size: 1, emboss_mm: num(10.0), ..Params::default() };
    let field = ramp(5, 3).condition(&p, &arith);
    assert_eq!(float(field.at_clamped(-4, 1)), float(field.at(0, 1)));
    assert_eq!(float(field.at_clamped(99, 99)), float(field.at(4, 2)));
    assert_eq!(float(field.depth()), 10.0);
}
