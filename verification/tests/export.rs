//! Mesh files.

use relief_core::decimate::Decimation;
use relief_core::depth::{Albedo, BitDepth, HeightField};
use relief_core::export::stream::Stream;
use relief_core::export::{self, to_vec, Format};
use relief_core::mesh::Solid;
use relief_core::number::{Op, Real};
use relief_core::params::{Params, Units};

fn arith(op: Op, a: Real, b: Real) -> Real {
    let (x, y) = (f32::from_bits(a.bits), f32::from_bits(b.bits));
    let r = match op {
        Op::Plus => x + y,
        Op::Minus => x - y,
        Op::Times => x * y,
        Op::Over => x / y,
        Op::Root => x.sqrt(),
        Op::Exp => x.exp(),
        Op::Round => x.round(),
        Op::Floor => x.floor(),
    };
    num(r)
}

fn num(x: f32) -> Real {
    Real { bits: x.to_bits() }
}

fn float(r: Real) -> f32 {
    f32::from_bits(r.bits)
}

fn fixed(x: Real, places: usize) -> String {
    format!("{:.*}", places, f32::from_bits(x.bits))
}

fn solid_fixture() -> (HeightField, Params) {
    let (w, h) = (9usize, 5usize);
    let z = (0..w * h)
        .map(|k| {
            let (i, j) = (k % w, k / w);
            num(-0.15 * ((i as f32 / 8.0) + (j as f32 / 4.0)) / 2.0)
        })
        .collect();
    (HeightField { w, h, z, bits: BitDepth::Sixteen }, Params::default())
}

#[test]
fn stl_size_is_exactly_what_the_estimate_says() {
    let (field, params) = solid_fixture();
    let solid = Solid::new(&field, &params, &arith);
    let bytes = to_vec(Format::Stl, &solid, &arith, &fixed);
    assert_eq!(bytes.len() as u64, Format::Stl.estimated_bytes(&solid));

    // The count in the header must match the body.
    let count = u32::from_le_bytes(bytes[80..84].try_into().unwrap());
    assert_eq!(count as usize, solid.triangle_count());
    assert_eq!(bytes.len(), 84 + 50 * count as usize);
}

#[test]
fn ply_size_is_exactly_what_the_estimate_says() {
    let (field, params) = solid_fixture();
    let solid = Solid::new(&field, &params, &arith);
    let bytes = to_vec(Format::Ply, &solid, &arith, &fixed);
    // The header is the only variable-length part, so compare the body.
    let header_end = bytes.windows(11).position(|w| w == b"end_header\n").unwrap() + 11;
    let body = bytes.len() - header_end;
    let expect = solid.vertex_count() * 12 + solid.triangle_count() * 13;
    assert_eq!(body, expect);
    assert_eq!(bytes.len() as u64, Format::Ply.estimated_bytes(&solid));
}

#[test]
fn obj_round_trips_its_own_counts() {
    let (field, params) = solid_fixture();
    let solid = Solid::new(&field, &params, &arith);
    let text = String::from_utf8(to_vec(Format::Obj, &solid, &arith, &fixed)).unwrap();
    let vs = text.lines().filter(|l| l.starts_with("v ")).count();
    let fs = text.lines().filter(|l| l.starts_with("f ")).count();
    assert_eq!(vs, solid.vertex_count());
    assert_eq!(fs, solid.triangle_count());
    // Indices are 1-based and in range.
    for line in text.lines().filter(|l| l.starts_with("f ")) {
        for index in line[2..].split_whitespace() {
            let index: usize = index.parse().unwrap();
            assert!(index >= 1 && index <= vs, "index {index} out of range");
        }
    }
}

#[test]
fn progress_ends_at_one() {
    let (field, params) = solid_fixture();
    let solid = Solid::new(&field, &params, &arith);
    for format in Format::all() {
        let mut marks = Vec::new();
        let mut sink = Vec::new();
        export::write(format, &solid, &mut sink, &mut marks, &arith, &fixed);
        let mut last = 0.0;
        for m in marks {
            let t = m.done as f32 / m.total as f32;
            assert!((0.0..=1.0).contains(&t), "{format:?} reported {t}");
            last = t;
        }
        assert!((last - 1.0f32).abs() < 1e-6, "{format:?} finished at {last}, not 1.0");
    }
}

#[test]
fn chunks_make_up_the_file() {
    let (w, h) = (81usize, 65usize);
    let z = (0..w * h).map(|k| num(-((k % w) as f32 / 20.0).floor())).collect();
    let field = HeightField { w, h, z, bits: BitDepth::Sixteen };
    let params = Params::default();
    let simple = Decimation::build(&field, num(0.01), &arith).expect("on");
    for decimation in [None, Some(&simple)] {
        let solid = Solid::new(&field, &params, &arith).with_decimation(decimation);
        for format in Format::all() {
            let (mut whole, mut reports) = (Vec::new(), Vec::new());
            export::write(format, &solid, &mut whole, &mut reports, &arith, &fixed);
            let mut stream = Stream::new(format, &solid);
            let (mut bytes, mut marks) = (Vec::new(), Vec::new());
            let (mut chunk, mut some) = (Vec::new(), Vec::new());
            let mut largest = 0;
            while stream.next(&solid, &mut chunk, &mut some, &arith, &fixed) {
                largest = largest.max(chunk.len());
                bytes.append(&mut chunk);
                marks.append(&mut some);
            }
            assert!(bytes == whole, "{format:?}");
            assert_eq!(marks, reports);
            assert!(largest < whole.len());
            assert_eq!(whole, to_vec(format, &solid, &arith, &fixed));
            assert!(!stream.next(&solid, &mut chunk, &mut some, &arith, &fixed));
            assert!(chunk.is_empty() && some.is_empty());
        }
    }
}

#[test]
fn an_stl_record_holds_the_facet() {
    let (field, params) = solid_fixture();
    let solid = Solid::new(&field, &params, &arith);
    let bytes = to_vec(Format::Stl, &solid, &arith, &fixed);
    assert_eq!(&bytes[..23], b"relief-forge binary STL");
    assert!(bytes[23..80].iter().all(|&b| b == 0));
    let mut facets = Vec::new();
    solid.for_each_facet(&mut facets, &mut Vec::new(), &arith);
    let at = 84 + 50 * 5;
    let word = |k: usize| u32::from_le_bytes(bytes[at + 4 * k..at + 4 * k + 4].try_into().unwrap());
    assert_eq!(word(0), facets[5].normal.x.bits);
    assert_eq!(word(2), facets[5].normal.z.bits);
    assert_eq!(word(3), facets[5].a.x.bits);
    assert_eq!(word(11), facets[5].c.z.bits);
    assert_eq!(&bytes[at + 48..at + 50], &[0, 0]);
}

#[test]
fn a_ply_gives_its_vertices_back() {
    let (field, params) = solid_fixture();
    let solid = Solid::new(&field, &params, &arith);
    let bytes = to_vec(Format::Ply, &solid, &arith, &fixed);
    let header = bytes.windows(11).position(|w| w == b"end_header\n").unwrap() + 11;
    for v in 0..solid.vertex_count() {
        let at = header + 12 * v;
        let word = |k: usize| {
            u32::from_le_bytes([bytes[at + k], bytes[at + k + 1], bytes[at + k + 2], bytes[at + k + 3]])
        };
        let p = solid.print_position(v, &arith);
        assert_eq!([word(0), word(4), word(8)], [p.x.bits, p.y.bits, p.z.bits]);
    }
}

#[test]
fn a_ply_with_colour_says_so() {
    let (field, params) = solid_fixture();
    let albedo = Albedo::from_dynamic(&vec![7; 3 * 45], 9, 5);
    let solid = Solid::new(&field, &params, &arith).with_albedo(Some(&albedo));
    let bytes = to_vec(Format::Ply, &solid, &arith, &fixed);
    let end = bytes.windows(11).position(|w| w == b"end_header\n").unwrap() + 11;
    let header = String::from_utf8(bytes[..end].to_vec()).unwrap();
    assert_eq!(
        header,
        format!(
            "ply\nformat binary_little_endian 1.0\ncomment relief-forge\nelement vertex {}\n\
             property float x\nproperty float y\nproperty float z\n\
             property uchar red\nproperty uchar green\nproperty uchar blue\n\
             element face {}\nproperty list uchar int vertex_indices\nend_header\n",
            solid.vertex_count(),
            solid.triangle_count()
        )
    );
    assert_eq!(&bytes[end + 12..end + 15], &[7, 7, 7]);
    assert_eq!(bytes.len() as u64, Format::Ply.estimated_bytes(&solid));
    let mut triangles = Vec::new();
    solid.for_each_triangle(&mut triangles, &mut Vec::new());
    let face = end + 15 * solid.vertex_count() + 13 * 3;
    assert_eq!(bytes[face], 3);
    assert_eq!(
        u32::from_le_bytes(bytes[face + 1..face + 5].try_into().unwrap()),
        triangles[3][0]
    );
}

#[test]
fn an_obj_line_has_four_decimals() {
    let (field, params) = solid_fixture();
    let albedo = Albedo::from_dynamic(&vec![255; 3 * 45], 9, 5);
    let solid = Solid::new(&field, &params, &arith).with_albedo(Some(&albedo));
    let text = String::from_utf8(to_vec(Format::Obj, &solid, &arith, &fixed)).unwrap();
    let mut lines = text.lines();
    assert_eq!(lines.next(), Some("# relief-forge"));
    assert_eq!(
        lines.next().unwrap(),
        format!(
            "# {} vertices, {} triangles, millimetres",
            solid.vertex_count(),
            solid.triangle_count()
        )
    );
    let p = solid.print_position(0, &arith);
    assert_eq!(
        lines.next().unwrap(),
        format!(
            "v {:.4} {:.4} {:.4} 1.0000 1.0000 1.0000",
            float(p.x),
            float(p.y),
            float(p.z)
        )
    );
    assert!(Format::Obj.estimated_bytes(&solid) > 0);
}

#[test]
fn formats_are_named() {
    assert_eq!(Format::all(), [Format::Stl, Format::Ply, Format::Obj]);
    assert_eq!(Format::Stl.extension(), "stl");
    assert_eq!(Format::Ply.label(), "PLY");
    assert_eq!(Format::Obj.extension(), "obj");
    assert!(!Format::Stl.carries_colour());
    assert!(Format::Obj.carries_colour());
}

#[test]
fn an_obj_lists_vertices_then_triangles() {
    let (field, params) = solid_fixture();
    let solid = Solid::new(&field, &params, &arith);
    let text = String::from_utf8(to_vec(Format::Obj, &solid, &arith, &fixed)).unwrap();
    let (mut all, mut reports) = (Vec::new(), Vec::new());
    solid.for_each_triangle(&mut all, &mut reports);
    let lines: Vec<&str> = text.lines().collect();
    let v = solid.vertex_count();
    assert_eq!(lines.len(), 2 + v + all.len());
    assert!(lines[..2].iter().all(|l| l.starts_with("# ")));
    assert!(lines[2..2 + v].iter().all(|l| l.starts_with("v ")));
    for (line, t) in lines[2 + v..].iter().zip(&all) {
        assert_eq!(*line, format!("f {} {} {}", t[0] + 1, t[1] + 1, t[2] + 1));
    }
}

#[test]
fn an_obj_names_its_unit() {
    let (field, params) = solid_fixture();
    for (units, name) in [(Units::Mm, "millimetres"), (Units::In, "inches")] {
        let solid = Solid::new(&field, &Params { units, ..params }, &arith);
        let text = String::from_utf8(to_vec(Format::Obj, &solid, &arith, &fixed)).unwrap();
        let line = text.lines().nth(1).unwrap();
        assert!(line.ends_with(&format!(" triangles, {name}")), "{line}");
    }
}

#[test]
fn chunks_do_not_grow_with_the_area() {
    let (w, h) = (200usize, 150usize);
    let field =
        HeightField { w, h, z: vec![num(-1.0); w * h], bits: BitDepth::Sixteen };
    let solid = Solid::new(&field, &Params::default(), &arith);
    for format in [Format::Stl, Format::Ply] {
        let mut stream = Stream::new(format, &solid);
        let (mut chunk, mut marks) = (Vec::new(), Vec::new());
        while stream.next(&solid, &mut chunk, &mut marks, &arith, &fixed) {
            assert!(chunk.len() <= 15 * 4096 + 50 * 14 * (w + h));
            chunk.clear();
        }
    }
}
