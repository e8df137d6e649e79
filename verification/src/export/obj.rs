//! Wavefront OBJ.
//!
//! ASCII, so it is the biggest of the three by a wide margin — kept because it
//! is the format every mesh tool will open, and because it can carry colour as
//! the `v x y z r g b` extension. Vertex normals are deliberately not written:
//! slicers ignore them and mesh tools recompute them.

use vstd::prelude::*;
use vstd::utf8;
use crate::export;
use crate::export::lines;
use crate::mesh;
use crate::mesh::Solid;
use crate::number;
use crate::number::{Op, Real};
use crate::text;

verus! {

/// 255.
const FULL: u32 = 0x437f_0000;

pub open spec fn header(s: Solid) -> Seq<char> {
    "# relief-forge\n# "@ + text::decimal(s.vertex_total() as nat) + " vertices, "@
        + text::decimal(s.mesh().len()) + " triangles, "@ + s.layout.units.long_name() + "\n"@
}

/// A colour channel from zero to one.
pub open spec fn channel<F: Fn(Op, Real, Real) -> Real>(f: F, c: u8) -> Real {
    number::over(f, number::whole(c as nat), Real { bits: 0x437f_0000 })
}

/// Three numbers, each behind a space.
pub open spec fn spaced<T: Fn(Real, usize) -> String>(
    fixed: T,
    a: Real,
    b: Real,
    c: Real,
) -> Seq<char> {
    " "@ + text::shown(fixed, a, 4) + " "@ + text::shown(fixed, b, 4) + " "@ + text::shown(
        fixed,
        c,
        4,
    )
}

/// A vertex line: the position, and the colour where the solid has any.
pub open spec fn vertex_line<F: Fn(Op, Real, Real) -> Real, T: Fn(Real, usize) -> String>(
    s: Solid,
    f: F,
    fixed: T,
    i: int,
) -> Seq<char> {
    let p = s.written(f, i);
    let c = s.paint(s.at(i));
    "v"@ + spaced(fixed, p.x, p.y, p.z) + (if s.albedo is Some {
        spaced(fixed, channel(f, c[0]), channel(f, c[1]), channel(f, c[2]))
    } else {
        ""@
    }) + "\n"@
}

pub open spec fn vertices<F: Fn(Op, Real, Real) -> Real, T: Fn(Real, usize) -> String>(
    s: Solid,
    f: F,
    fixed: T,
) -> spec_fn(int) -> Seq<u8> {
    |i: int| utf8::encode_utf8(vertex_line(s, f, fixed, i))
}

/// A face line: three vertices, counted from one.
pub open spec fn face_line(t: [u32; 3]) -> Seq<char> {
    "f "@ + text::decimal((t[0] + 1) as nat) + " "@ + text::decimal((t[1] + 1) as nat) + " "@
        + text::decimal((t[2] + 1) as nat) + "\n"@
}

pub open spec fn faces(s: Solid) -> spec_fn(int) -> Seq<u8> {
    |i: int| utf8::encode_utf8(face_line(s.mesh()[i]))
}

pub open spec fn file<F: Fn(Op, Real, Real) -> Real, T: Fn(Real, usize) -> String>(
    s: Solid,
    f: F,
    fixed: T,
) -> Seq<u8> {
    utf8::encode_utf8(header(s)) + export::pieces(s.vertex_total() as nat, vertices(s, f, fixed))
        + export::pieces(s.mesh().len(), faces(s))
}

pub(crate) fn put_header(solid: &Solid, out: &mut Vec<u8>)
    requires
        solid.wf(),
    ensures
        final(out)@ == old(out)@ + utf8::encode_utf8(header(*solid)),
{
    let mut r = "# relief-forge\n# ".to_owned();
    r.append(text::number_text(solid.vertex_count() as u64).as_str());
    r.append(" vertices, ");
    r.append(text::number_text(solid.triangle_count() as u64).as_str());
    r.append(" triangles, ");
    r.append(solid.layout.units.long_label());
    r.append("\n");
    export::put_text(out, r.as_str());
}

fn append_spaced<T: Fn(Real, usize) -> String>(r: &mut String, a: Real, b: Real, c: Real, fixed: &T)
    requires
        text::steady_text(*fixed),
    ensures
        final(r)@ == old(r)@ + spaced(*fixed, a, b, c),
{
    let ghost was = r@;
    r.append(" ");
    text::append_fixed(r, a, 4, fixed);
    r.append(" ");
    text::append_fixed(r, b, 4, fixed);
    r.append(" ");
    text::append_fixed(r, c, 4, fixed);
    assert(r@ =~= was + spaced(*fixed, a, b, c));
}

fn channel_of<F: Fn(Op, Real, Real) -> Real>(c: u8, arith: &F) -> (r: Real)
    requires
        number::steady(*arith),
    ensures
        r == channel(*arith, c),
{
    number::ask(arith, Op::Over, Real::from_int(c as u64), Real { bits: FULL })
}

pub(crate) fn put_vertex<F: Fn(Op, Real, Real) -> Real, T: Fn(Real, usize) -> String>(
    solid: &Solid,
    v: usize,
    out: &mut Vec<u8>,
    arith: &F,
    fixed: &T,
)
    requires
        number::steady(*arith),
        text::steady_text(*fixed),
        solid.wf(),
        v < solid.vertex_total(),
    ensures
        final(out)@ == old(out)@ + vertices(*solid, *arith, *fixed)(v as int),
{
    let p = solid.print_position(v, arith);
    let mut r = "v".to_owned();
    append_spaced(&mut r, p.x, p.y, p.z, fixed);
    if solid.has_colour() {
        let c = solid.colour(v);
        append_spaced(
            &mut r,
            channel_of(c[0], arith),
            channel_of(c[1], arith),
            channel_of(c[2], arith),
            fixed,
        );
    } else {
        r.append("");
    }
    r.append("\n");
    assert(r@ == vertex_line(*solid, *arith, *fixed, v as int));
    export::put_text(out, r.as_str());
}

pub(crate) fn put_face(out: &mut Vec<u8>, t: [u32; 3])
    ensures
        final(out)@ == old(out)@ + utf8::encode_utf8(face_line(t)),
{
    let mut r = "f ".to_owned();
    r.append(text::number_text(t[0] as u64 + 1).as_str());
    r.append(" ");
    r.append(text::number_text(t[1] as u64 + 1).as_str());
    r.append(" ");
    r.append(text::number_text(t[2] as u64 + 1).as_str());
    r.append("\n");
    export::put_text(out, r.as_str());
}

/// Vertices in face lines are counted from one and exist.
pub proof fn law_faces_in_range(s: Solid, i: int, k: int)
    requires
        s.wf(),
        0 <= i < s.mesh().len(),
        0 <= k < 3,
    ensures
        1 <= s.mesh()[i][k] + 1 <= s.vertex_total(),
{
    mesh::law_watertight(s);
}

// ---------------------------------------------------------------------------
// Lines
// ---------------------------------------------------------------------------

/// A vertex line without its end.
pub open spec fn vertex_row<F: Fn(Op, Real, Real) -> Real, T: Fn(Real, usize) -> String>(
    s: Solid,
    f: F,
    fixed: T,
    i: int,
) -> Seq<char> {
    vertex_line(s, f, fixed, i).drop_last()
}

/// A face line without its end.
pub open spec fn face_row(t: [u32; 3]) -> Seq<char> {
    face_line(t).drop_last()
}

/// The two comment lines at the top.
pub open spec fn comments(s: Solid) -> Seq<Seq<char>> {
    seq![
        "# relief-forge"@,
        "# "@ + text::decimal(s.vertex_total() as nat) + " vertices, "@ + text::decimal(
            s.mesh().len(),
        ) + " triangles, "@ + s.layout.units.long_name(),
    ]
}

/// The lines of a file: two comments, the vertices in index order, and the
/// triangles in their order.
pub open spec fn rows<F: Fn(Op, Real, Real) -> Real, T: Fn(Real, usize) -> String>(
    s: Solid,
    f: F,
    fixed: T,
) -> Seq<Seq<char>> {
    comments(s) + Seq::new(s.vertex_total() as nat, |i: int| vertex_row(s, f, fixed, i)) + Seq::new(
        s.mesh().len(),
        |k: int| face_row(s.mesh()[k]),
    )
}

/// The text begins with this character and a space.
pub open spec fn begins(t: Seq<char>, c: char) -> bool {
    t.len() >= 2 && t[0] == c && t[1] == ' '
}

proof fn lemma_space()
    ensures
        " "@ == seq![' '],
        text::unbroken(" "@),
{
    reveal_strlit(" ");
    assert(" "@ =~= seq![' ']);
}

proof fn lemma_spaced<T: Fn(Real, usize) -> String>(fixed: T, a: Real, b: Real, c: Real)
    requires
        text::steady_text(fixed),
    ensures
        text::unbroken(spaced(fixed, a, b, c)),
        spaced(fixed, a, b, c).len() >= 1,
        spaced(fixed, a, b, c)[0] == ' ',
{
    lemma_space();
    let (x, y, z) = (text::shown(fixed, a, 4), text::shown(fixed, b, 4), text::shown(fixed, c, 4));
    let t = " "@;
    lines::lemma_unbroken(t, x);
    lines::lemma_unbroken(t + x, t);
    lines::lemma_unbroken(t + x + t, y);
    lines::lemma_unbroken(t + x + t + y, t);
    lines::lemma_unbroken(t + x + t + y + t, z);
}

proof fn lemma_vertex_row<F: Fn(Op, Real, Real) -> Real, T: Fn(Real, usize) -> String>(
    s: Solid,
    f: F,
    fixed: T,
    i: int,
)
    requires
        text::steady_text(fixed),
    ensures
        text::unbroken(vertex_row(s, f, fixed, i)),
        begins(vertex_row(s, f, fixed, i), 'v'),
        vertex_line(s, f, fixed, i) == vertex_row(s, f, fixed, i).push('\n'),
{
    reveal_strlit("v");
    reveal_strlit("");
    reveal_strlit("\n");
    let p = s.written(f, i);
    let c = s.paint(s.at(i));
    let a = spaced(fixed, p.x, p.y, p.z);
    let b = spaced(fixed, channel(f, c[0]), channel(f, c[1]), channel(f, c[2]));
    lemma_spaced(fixed, p.x, p.y, p.z);
    lemma_spaced(fixed, channel(f, c[0]), channel(f, c[1]), channel(f, c[2]));
    let e = if s.albedo is Some {
        b
    } else {
        ""@
    };
    let t = "v"@ + a + e;
    lines::lemma_unbroken("v"@, a);
    lines::lemma_unbroken("v"@ + a, e);
    assert(vertex_line(s, f, fixed, i) =~= t.push('\n'));
    assert(vertex_row(s, f, fixed, i) =~= t);
}

proof fn lemma_face_row(t: [u32; 3])
    ensures
        text::unbroken(face_row(t)),
        begins(face_row(t), 'f'),
        face_line(t) == face_row(t).push('\n'),
{
    reveal_strlit("f ");
    reveal_strlit("\n");
    lemma_space();
    let (x, y, z) = (
        text::decimal((t[0] + 1) as nat),
        text::decimal((t[1] + 1) as nat),
        text::decimal((t[2] + 1) as nat),
    );
    lines::lemma_decimal((t[0] + 1) as nat);
    lines::lemma_decimal((t[1] + 1) as nat);
    lines::lemma_decimal((t[2] + 1) as nat);
    let p = "f "@;
    let q = " "@;
    lines::lemma_unbroken(p, x);
    lines::lemma_unbroken(p + x, q);
    lines::lemma_unbroken(p + x + q, y);
    lines::lemma_unbroken(p + x + q + y, q);
    lines::lemma_unbroken(p + x + q + y + q, z);
    let r = p + x + q + y + q + z;
    assert(face_line(t) =~= r.push('\n'));
    assert(face_row(t) =~= r);
}

proof fn lemma_comments(s: Solid)
    ensures
        text::unbroken(comments(s)[0]),
        text::unbroken(comments(s)[1]),
        begins(comments(s)[0], '#'),
        begins(comments(s)[1], '#'),
        header(s) == lines::ended(comments(s)),
{
    reveal_strlit("# relief-forge");
    reveal_strlit("# relief-forge\n# ");
    reveal_strlit("# ");
    reveal_strlit(" vertices, ");
    reveal_strlit(" triangles, ");
    reveal_strlit("millimetres");
    reveal_strlit("inches");
    reveal_strlit("\n");
    let unit = s.layout.units.long_name();
    let (v, n) = (text::decimal(s.vertex_total() as nat), text::decimal(s.mesh().len()));
    lines::lemma_decimal(s.vertex_total() as nat);
    lines::lemma_decimal(s.mesh().len());
    lines::lemma_unbroken("# "@, v);
    lines::lemma_unbroken("# "@ + v, " vertices, "@);
    lines::lemma_unbroken("# "@ + v + " vertices, "@, n);
    lines::lemma_unbroken("# "@ + v + " vertices, "@ + n, " triangles, "@);
    lines::lemma_unbroken("# "@ + v + " vertices, "@ + n + " triangles, "@, unit);
    let c = comments(s);
    assert("# relief-forge\n# "@ =~= "# relief-forge"@.push('\n') + "# "@);
    reveal_with_fuel(lines::ended, 3);
    assert(c.drop_last() =~= seq![c[0]]);
    assert(c.drop_last().drop_last() =~= Seq::empty());
    assert(lines::ended(c) =~= c[0].push('\n') + c[1].push('\n'));
    assert(header(s) =~= c[0].push('\n') + c[1].push('\n'));
}

/// The file is its lines.
proof fn lemma_text<F: Fn(Op, Real, Real) -> Real, T: Fn(Real, usize) -> String>(
    s: Solid,
    f: F,
    fixed: T,
)
    requires
        s.vertex_total() >= 0,
        text::steady_text(fixed),
    ensures
        file(s, f, fixed) == utf8::encode_utf8(lines::ended(rows(s, f, fixed))),
{
    let (v, n) = (s.vertex_total(), s.mesh().len());
    let m = s.mesh();
    let a = comments(s);
    let b = Seq::new(v as nat, |i: int| vertex_row(s, f, fixed, i));
    let c = Seq::new(n, |k: int| face_row(m[k]));
    lemma_comments(s);
    assert forall|i: int| 0 <= i < v implies #[trigger] (vertices(s, f, fixed))(i)
        == utf8::encode_utf8(b[i].push('\n')) by {
        lemma_vertex_row(s, f, fixed, i);
    }
    assert forall|k: int| 0 <= k < n implies #[trigger] (faces(s))(k) == utf8::encode_utf8(
        c[k].push('\n'),
    ) by {
        lemma_face_row(m[k]);
    }
    lines::lemma_pieces(v as nat, vertices(s, f, fixed), b);
    lines::lemma_pieces(n, faces(s), c);
    lines::lemma_encoded(lines::ended(a), lines::ended(b));
    lines::lemma_encoded(lines::ended(a) + lines::ended(b), lines::ended(c));
    lines::lemma_ended(a, b);
    lines::lemma_ended(a + b, c);
}

/// What the lines begin with.
proof fn lemma_rows<F: Fn(Op, Real, Real) -> Real, T: Fn(Real, usize) -> String>(
    s: Solid,
    f: F,
    fixed: T,
    j: int,
)
    requires
        s.vertex_total() >= 0,
        text::steady_text(fixed),
        0 <= j < 2 + s.vertex_total() + s.mesh().len(),
    ensures
        ({
            let t = rows(s, f, fixed)[j];
            let v = s.vertex_total();
            &&& text::unbroken(t)
            &&& begins(t, 'v') <==> 2 <= j < 2 + v
            &&& begins(t, 'f') <==> 2 + v <= j
            &&& j >= 2 + v ==> t == face_row(s.mesh()[j - 2 - v])
        }),
{
    let l = rows(s, f, fixed);
    let v = s.vertex_total();
    lemma_comments(s);
    if j < 2 {
        assert(l[j] == comments(s)[j]);
    } else if j < 2 + v {
        assert(l[j] == vertex_row(s, f, fixed, j - 2));
        lemma_vertex_row(s, f, fixed, j - 2);
    } else {
        assert(l[j] == face_row(s.mesh()[j - 2 - v]));
        lemma_face_row(s.mesh()[j - 2 - v]);
    }
}

proof fn lemma_some_vertices(s: Solid)
    requires
        s.wf(),
    ensures
        s.vertex_total() >= 0,
{
    s.lemma_surface();
}

/// The file is text: two comment lines, then a line `v` for every vertex, then a
/// line `f` for every triangle, in their orders, the corners of triangle `k`
/// counted from one in line `k`.
pub proof fn law_lines<F: Fn(Op, Real, Real) -> Real, T: Fn(Real, usize) -> String>(
    s: Solid,
    f: F,
    fixed: T,
    j: int,
)
    requires
        s.wf(),
        text::steady_text(fixed),
        0 <= j < 2 + s.vertex_total() + s.mesh().len(),
    ensures
        utf8::valid_utf8(file(s, f, fixed)),
        ({
            let l = lines::lines(utf8::decode_utf8(file(s, f, fixed)));
            let v = s.vertex_total();
            &&& l == rows(s, f, fixed)
            &&& l.len() == 2 + v + s.mesh().len()
            &&& begins(l[j], 'v') <==> 2 <= j < 2 + v
            &&& begins(l[j], 'f') <==> 2 + v <= j
            &&& j >= 2 + v ==> l[j] == face_row(s.mesh()[j - 2 - v])
        }),
{
    lemma_some_vertices(s);
    lemma_lined(s, f, fixed);
    lemma_rows(s, f, fixed, j);
}

proof fn lemma_lined<F: Fn(Op, Real, Real) -> Real, T: Fn(Real, usize) -> String>(
    s: Solid,
    f: F,
    fixed: T,
)
    requires
        s.vertex_total() >= 0,
        text::steady_text(fixed),
    ensures
        utf8::valid_utf8(file(s, f, fixed)),
        lines::lines(utf8::decode_utf8(file(s, f, fixed))) == rows(s, f, fixed),
        rows(s, f, fixed).len() == 2 + s.vertex_total() + s.mesh().len(),
{
    let l = rows(s, f, fixed);
    let t = lines::ended(l);
    lemma_text(s, f, fixed);
    utf8::encode_utf8_valid_utf8(t);
    utf8::encode_utf8_decode_utf8(t);
    assert forall|j: int| 0 <= j < l.len() implies text::unbroken(#[trigger] l[j]) by {
        lemma_rows(s, f, fixed, j);
    }
    lines::lemma_lines(l);
}

} // verus!
