//! Binary little-endian PLY.
//!
//! Indexed, so a vertex is stored once, and it carries per-vertex colour — the
//! two things STL cannot do.

use vstd::prelude::*;
use vstd::utf8;
use crate::export;
use crate::mesh::Solid;
use crate::number;
use crate::number::{Op, Real};
use crate::text;

verus! {

pub open spec fn header(s: Solid) -> Seq<char> {
    "ply\nformat binary_little_endian 1.0\ncomment relief-forge\nelement vertex "@ + text::decimal(
        s.vertex_total() as nat,
    ) + "\nproperty float x\nproperty float y\nproperty float z\n"@ + (if s.albedo is Some {
        "property uchar red\nproperty uchar green\nproperty uchar blue\n"@
    } else {
        ""@
    }) + "element face "@ + text::decimal(s.mesh().len())
        + "\nproperty list uchar int vertex_indices\nend_header\n"@
}

/// Bytes per vertex.
pub open spec fn stride(s: Solid) -> nat {
    if s.albedo is Some {
        15
    } else {
        12
    }
}

/// A vertex: its position, and its colour where the solid has any.
pub open spec fn vertices<F: Fn(Op, Real, Real) -> Real>(s: Solid, f: F) -> spec_fn(int) -> Seq<
    u8,
> {
    |i: int|
        export::triple(s.written(f, i)) + (if s.albedo is Some {
            s.paint(s.at(i))@
        } else {
            Seq::empty()
        })
}

/// A face: three indices behind their count.
pub open spec fn face(t: [u32; 3]) -> Seq<u8> {
    seq![3u8] + export::word(t[0]) + export::word(t[1]) + export::word(t[2])
}

pub open spec fn faces(s: Solid) -> spec_fn(int) -> Seq<u8> {
    |i: int| face(s.mesh()[i])
}

pub open spec fn file<F: Fn(Op, Real, Real) -> Real>(s: Solid, f: F) -> Seq<u8> {
    utf8::encode_utf8(header(s)) + export::pieces(s.vertex_total() as nat, vertices(s, f))
        + export::pieces(s.mesh().len(), faces(s))
}

/// The text above the data.
pub fn header_text(solid: &Solid) -> (r: String)
    requires
        solid.wf(),
    ensures
        r@ == header(*solid),
{
    let mut r =
        "ply\nformat binary_little_endian 1.0\ncomment relief-forge\nelement vertex ".to_owned();
    r.append(text::number_text(solid.vertex_count() as u64).as_str());
    r.append("\nproperty float x\nproperty float y\nproperty float z\n");
    if solid.has_colour() {
        r.append("property uchar red\nproperty uchar green\nproperty uchar blue\n");
    } else {
        r.append("");
    }
    r.append("element face ");
    r.append(text::number_text(solid.triangle_count() as u64).as_str());
    r.append("\nproperty list uchar int vertex_indices\nend_header\n");
    r
}

pub(crate) fn put_vertex<F: Fn(Op, Real, Real) -> Real>(
    solid: &Solid,
    v: usize,
    out: &mut Vec<u8>,
    arith: &F,
)
    requires
        number::steady(*arith),
        solid.wf(),
        v < solid.vertex_total(),
    ensures
        final(out)@ == old(out)@ + vertices(*solid, *arith)(v as int),
{
    let ghost was = out@;
    export::put_triple(out, solid.print_position(v, arith));
    if solid.has_colour() {
        let c = solid.colour(v);
        out.push(c[0]);
        out.push(c[1]);
        out.push(c[2]);
    }
    assert(out@ =~= was + vertices(*solid, *arith)(v as int));
}

pub(crate) fn put_face(out: &mut Vec<u8>, t: [u32; 3])
    ensures
        final(out)@ == old(out)@ + face(t),
{
    let ghost was = out@;
    out.push(3);
    export::put_word(out, t[0]);
    export::put_word(out, t[1]);
    export::put_word(out, t[2]);
    assert(out@ =~= was + face(t));
}

pub proof fn lemma_header_len(s: Solid)
    requires
        s.wf(),
    ensures
        utf8::encode_utf8(header(s)).len() <= 0x100_0000_0000,
{
    s.lemma_counts();
    reveal_strlit(
        "ply\nformat binary_little_endian 1.0\ncomment relief-forge\nelement vertex ",
    );
    reveal_strlit("\nproperty float x\nproperty float y\nproperty float z\n");
    reveal_strlit("property uchar red\nproperty uchar green\nproperty uchar blue\n");
    reveal_strlit("");
    reveal_strlit("element face ");
    reveal_strlit("\nproperty list uchar int vertex_indices\nend_header\n");
    text::lemma_decimal_len(s.vertex_total() as nat);
    text::lemma_decimal_len(s.mesh().len());
    text::lemma_encoded_len(header(s));
}

/// The file is as long as its counts say: behind the header, 12 bytes a vertex,
/// or 15 with colour, and 13 a triangle.
pub proof fn law_size<F: Fn(Op, Real, Real) -> Real>(s: Solid, f: F)
    requires
        s.wf(),
    ensures
        file(s, f).len() == utf8::encode_utf8(header(s)).len() + s.vertex_total() * stride(s)
            + s.mesh().len() * 13,
{
    assert(s.vertex_total() >= 0) by {
        s.lemma_counts();
    }
    lemma_parts(
        utf8::encode_utf8(header(s)),
        s.vertex_total() as nat,
        vertices(s, f),
        stride(s),
        s.mesh().len(),
        faces(s),
    );
}

/// Where the parts of a file lie whose records have one length each.
proof fn lemma_parts(
    head: Seq<u8>,
    v: nat,
    vertex: spec_fn(int) -> Seq<u8>,
    stride: nat,
    t: nat,
    face: spec_fn(int) -> Seq<u8>,
)
    requires
        forall|i: int| 0 <= i < v ==> (#[trigger] vertex(i)).len() == stride,
        forall|i: int| 0 <= i < t ==> (#[trigger] face(i)).len() == 13,
    ensures
        ({
            let r = head + export::pieces(v, vertex) + export::pieces(t, face);
            let at = head.len() + v * stride;
            &&& r.len() == at + t * 13
            &&& forall|i: int|
                0 <= i < t ==> 0 <= at + 13 * i && at + 13 * i + 13 <= r.len() && r.subrange(
                    at + 13 * i,
                    at + 13 * i + 13,
                ) == #[trigger] face(i)
        }),
{
    export::lemma_pieces_len(v, vertex, stride);
    export::lemma_pieces_len(t, face, 13);
    let top = head + export::pieces(v, vertex);
    let body = export::pieces(t, face);
    assert forall|i: int| 0 <= i < t implies 0 <= top.len() + 13 * i && top.len() + 13 * i + 13 <= (
    top + body).len() && (top + body).subrange(top.len() + 13 * i, top.len() + 13 * i + 13)
        == #[trigger] face(i) by {
        export::lemma_piece_at(t, face, 13, i);
        assert((top + body).subrange(top.len() + 13 * i, top.len() + 13 * i + 13)
            =~= body.subrange(13 * i, 13 * i + 13));
    }
}

/// Where a vertex lies in such a file.
proof fn lemma_vertex_at(
    head: Seq<u8>,
    v: nat,
    vertex: spec_fn(int) -> Seq<u8>,
    stride: nat,
    tail: Seq<u8>,
    i: int,
)
    requires
        forall|k: int| 0 <= k < v ==> (#[trigger] vertex(k)).len() == stride,
        0 <= i < v,
    ensures
        ({
            let r = head + export::pieces(v, vertex) + tail;
            let at = head.len() + i * stride;
            &&& 0 <= at
            &&& at + stride <= r.len()
            &&& r.subrange(at, at + stride) == vertex(i)
        }),
{
    export::lemma_pieces_len(v, vertex, stride);
    export::lemma_piece_at(v, vertex, stride, i);
    let middle = export::pieces(v, vertex);
    let r = head + middle + tail;
    let at = head.len() + i * stride;
    assert(r.subrange(at, at + stride) =~= middle.subrange(i * stride, i * stride + stride));
}

/// Every vertex is read back, in order, from where the sizes say: its position,
/// and its colour where the solid has any.
pub proof fn law_vertices_read_back<F: Fn(Op, Real, Real) -> Real>(s: Solid, f: F, i: int)
    requires
        s.wf(),
        0 <= i < s.vertex_total(),
    ensures
        ({
            let at = utf8::encode_utf8(header(s)).len() + i * stride(s);
            &&& 0 <= at
            &&& at + stride(s) <= file(s, f).len()
            &&& file(s, f).subrange(at, at + stride(s)) == vertices(s, f)(i)
        }),
{
    lemma_vertex_at(
        utf8::encode_utf8(header(s)),
        s.vertex_total() as nat,
        vertices(s, f),
        stride(s),
        export::pieces(s.mesh().len(), faces(s)),
        i,
    );
}

/// Every face is read back, in order, from where the sizes say.
pub proof fn law_faces_read_back<F: Fn(Op, Real, Real) -> Real>(s: Solid, f: F, i: int)
    requires
        s.wf(),
        0 <= i < s.mesh().len(),
    ensures
        ({
            let at = utf8::encode_utf8(header(s)).len() + s.vertex_total() * stride(s) + 13 * i;
            &&& 0 <= at
            &&& at + 13 <= file(s, f).len()
            &&& file(s, f).subrange(at, at + 13) == face(s.mesh()[i])
        }),
{
    assert(s.vertex_total() >= 0) by {
        s.lemma_counts();
    }
    lemma_parts(
        utf8::encode_utf8(header(s)),
        s.vertex_total() as nat,
        vertices(s, f),
        stride(s),
        s.mesh().len(),
        faces(s),
    );
    assert(faces(s)(i) == face(s.mesh()[i]));
}

} // verus!
