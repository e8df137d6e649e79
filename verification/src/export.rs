//! Mesh files.
//!
//! Every exporter lists the vertices of a [`Solid`] in index order and its
//! triangles in their fixed order, so the same solid always gives the same
//! bytes. A file comes in chunks ([`stream`]), or whole.
//!
//! | Format | Colour | Size per triangle | Notes |
//! |--------|--------|-------------------|-------|
//! | STL    | no     | 50 bytes          | What every slicer wants. No indices. |
//! | PLY    | yes    | 13 bytes + verts  | Binary, indexed, carries vertex colour. |
//! | OBJ    | yes    | ~24 bytes + verts | ASCII, so the largest. |

use vstd::prelude::*;
use vstd::utf8;
use crate::export::stream::Stream;
use crate::mesh;
use crate::mesh::Solid;
use crate::number;
use crate::number::{Op, Real};
use crate::progress::Fraction;
use crate::text;
use crate::vector::Vector;

pub mod lines;
pub mod obj;
pub mod ply;
pub mod stl;
pub mod stream;

verus! {

#[derive(Debug, Clone, Copy, PartialEq, Eq, Structural)]
pub enum Format {
    Stl,
    Obj,
    Ply,
}

// ---------------------------------------------------------------------------
// Bytes
// ---------------------------------------------------------------------------

/// A 32-bit number, lowest byte first.
pub open spec fn word(x: u32) -> Seq<u8> {
    seq![
        (x % 256) as u8,
        (x / 256 % 256) as u8,
        (x / 0x1_0000 % 256) as u8,
        (x / 0x100_0000) as u8,
    ]
}

/// Three coordinates.
pub open spec fn triple(v: Vector) -> Seq<u8> {
    word(v.x.bits) + word(v.y.bits) + word(v.z.bits)
}

/// `n` pieces, one behind the other.
pub open spec fn pieces(n: nat, piece: spec_fn(int) -> Seq<u8>) -> Seq<u8>
    decreases n,
{
    if n == 0 {
        Seq::empty()
    } else {
        pieces((n - 1) as nat, piece) + piece(n - 1)
    }
}

/// Pieces of one length take that length each.
pub proof fn lemma_pieces_len(n: nat, piece: spec_fn(int) -> Seq<u8>, len: nat)
    requires
        forall|i: int| 0 <= i < n ==> (#[trigger] piece(i)).len() == len,
    ensures
        pieces(n, piece).len() == n * len,
    decreases n,
{
    if n > 0 {
        lemma_pieces_len((n - 1) as nat, piece, len);
        assert(n * len == (n - 1) * len + len) by (nonlinear_arith)
            requires
                n >= 1,
        ;
    } else {
        assert(n * len == 0) by (nonlinear_arith)
            requires
                n == 0,
        ;
    }
}

/// Pieces of one length are found where that length says.
pub proof fn lemma_piece_at(n: nat, piece: spec_fn(int) -> Seq<u8>, len: nat, i: int)
    requires
        forall|k: int| 0 <= k < n ==> (#[trigger] piece(k)).len() == len,
        0 <= i < n,
    ensures
        0 <= i * len,
        i * len + len <= pieces(n, piece).len(),
        pieces(n, piece).subrange(i * len, i * len + len) == piece(i),
    decreases n,
{
    let last = (n - 1) as nat;
    lemma_pieces_len(last, piece, len);
    assert(piece(last as int).len() == len);
    assert(0 <= i * len) by (nonlinear_arith)
        requires
            i >= 0,
            len >= 0,
    ;
    if i < n - 1 {
        lemma_piece_at(last, piece, len, i);
        assert(pieces(n, piece).subrange(i * len, i * len + len) =~= pieces(last, piece).subrange(
            i * len,
            i * len + len,
        ));
    } else {
        assert(pieces(n, piece).subrange(i * len, i * len + len) =~= piece(i));
    }
}

pub(crate) fn put_word(out: &mut Vec<u8>, x: u32)
    ensures
        final(out)@ == old(out)@ + word(x),
{
    let ghost was = out@;
    out.push((x % 256) as u8);
    out.push((x / 256 % 256) as u8);
    out.push((x / 0x1_0000 % 256) as u8);
    out.push((x / 0x100_0000) as u8);
    assert(out@ =~= was + word(x));
}

pub(crate) fn put_triple(out: &mut Vec<u8>, v: Vector)
    ensures
        final(out)@ == old(out)@ + triple(v),
{
    let ghost was = out@;
    put_word(out, v.x.to_bits());
    put_word(out, v.y.to_bits());
    put_word(out, v.z.to_bits());
    assert(out@ =~= was + triple(v));
}

pub(crate) fn put_text(out: &mut Vec<u8>, s: &str)
    ensures
        final(out)@ == old(out)@ + utf8::encode_utf8(s@),
{
    let ghost was = out@;
    out.extend_from_slice(s.as_bytes());
    assert(out@ =~= was + utf8::encode_utf8(s@));
}

// ---------------------------------------------------------------------------
// Progress
// ---------------------------------------------------------------------------

/// Vertices between two reports.
pub open spec fn report_every(vertices: nat) -> nat {
    if vertices / 200 > 1 {
        vertices / 200
    } else {
        1
    }
}

/// What is reported over the first `n` vertices, which are half the work.
pub open spec fn vertex_marks(n: nat, vertices: nat) -> Seq<Fraction>
    decreases n,
{
    if n == 0 {
        Seq::empty()
    } else {
        let before = vertex_marks((n - 1) as nat, vertices);
        if (n - 1) as nat % report_every(vertices) == 0 {
            before.push(Fraction { done: (n - 1) as u64, total: (2 * vertices) as u64 })
        } else {
            before
        }
    }
}

/// A fraction of the second half.
pub open spec fn second_half(m: Fraction) -> Fraction {
    Fraction { done: (m.total + m.done) as u64, total: (2 * m.total) as u64 }
}

/// What an indexed format reports: vertices, then faces.
pub open spec fn indexed_marks(s: Solid) -> Seq<Fraction> {
    let m = s.mesh_progress();
    vertex_marks(s.vertex_total() as nat, s.vertex_total() as nat) + Seq::new(
        m.len(),
        |i: int| second_half(m[i]),
    )
}

pub(crate) fn note_vertex(progress: &mut Vec<Fraction>, v: usize, vertices: usize)
    requires
        v < vertices < 0x8000_0000_0000_0000,
    ensures
        final(progress)@ == (if v as nat % report_every(vertices as nat) == 0 {
            old(progress)@.push(Fraction { done: v as u64, total: (2 * vertices) as u64 })
        } else {
            old(progress)@
        }),
{
    let mut every: usize = vertices / 200;
    if every <= 1 {
        every = 1;
    }
    if v % every == 0 {
        progress.push(Fraction { done: v as u64, total: 2 * vertices as u64 });
    }
}

// ---------------------------------------------------------------------------
// Formats
// ---------------------------------------------------------------------------

/// The whole file.
pub open spec fn file<F: Fn(Op, Real, Real) -> Real, T: Fn(Real, usize) -> String>(
    format: Format,
    s: Solid,
    f: F,
    fixed: T,
) -> Seq<u8> {
    match format {
        Format::Stl => stl::file(s, f),
        Format::Obj => obj::file(s, f, fixed),
        Format::Ply => ply::file(s, f),
    }
}

/// Everything that is reported while the file is written.
pub open spec fn marks(format: Format, s: Solid) -> Seq<Fraction> {
    match format {
        Format::Stl => s.mesh_progress(),
        Format::Obj | Format::Ply => indexed_marks(s),
    }
}

impl Format {
    /// Every format, in the order they are offered.
    pub fn all() -> (r: [Format; 3])
        ensures
            r@ == seq![Format::Stl, Format::Ply, Format::Obj],
    {
        [Format::Stl, Format::Ply, Format::Obj]
    }

    pub open spec fn suffix(self) -> Seq<char> {
        match self {
            Format::Stl => "stl"@,
            Format::Obj => "obj"@,
            Format::Ply => "ply"@,
        }
    }

    pub fn extension(self) -> (r: &'static str)
        ensures
            r@ == self.suffix(),
    {
        match self {
            Format::Stl => "stl",
            Format::Obj => "obj",
            Format::Ply => "ply",
        }
    }

    pub open spec fn name(self) -> Seq<char> {
        match self {
            Format::Stl => "STL"@,
            Format::Obj => "OBJ"@,
            Format::Ply => "PLY"@,
        }
    }

    pub fn label(self) -> (r: &'static str)
        ensures
            r@ == self.name(),
    {
        match self {
            Format::Stl => "STL",
            Format::Obj => "OBJ",
            Format::Ply => "PLY",
        }
    }

    /// Whether the format can carry the photo's colours.
    pub fn carries_colour(self) -> (r: bool)
        ensures
            r == (self != Format::Stl),
    {
        match self {
            Format::Stl => false,
            Format::Obj | Format::Ply => true,
        }
    }

    /// The size that is expected of the file: exact for STL and PLY, which are
    /// fixed-width behind their headers. OBJ is ASCII, so typical coordinate
    /// lengths stand for the real ones.
    pub open spec fn expected_len(self, s: Solid) -> int {
        let v = s.vertex_total();
        let t = s.mesh().len() as int;
        match self {
            Format::Stl => 84 + 50 * t,
            Format::Ply => utf8::encode_utf8(ply::header(s)).len() + v * ply::stride(s) + t * 13,
            Format::Obj => 100 + v * (if s.albedo is Some {
                62
            } else {
                38int
            }) + t * 26,
        }
    }

    /// Bytes the file will take.
    pub fn estimated_bytes(self, solid: &Solid) -> (r: u64)
        requires
            solid.wf(),
        ensures
            r == self.expected_len(*solid),
    {
        let v: u64 = solid.vertex_count() as u64;
        let t: u64 = solid.triangle_count() as u64;
        let colour: bool = solid.has_colour();
        proof {
            mesh::law_watertight(*solid);
            solid.lemma_counts();
        }
        match self {
            Format::Stl => 84 + 50 * t,
            Format::Ply => {
                let header = ply::header_text(solid);
                let top: u64 = header.as_str().as_bytes().len() as u64;
                proof {
                    ply::lemma_header_len(*solid);
                }
                let body: u64 = if colour {
                    v * 15
                } else {
                    v * 12
                };
                top + body + t * 13
            },
            Format::Obj => {
                let body: u64 = if colour {
                    v * 62
                } else {
                    v * 38
                };
                100 + body + t * 26
            },
        }
    }
}

// ---------------------------------------------------------------------------
// Parts
// ---------------------------------------------------------------------------

/// What stands before the data.
pub open spec fn head(format: Format, s: Solid) -> Seq<u8> {
    match format {
        Format::Stl => stl::header() + word(stl::counted(s)),
        Format::Obj => utf8::encode_utf8(obj::header(s)),
        Format::Ply => utf8::encode_utf8(ply::header(s)),
    }
}

/// How many vertices are listed before the triangles.
pub open spec fn indexed(format: Format, s: Solid) -> nat {
    match format {
        Format::Stl => 0,
        Format::Obj | Format::Ply => s.vertex_total() as nat,
    }
}

/// What is written for each vertex.
pub open spec fn vertex_piece<F: Fn(Op, Real, Real) -> Real, T: Fn(Real, usize) -> String>(
    format: Format,
    s: Solid,
    f: F,
    fixed: T,
) -> spec_fn(int) -> Seq<u8> {
    match format {
        Format::Stl => |i: int| Seq::empty(),
        Format::Obj => obj::vertices(s, f, fixed),
        Format::Ply => ply::vertices(s, f),
    }
}

/// What is written for each triangle.
pub open spec fn face_piece<F: Fn(Op, Real, Real) -> Real>(
    format: Format,
    s: Solid,
    f: F,
) -> spec_fn(int) -> Seq<u8> {
    match format {
        Format::Stl => stl::records(s, f),
        Format::Obj => obj::faces(s),
        Format::Ply => ply::faces(s),
    }
}

/// A report of the triangles among those of the whole file.
pub open spec fn shifted(format: Format, m: Fraction) -> Fraction {
    match format {
        Format::Stl => m,
        Format::Obj | Format::Ply => second_half(m),
    }
}

/// The reports of the triangles among those of the whole file.
pub open spec fn shifts(format: Format, s: Solid) -> spec_fn(int) -> Fraction {
    |i: int| shifted(format, s.mesh_progress()[i])
}

/// A file is its head, its vertices and its triangles.
pub proof fn lemma_file<F: Fn(Op, Real, Real) -> Real, T: Fn(Real, usize) -> String>(
    format: Format,
    s: Solid,
    f: F,
    fixed: T,
)
    ensures
        file(format, s, f, fixed) == head(format, s) + pieces(
            indexed(format, s),
            vertex_piece(format, s, f, fixed),
        ) + pieces(s.mesh().len(), face_piece(format, s, f)),
        marks(format, s) == vertex_marks(indexed(format, s), s.vertex_total() as nat) + Seq::new(
            s.mesh_progress().len(),
            shifts(format, s),
        ),
{
    let m = s.mesh_progress();
    let v = vertex_marks(indexed(format, s), s.vertex_total() as nat);
    assert(file(format, s, f, fixed) =~= head(format, s) + pieces(
        indexed(format, s),
        vertex_piece(format, s, f, fixed),
    ) + pieces(s.mesh().len(), face_piece(format, s, f)));
    assert(marks(format, s) =~= v + Seq::new(m.len(), shifts(format, s)));
}

pub(crate) fn put_head(format: Format, solid: &Solid, out: &mut Vec<u8>)
    requires
        solid.wf(),
    ensures
        final(out)@ == old(out)@ + head(format, *solid),
{
    match format {
        Format::Stl => stl::put_head(solid, out),
        Format::Obj => obj::put_header(solid, out),
        Format::Ply => put_text(out, ply::header_text(solid).as_str()),
    }
}

pub(crate) fn put_vertex<F: Fn(Op, Real, Real) -> Real, T: Fn(Real, usize) -> String>(
    format: Format,
    solid: &Solid,
    v: usize,
    out: &mut Vec<u8>,
    arith: &F,
    fixed: &T,
)
    requires
        number::steady(*arith),
        text::steady_text(*fixed),
        solid.wf(),
        v < indexed(format, *solid),
    ensures
        final(out)@ == old(out)@ + vertex_piece(format, *solid, *arith, *fixed)(v as int),
{
    proof {
        solid.lemma_counts();
    }
    match format {
        Format::Stl => {},
        Format::Obj => obj::put_vertex(solid, v, out, arith, fixed),
        Format::Ply => ply::put_vertex(solid, v, out, arith),
    }
}

pub(crate) fn put_face<F: Fn(Op, Real, Real) -> Real>(
    format: Format,
    solid: &Solid,
    Ghost(i): Ghost<int>,
    t: [u32; 3],
    out: &mut Vec<u8>,
    arith: &F,
)
    requires
        number::steady(*arith),
        solid.wf(),
        solid.mesh()[i] == t,
    ensures
        final(out)@ == old(out)@ + face_piece(format, *solid, *arith)(i),
{
    match format {
        Format::Stl => stl::put_record(out, solid.facet(t, arith)),
        Format::Obj => obj::put_face(out, t),
        Format::Ply => ply::put_face(out, t),
    }
}

/// Append the file to `out`. `progress` gets a fraction a few hundred times over
/// the course of the write. `fixed` writes a number with a fixed count of
/// decimals.
pub fn write<F: Fn(Op, Real, Real) -> Real, T: Fn(Real, usize) -> String>(
    format: Format,
    solid: &Solid,
    out: &mut Vec<u8>,
    progress: &mut Vec<Fraction>,
    arith: &F,
    fixed: &T,
)
    requires
        number::steady(*arith),
        text::steady_text(*fixed),
        solid.wf(),
    ensures
        final(out)@ == old(out)@ + file(format, *solid, *arith, *fixed),
        final(progress)@ == old(progress)@ + marks(format, *solid),
{
    let ghost was = out@;
    let ghost before = progress@;
    let mut stream = Stream::new(format, solid);
    let mut more: bool = true;
    proof {
        stream.lemma_follows(*solid);
        stream.lemma_fresh(*solid, *arith, *fixed);
        assert(out@ =~= was + stream.written(*solid, *arith, *fixed));
        assert(progress@ =~= before + stream.reported(*solid));
    }
    while more
        invariant
            number::steady(*arith),
            text::steady_text(*fixed),
            stream.follows(*solid),
            stream.left(*solid) >= 0,
            stream.format() == format,
            out@ == was + stream.written(*solid, *arith, *fixed),
            progress@ == before + stream.reported(*solid),
            !more ==> stream.complete(*solid),
        decreases stream.left(*solid) + (if more {
            1int
        } else {
            0
        }),
    {
        let ghost w = stream.written(*solid, *arith, *fixed);
        let ghost r = stream.reported(*solid);
        let ghost o = out@;
        let ghost p = progress@;
        more = stream.next(solid, out, progress, arith, fixed);
        proof {
            stream::lemma_grew(was, o, out@, w, stream.written(*solid, *arith, *fixed));
            stream::lemma_grew(before, p, progress@, r, stream.reported(*solid));
        }
    }
    proof {
        stream.lemma_complete(*solid, *arith, *fixed);
    }
}

/// The whole file in memory.
pub fn to_vec<F: Fn(Op, Real, Real) -> Real, T: Fn(Real, usize) -> String>(
    format: Format,
    solid: &Solid,
    arith: &F,
    fixed: &T,
) -> (r: Vec<u8>)
    requires
        number::steady(*arith),
        text::steady_text(*fixed),
        solid.wf(),
    ensures
        r@ == file(format, *solid, *arith, *fixed),
{
    let mut out: Vec<u8> = Vec::new();
    let mut progress: Vec<Fraction> = Vec::new();
    write(format, solid, &mut out, &mut progress, arith, fixed);
    assert(out@ =~= file(format, *solid, *arith, *fixed));
    out
}

// ---------------------------------------------------------------------------
// Laws
// ---------------------------------------------------------------------------

/// The fractions reported while a file is written lie between zero and one, and
/// the last one is one, in every format.
pub proof fn law_progress_ends_at_one(format: Format, s: Solid)
    requires
        s.wf(),
    ensures
        forall|i: int|
            0 <= i < marks(format, s).len() ==> (#[trigger] marks(format, s)[i]).proper(),
        marks(format, s).len() > 0,
        marks(format, s).last().complete(),
{
    s.lemma_mesh_marks();
    s.lemma_counts();
    let v = s.vertex_total() as nat;
    lemma_vertex_marks(v, v);
    let m = s.mesh_progress();
    let a = vertex_marks(v, v);
    let r = indexed_marks(s);
    assert forall|i: int| 0 <= i < r.len() implies (#[trigger] r[i]).proper() by {
        if i < a.len() {
            assert(a[i].proper());
        } else {
            assert(m[i - a.len()].proper());
        }
    }
    assert(r.last() == second_half(m.last()));
}

proof fn lemma_vertex_marks(n: nat, vertices: nat)
    requires
        n <= vertices <= u32::MAX,
    ensures
        forall|i: int|
            0 <= i < vertex_marks(n, vertices).len() ==> (#[trigger] vertex_marks(
                n,
                vertices,
            )[i]).proper(),
    decreases n,
{
    if n > 0 {
        lemma_vertex_marks((n - 1) as nat, vertices);
        let before = vertex_marks((n - 1) as nat, vertices);
        let r = vertex_marks(n, vertices);
        assert forall|i: int| 0 <= i < r.len() implies (#[trigger] r[i]).proper() by {
            if i < before.len() {
                assert(before[i].proper());
            }
        }
    }
}

/// The estimate is the length of the file in both binary formats.
pub proof fn law_estimate_is_exact<
    F: Fn(Op, Real, Real) -> Real,
    T: Fn(Real, usize) -> String,
>(s: Solid, f: F, fixed: T)
    requires
        s.wf(),
    ensures
        file(Format::Stl, s, f, fixed).len() == Format::Stl.expected_len(s),
        file(Format::Ply, s, f, fixed).len() == Format::Ply.expected_len(s),
{
    stl::law_size(s, f);
    ply::law_size(s, f);
}

/// Four bytes give back the number they were made of.
pub proof fn law_words_read_back(x: u32)
    ensures
        word(x).len() == 4,
        word(x)[0] + 0x100 * word(x)[1] + 0x1_0000 * word(x)[2] + 0x100_0000 * word(x)[3] == x,
{
}

} // verus!
