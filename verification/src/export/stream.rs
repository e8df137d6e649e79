//! A file, a chunk at a time.
//!
//! Vertex positions are computed from their index on demand, and triangles are
//! listed in a fixed order, so a file of any size passes through a small buffer.

use vstd::prelude::*;
use crate::export;
use crate::export::{ply, stl};
use crate::export::Format;
use crate::listing;
use crate::listing::Triangles;
use crate::mesh::Solid;
use crate::number;
use crate::number::{Op, Real};
use crate::progress::Fraction;
use crate::text;

verus! {

/// Vertices in a chunk.
pub const VERTICES_AT_ONCE: usize = 4096;

/// `b` is `a` with something appended, and `y` is `x` with the same appended.
pub open spec fn grew<A>(a: Seq<A>, b: Seq<A>, x: Seq<A>, y: Seq<A>) -> bool {
    exists|d: Seq<A>| b == #[trigger] (a + d) && y == x + d
}

/// What was in step stays in step.
pub proof fn lemma_grew<A>(base: Seq<A>, a: Seq<A>, b: Seq<A>, x: Seq<A>, y: Seq<A>)
    requires
        a == base + x,
        grew(a, b, x, y),
    ensures
        b == base + y,
{
    let d = choose|d: Seq<A>| b == #[trigger] (a + d) && y == x + d;
    assert(b =~= base + y);
}

/// `n` pieces from `from` on, one behind the other.
pub open spec fn stretch(piece: spec_fn(int) -> Seq<u8>, from: int, n: nat) -> Seq<u8>
    decreases n,
{
    if n == 0 {
        Seq::empty()
    } else {
        stretch(piece, from, (n - 1) as nat) + piece(from + n - 1)
    }
}

/// Pieces are continued by a stretch.
proof fn lemma_stretch(piece: spec_fn(int) -> Seq<u8>, from: int, n: nat)
    requires
        from >= 0,
    ensures
        export::pieces((from + n) as nat, piece) == export::pieces(from as nat, piece) + stretch(
            piece,
            from,
            n,
        ),
    decreases n,
{
    if n > 0 {
        lemma_stretch(piece, from, (n - 1) as nat);
    }
    assert(export::pieces((from + n) as nat, piece) =~= export::pieces(from as nat, piece)
        + stretch(piece, from, n));
}

proof fn lemma_bytes(top: Seq<u8>, piece: spec_fn(int) -> Seq<u8>, from: int, n: nat)
    requires
        from >= 0,
    ensures
        top + export::pieces((from + n) as nat, piece) == top + export::pieces(from as nat, piece)
            + stretch(piece, from, n),
{
    lemma_stretch(piece, from, n);
    assert(top + export::pieces((from + n) as nat, piece) =~= top + export::pieces(
        from as nat,
        piece,
    ) + stretch(piece, from, n));
}

/// `n` reports from `from` on.
pub open spec fn following(report: spec_fn(int) -> Fraction, from: int, n: nat) -> Seq<Fraction> {
    Seq::new(n, |i: int| report(from + i))
}

proof fn lemma_reports(
    top: Seq<Fraction>,
    report: spec_fn(int) -> Fraction,
    from: int,
    n: nat,
)
    requires
        from >= 0,
    ensures
        top + Seq::new((from + n) as nat, report) == top + Seq::new(from as nat, report)
            + following(report, from, n),
{
    assert(top + Seq::new((from + n) as nat, report) =~= top + Seq::new(from as nat, report)
        + following(report, from, n));
}

/// Write some triangles.
fn put_faces<F: Fn(Op, Real, Real) -> Real>(
    format: Format,
    solid: &Solid,
    Ghost(from): Ghost<int>,
    some: &Vec<[u32; 3]>,
    out: &mut Vec<u8>,
    arith: &F,
)
    requires
        number::steady(*arith),
        solid.wf(),
        forall|k: int| 0 <= k < some@.len() ==> solid.mesh()[from + k] == #[trigger] some@[k],
    ensures
        final(out)@ == old(out)@ + stretch(
            export::face_piece(format, *solid, *arith),
            from,
            some@.len(),
        ),
{
    let ghost was = out@;
    let ghost piece = export::face_piece(format, *solid, *arith);
    let ghost mesh = solid.mesh();
    let mut k: usize = 0;
    assert(out@ =~= was + stretch(piece, from, 0));
    while k < some.len()
        invariant
            number::steady(*arith),
            solid.wf(),
            mesh == solid.mesh(),
            forall|k: int| 0 <= k < some@.len() ==> mesh[from + k] == #[trigger] some@[k],
            k <= some@.len(),
            piece == export::face_piece(format, *solid, *arith),
            out@ == was + stretch(piece, from, k as nat),
        decreases some@.len() - k,
    {
        assert(mesh[from + k] == some@[k as int]);
        export::put_face(format, solid, Ghost(from + k), some[k], out, arith);
        assert(out@ =~= was + stretch(piece, from, (k + 1) as nat));
        k = k + 1;
    }
}

/// Report some triangles.
fn put_marks(format: Format, marks: &Vec<Fraction>, progress: &mut Vec<Fraction>)
    requires
        forall|i: int|
            0 <= i < marks@.len() ==> (#[trigger] marks@[i]).proper() && marks@[i].total
                <= 0x40_0000_0000,
    ensures
        final(progress)@ == old(progress)@ + Seq::new(
            marks@.len(),
            |i: int| export::shifted(format, marks@[i]),
        ),
{
    let ghost was = progress@;
    let mut k: usize = 0;
    assert(progress@ =~= was + Seq::new(0, |i: int| export::shifted(format, marks@[i])));
    while k < marks.len()
        invariant
            forall|i: int|
                0 <= i < marks@.len() ==> (#[trigger] marks@[i]).proper() && marks@[i].total
                    <= 0x40_0000_0000,
            k <= marks@.len(),
            progress@ == was + Seq::new(k as nat, |i: int| export::shifted(format, marks@[i])),
        decreases marks@.len() - k,
    {
        let mark = marks[k];
        assert(marks@[k as int].proper());
        progress.push(
            if format.carries_colour() {
                Fraction { done: mark.total + mark.done, total: 2 * mark.total }
            } else {
                mark
            },
        );
        k = k + 1;
        assert(progress@ =~= was + Seq::new(
            k as nat,
            |i: int| export::shifted(format, marks@[i]),
        ));
    }
}

/// A file that is being written.
pub struct Stream {
    format: Format,
    /// The head has been written.
    begun: bool,
    /// The next vertex.
    vertex: usize,
    /// The rest of the triangles.
    triangles: Triangles,
}

/// A step of a file from one state to another is the head, a few vertices, or
/// the triangles of a row, a leaf or the frame.
pub open spec fn steps(a: Stream, b: Stream, s: Solid) -> bool {
    let (v, t) = (b.vertices_out() - a.vertices_out(), b.triangles_out() - a.triangles_out());
    &&& 0 <= v <= VERTICES_AT_ONCE
    &&& 0 <= t <= listing::portion(s)
    &&& a.fresh() ==> v == 0 && t == 0
    &&& v == 0 || t == 0
    &&& 0 <= a.vertices_out()
    &&& 0 <= a.triangles_out()
}

impl Stream {
    pub closed spec fn format(self) -> Format {
        self.format
    }

    /// This is a file of this solid.
    pub closed spec fn follows(self, s: Solid) -> bool {
        &&& self.triangles.follows(s)
        &&& self.vertex <= export::indexed(self.format, s)
        &&& !self.begun ==> self.vertex == 0
        &&& !self.begun || self.vertex < export::indexed(self.format, s)
            ==> self.triangles.listed() == 0 && self.triangles.marked() == 0
    }

    /// Vertices so far.
    pub closed spec fn vertices_out(self) -> int {
        self.vertex as int
    }

    /// Triangles so far.
    pub closed spec fn triangles_out(self) -> int {
        self.triangles.listed()
    }

    /// What has been written: the head, and the vertices and triangles so far.
    pub open spec fn written<F: Fn(Op, Real, Real) -> Real, T: Fn(Real, usize) -> String>(
        self,
        s: Solid,
        f: F,
        fixed: T,
    ) -> Seq<u8> {
        if self.fresh() {
            Seq::empty()
        } else {
            export::head(self.format(), s) + export::pieces(
                self.vertices_out() as nat,
                export::vertex_piece(self.format(), s, f, fixed),
            ) + export::pieces(
                self.triangles_out() as nat,
                export::face_piece(self.format(), s, f),
            )
        }
    }

    /// What has been reported.
    pub closed spec fn reported(self, s: Solid) -> Seq<Fraction> {
        export::vertex_marks(self.vertex as nat, s.vertex_total() as nat) + Seq::new(
            self.triangles.marked() as nat,
            export::shifts(self.format, s),
        )
    }

    /// How much is still to do, at most.
    pub closed spec fn left(self, s: Solid) -> int {
        (if self.begun {
            0int
        } else {
            1
        }) + export::indexed(self.format, s) - self.vertex + s.mesh_progress().len()
            - self.triangles.marked()
    }

    /// What a stream that follows a solid may rely on.
    pub proof fn lemma_follows(self, s: Solid)
        requires
            self.follows(s),
        ensures
            s.wf(),
            self.left(s) >= 0,
    {
        self.triangles.lemma_follows(s);
    }

    /// Everything has been written.
    pub closed spec fn complete(self, s: Solid) -> bool {
        &&& self.begun
        &&& self.vertex == export::indexed(self.format, s)
        &&& self.triangles.listed() == s.mesh().len()
        &&& self.triangles.marked() == s.mesh_progress().len()
    }

    /// A complete stream has written the file and reported all there is.
    pub proof fn lemma_complete<F: Fn(Op, Real, Real) -> Real, T: Fn(Real, usize) -> String>(
        self,
        s: Solid,
        f: F,
        fixed: T,
    )
        requires
            self.complete(s),
        ensures
            self.written(s, f, fixed) == export::file(self.format(), s, f, fixed),
            self.reported(s) == export::marks(self.format(), s),
    {
        export::lemma_file(self.format, s, f, fixed);
    }

    /// What some more triangles add.
    proof fn lemma_step<F: Fn(Op, Real, Real) -> Real, T: Fn(Real, usize) -> String>(
        a: Stream,
        b: Stream,
        s: Solid,
        f: F,
        fixed: T,
    )
        requires
            a.begun && b.begun,
            a.format == b.format,
            a.vertex == b.vertex,
            0 <= a.triangles.listed() <= b.triangles.listed(),
            0 <= a.triangles.marked() <= b.triangles.marked(),
        ensures
            b.written(s, f, fixed) == a.written(s, f, fixed) + stretch(
                export::face_piece(a.format, s, f),
                a.triangles.listed(),
                (b.triangles.listed() - a.triangles.listed()) as nat,
            ),
            b.reported(s) == a.reported(s) + following(
                export::shifts(a.format, s),
                a.triangles.marked(),
                (b.triangles.marked() - a.triangles.marked()) as nat,
            ),
    {
        let top = export::head(a.format, s) + export::pieces(
            a.vertex as nat,
            export::vertex_piece(a.format, s, f, fixed),
        );
        lemma_bytes(
            top,
            export::face_piece(a.format, s, f),
            a.triangles.listed(),
            (b.triangles.listed() - a.triangles.listed()) as nat,
        );
        lemma_reports(
            export::vertex_marks(a.vertex as nat, s.vertex_total() as nat),
            export::shifts(a.format, s),
            a.triangles.marked(),
            (b.triangles.marked() - a.triangles.marked()) as nat,
        );
    }

    /// Nothing has been written.
    pub closed spec fn fresh(self) -> bool {
        !self.begun
    }

    pub proof fn lemma_fresh<F: Fn(Op, Real, Real) -> Real, T: Fn(Real, usize) -> String>(
        self,
        s: Solid,
        f: F,
        fixed: T,
    )
        requires
            self.follows(s),
            self.fresh(),
        ensures
            self.written(s, f, fixed) == Seq::<u8>::empty(),
            self.reported(s) == Seq::<Fraction>::empty(),
    {
        assert(self.reported(s) =~= Seq::empty());
    }

    /// A file of which nothing has been written.
    pub fn new(format: Format, solid: &Solid) -> (r: Self)
        requires
            solid.wf(),
        ensures
            r.follows(*solid),
            r.format() == format,
            r.fresh(),
    {
        Stream { format, begun: false, vertex: 0, triangles: Triangles::new(solid) }
    }

    /// Append the next chunk to `out`, and what there is to report to `progress`.
    /// Nothing is appended once the file is complete.
    pub fn next<F: Fn(Op, Real, Real) -> Real, T: Fn(Real, usize) -> String>(
        &mut self,
        solid: &Solid,
        out: &mut Vec<u8>,
        progress: &mut Vec<Fraction>,
        arith: &F,
        fixed: &T,
    ) -> (r: bool)
        requires
            number::steady(*arith),
            text::steady_text(*fixed),
            old(self).follows(*solid),
        ensures
            final(self).follows(*solid),
            final(self).format() == old(self).format(),
            grew(
                old(out)@,
                final(out)@,
                old(self).written(*solid, *arith, *fixed),
                final(self).written(*solid, *arith, *fixed),
            ),
            grew(
                old(progress)@,
                final(progress)@,
                old(self).reported(*solid),
                final(self).reported(*solid),
            ),
            0 <= final(self).left(*solid) <= old(self).left(*solid),
            r ==> final(self).left(*solid) < old(self).left(*solid),
            !r ==> {
                &&& final(out)@ == old(out)@
                &&& final(progress)@ == old(progress)@
                &&& final(self).complete(*solid)
            },
            !final(self).fresh(),
            steps(*old(self), *final(self), *solid),
    {
        proof {
            self.lemma_follows(*solid);
            solid.lemma_counts();
        }
        let goal: usize = if self.format.carries_colour() {
            solid.vertex_count()
        } else {
            0
        };
        let more: bool = if !self.begun {
            self.begin(solid, out, arith, fixed, progress);
            true
        } else if self.vertex < goal {
            self.next_vertices(solid, out, progress, arith, fixed);
            true
        } else {
            self.next_triangles(solid, out, progress, arith, fixed)
        };
        proof {
            self.lemma_follows(*solid);
        }
        more
    }

    fn begin<F: Fn(Op, Real, Real) -> Real, T: Fn(Real, usize) -> String>(
        &mut self,
        solid: &Solid,
        out: &mut Vec<u8>,
        arith: &F,
        fixed: &T,
        progress: &Vec<Fraction>,
    )
        requires
            old(self).follows(*solid),
            !old(self).begun,
        ensures
            final(self).follows(*solid),
            final(self).format == old(self).format,
            grew(
                old(out)@,
                final(out)@,
                old(self).written(*solid, *arith, *fixed),
                final(self).written(*solid, *arith, *fixed),
            ),
            grew(
                progress@,
                progress@,
                old(self).reported(*solid),
                final(self).reported(*solid),
            ),
            final(self).left(*solid) < old(self).left(*solid),
            final(self).begun,
            steps(*old(self), *final(self), *solid),
    {
        let ghost was = out@;
        let ghost before = *self;
        proof {
            self.triangles.lemma_follows(*solid);
        }
        export::put_head(self.format, solid, out);
        self.begun = true;
        proof {
            let d = export::head(self.format, *solid);
            assert(out@ == was + d);
            assert(self.written(*solid, *arith, *fixed) =~= Seq::<u8>::empty() + d);
            let none = Seq::<Fraction>::empty();
            assert(progress@ =~= progress@ + none);
            assert(self.reported(*solid) =~= before.reported(*solid) + none);
        }
    }

    /// Some more vertices.
    fn next_vertices<F: Fn(Op, Real, Real) -> Real, T: Fn(Real, usize) -> String>(
        &mut self,
        solid: &Solid,
        out: &mut Vec<u8>,
        progress: &mut Vec<Fraction>,
        arith: &F,
        fixed: &T,
    )
        requires
            number::steady(*arith),
            text::steady_text(*fixed),
            old(self).follows(*solid),
            old(self).begun,
            old(self).vertex < export::indexed(old(self).format, *solid),
        ensures
            final(self).follows(*solid),
            final(self).format == old(self).format,
            grew(
                old(out)@,
                final(out)@,
                old(self).written(*solid, *arith, *fixed),
                final(self).written(*solid, *arith, *fixed),
            ),
            grew(
                old(progress)@,
                final(progress)@,
                old(self).reported(*solid),
                final(self).reported(*solid),
            ),
            final(self).left(*solid) < old(self).left(*solid),
            final(self).begun,
            steps(*old(self), *final(self), *solid),
    {
        proof {
            self.triangles.lemma_follows(*solid);
            solid.lemma_counts();
        }
        let format = self.format;
        let count: usize = solid.vertex_count();
        let from: usize = self.vertex;
        let to: usize = if count - from > VERTICES_AT_ONCE {
            from + VERTICES_AT_ONCE
        } else {
            count
        };
        let ghost o = out@;
        let ghost p = progress@;
        let ghost a = *self;
        let ghost piece = export::vertex_piece(format, *solid, *arith, *fixed);
        let ghost n = count as nat;
        let ghost mut d = Seq::<u8>::empty();
        let ghost mut e = Seq::<Fraction>::empty();
        proof {
            assert(o =~= o + d);
            assert(p =~= p + e);
            assert(export::pieces(from as nat, piece) =~= export::pieces(from as nat, piece) + d);
            assert(export::vertex_marks(from as nat, n) =~= export::vertex_marks(from as nat, n) + e);
        }
        let mut v: usize = from;
        while v < to
            invariant
                number::steady(*arith),
                text::steady_text(*fixed),
                solid.wf(),
                from <= v <= to <= count,
                count == export::indexed(format, *solid),
                count == solid.vertex_total(),
                count <= u32::MAX,
                n == count,
                piece == export::vertex_piece(format, *solid, *arith, *fixed),
                out@ == o + d,
                progress@ == p + e,
                export::pieces(v as nat, piece) == export::pieces(from as nat, piece) + d,
                export::vertex_marks(v as nat, n) == export::vertex_marks(from as nat, n) + e,
            decreases to - v,
        {
            export::put_vertex(format, solid, v, out, arith, fixed);
            export::note_vertex(progress, v, count);
            proof {
                let x = piece(v as int);
                assert(out@ =~= o + (d + x));
                assert(export::pieces((v + 1) as nat, piece) =~= export::pieces(
                    from as nat,
                    piece,
                ) + (d + x));
                d = d + x;
                let more = if v as nat % export::report_every(n) == 0 {
                    e.push(Fraction { done: v as u64, total: (2 * n) as u64 })
                } else {
                    e
                };
                assert(progress@ =~= p + more);
                assert(export::vertex_marks((v + 1) as nat, n) =~= export::vertex_marks(
                    from as nat,
                    n,
                ) + more);
                e = more;
            }
            v = v + 1;
        }
        self.vertex = to;
        proof {
            assert(self.written(*solid, *arith, *fixed) =~= a.written(*solid, *arith, *fixed) + d);
            assert(self.reported(*solid) =~= a.reported(*solid) + e);
        }
    }

    /// Some more triangles.
    fn next_triangles<F: Fn(Op, Real, Real) -> Real, T: Fn(Real, usize) -> String>(
        &mut self,
        solid: &Solid,
        out: &mut Vec<u8>,
        progress: &mut Vec<Fraction>,
        arith: &F,
        fixed: &T,
    ) -> (r: bool)
        requires
            number::steady(*arith),
            old(self).follows(*solid),
            old(self).begun,
            old(self).vertex == export::indexed(old(self).format, *solid),
        ensures
            final(self).follows(*solid),
            final(self).format == old(self).format,
            grew(
                old(out)@,
                final(out)@,
                old(self).written(*solid, *arith, *fixed),
                final(self).written(*solid, *arith, *fixed),
            ),
            grew(
                old(progress)@,
                final(progress)@,
                old(self).reported(*solid),
                final(self).reported(*solid),
            ),
            final(self).left(*solid) <= old(self).left(*solid),
            r ==> final(self).left(*solid) < old(self).left(*solid),
            !r ==> {
                &&& final(out)@ == old(out)@
                &&& final(progress)@ == old(progress)@
                &&& final(self).complete(*solid)
            },
            final(self).begun,
            steps(*old(self), *final(self), *solid),
    {
        let format = self.format;
        let ghost a = *self;
        let ghost from = self.triangles.listed();
        let ghost first = self.triangles.marked();
        let ghost piece = export::face_piece(format, *solid, *arith);
        let ghost m = solid.mesh_progress();
        proof {
            self.triangles.lemma_follows(*solid);
            solid.lemma_mesh_marks();
        }
        let mut some: Vec<[u32; 3]> = Vec::new();
        let mut marks: Vec<Fraction> = Vec::new();
        let more: bool = self.triangles.next(solid, &mut some, &mut marks);
        proof {
            self.triangles.lemma_follows(*solid);
            assert(some@ =~= solid.mesh().subrange(from, self.triangles.listed()));
            assert(marks@ =~= m.subrange(first, self.triangles.marked()));
            assert forall|k: int| 0 <= k < some@.len() implies solid.mesh()[from + k]
                == #[trigger] some@[k] by {}
            assert forall|i: int| 0 <= i < marks@.len() implies (#[trigger] marks@[i]).proper()
                && marks@[i].total <= 0x40_0000_0000 by {
                assert(marks@[i] == m[first + i]);
            }
        }
        put_faces(format, solid, Ghost(from), &some, out, arith);
        put_marks(format, &marks, progress);
        proof {
            Stream::lemma_step(a, *self, *solid, *arith, *fixed);
            let d = stretch(piece, from, some@.len());
            let e = Seq::new(marks@.len(), |i: int| export::shifted(format, marks@[i]));
            assert(e =~= following(export::shifts(format, *solid), first, marks@.len()));
            assert(out@ == old(out)@ + d);
            assert(progress@ == old(progress)@ + e);
            if !more {
                assert(some@.len() == 0 && marks@.len() == 0);
                assert(old(out)@ + d =~= old(out)@);
                assert(old(progress)@ + e =~= old(progress)@);
            }
        }
        more
    }
}

// ---------------------------------------------------------------------------
// Laws
// ---------------------------------------------------------------------------

/// How long the records of a binary file are: those of a vertex, and those of a
/// triangle.
pub open spec fn records(format: Format, s: Solid) -> (nat, nat) {
    match format {
        Format::Stl => (0, 50),
        Format::Ply => (ply::stride(s), 13),
        Format::Obj => (0, 0),
    }
}

/// A file of any size passes through a small buffer: behind the head, a step of
/// a binary file adds the records of its vertices and triangles and nothing
/// else, and their number does not grow with the area of the grid.
pub proof fn law_chunks_are_small<F: Fn(Op, Real, Real) -> Real, T: Fn(Real, usize) -> String>(
    a: Stream,
    b: Stream,
    s: Solid,
    f: F,
    fixed: T,
)
    requires
        a.format() == b.format(),
        a.format() != Format::Obj,
        !a.fresh(),
        !b.fresh(),
        steps(a, b, s),
    ensures
        b.written(s, f, fixed).len() - a.written(s, f, fixed).len() == (b.vertices_out()
            - a.vertices_out()) * records(a.format(), s).0 + (b.triangles_out()
            - a.triangles_out()) * records(a.format(), s).1,
        b.written(s, f, fixed).len() - a.written(s, f, fixed).len() <= 15 * VERTICES_AT_ONCE + 50
            * listing::portion(s),
{
    let (v, t) = records(a.format(), s);
    let (vp, fp) = (
        export::vertex_piece(a.format(), s, f, fixed),
        export::face_piece(a.format(), s, f),
    );
    assert forall|i: int| (#[trigger] vp(i)).len() == v by {}
    assert forall|i: int| (#[trigger] fp(i)).len() == t by {
        if a.format() == Format::Stl {
            stl::lemma_record_len(s.facet_of(f, s.mesh()[i]));
        }
    }
    let (a0, b0) = (a.vertices_out(), b.vertices_out());
    let (a1, b1) = (a.triangles_out(), b.triangles_out());
    export::lemma_pieces_len(a0 as nat, vp, v);
    export::lemma_pieces_len(b0 as nat, vp, v);
    export::lemma_pieces_len(a1 as nat, fp, t);
    export::lemma_pieces_len(b1 as nat, fp, t);
    assert(b0 * v - a0 * v == (b0 - a0) * v && b1 * t - a1 * t == (b1 - a1) * t)
        by (nonlinear_arith);
    assert((b0 - a0) * v <= 15 * VERTICES_AT_ONCE) by (nonlinear_arith)
        requires
            0 <= b0 - a0 <= VERTICES_AT_ONCE,
            0 <= v <= 15,
    ;
    assert((b1 - a1) * t <= 50 * listing::portion(s)) by (nonlinear_arith)
        requires
            0 <= b1 - a1 <= listing::portion(s),
            0 <= t <= 50,
    ;
}

} // verus!
