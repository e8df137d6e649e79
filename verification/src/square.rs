//! One square of the simplified surface, as pure geometry on grid points.

use vstd::prelude::*;
use crate::topology;
use crate::triangle;

verus! {

/// A grid point, column then row.
pub type Point = (int, int);

/// A square of cells with its top-left corner at `(x, y)`, and for each of its
/// four sides whether the middle of that side is a vertex.
pub struct Square {
    pub x: int,
    pub y: int,
    pub span: int,
    pub left: bool,
    pub bottom: bool,
    pub right: bool,
    pub top: bool,
}

/// The side across: left and right, bottom and top.
pub open spec fn opposite(d: int) -> int {
    if d < 2 {
        d + 2
    } else {
        d - 2
    }
}

impl Square {
    pub open spec fn wf(self) -> bool {
        self.span == 1 || (self.span >= 2 && self.span % 2 == 0)
    }

    pub open spec fn half(self) -> int {
        self.span / 2
    }

    pub open spec fn stitched(self, d: int) -> bool {
        if d == 0 {
            self.left
        } else if d == 1 {
            self.bottom
        } else if d == 2 {
            self.right
        } else {
            self.top
        }
    }

    /// The corners, counter-clockwise seen from the front: top-left,
    /// bottom-left, bottom-right, top-right.
    pub open spec fn corner(self, d: int) -> Point {
        if d == 0 {
            (self.x, self.y)
        } else if d == 1 {
            (self.x, self.y + self.span)
        } else if d == 2 {
            (self.x + self.span, self.y + self.span)
        } else if d == 3 {
            (self.x + self.span, self.y)
        } else {
            (self.x, self.y)
        }
    }

    /// The middle of the side that runs from corner `d` to the next.
    pub open spec fn mid(self, d: int) -> Point {
        if d == 0 {
            (self.x, self.y + self.half())
        } else if d == 1 {
            (self.x + self.half(), self.y + self.span)
        } else if d == 2 {
            (self.x + self.span, self.y + self.half())
        } else {
            (self.x + self.half(), self.y)
        }
    }

    pub open spec fn centre(self) -> Point {
        (self.x + self.half(), self.y + self.half())
    }

    /// The fan triangles over one side: two when its middle is a vertex.
    pub open spec fn side_faces(self, d: int) -> Seq<[Point; 3]> {
        if self.stitched(d) {
            seq![
                [self.centre(), self.corner(d), self.mid(d)],
                [self.centre(), self.mid(d), self.corner(d + 1)],
            ]
        } else {
            seq![[self.centre(), self.corner(d), self.corner(d + 1)]]
        }
    }

    /// The triangles of this square: two for a single cell, otherwise a fan
    /// from its centre.
    pub open spec fn faces(self) -> Seq<[Point; 3]> {
        if self.span == 1 {
            seq![
                [self.corner(0), self.corner(1), self.corner(2)],
                [self.corner(0), self.corner(2), self.corner(3)],
            ]
        } else {
            self.side_faces(0) + self.side_faces(1) + self.side_faces(2) + self.side_faces(3)
        }
    }

    /// The points that the triangles of this square use.
    pub open spec fn vertex(self, v: Point) -> bool {
        ||| v == self.corner(0)
        ||| v == self.corner(1)
        ||| v == self.corner(2)
        ||| v == self.corner(3)
        ||| self.span > 1 && v == self.centre()
        ||| self.span > 1 && self.left && v == self.mid(0)
        ||| self.span > 1 && self.bottom && v == self.mid(1)
        ||| self.span > 1 && self.right && v == self.mid(2)
        ||| self.span > 1 && self.top && v == self.mid(3)
    }

    pub open spec fn has_cell(self, cx: int, cy: int) -> bool {
        self.x <= cx < self.x + self.span && self.y <= cy < self.y + self.span
    }

    /// How many sides have their middle as a vertex.
    pub open spec fn stitches(self) -> int {
        (if self.left { 1int } else { 0 }) + (if self.bottom { 1int } else { 0 }) + (if self.right {
            1int
        } else {
            0
        }) + (if self.top { 1int } else { 0 })
    }

    /// Where the coordinate along side `d` starts.
    pub open spec fn base(self, d: int) -> int {
        if d == 0 || d == 2 {
            self.y
        } else {
            self.x
        }
    }

    /// Side `d` is divided at its middle.
    pub open spec fn divided(self, d: int) -> bool {
        self.span > 1 && self.stitched(d)
    }

    /// Start of the segment of side `d` that covers the unit step at `t`.
    pub open spec fn lo(self, d: int, t: int) -> int {
        if self.divided(d) && t >= self.base(d) + self.half() {
            self.base(d) + self.half()
        } else {
            self.base(d)
        }
    }

    /// Length of the segments of side `d`.
    pub open spec fn len(self, d: int) -> int {
        if self.divided(d) {
            self.half()
        } else {
            self.span
        }
    }

    /// The segment of side `d` that covers the unit step at `t`, in the
    /// direction in which this square runs along it.
    pub open spec fn seg(self, d: int, t: int) -> (Point, Point) {
        let a = self.lo(d, t);
        let b = a + self.len(d);
        if d == 0 {
            ((self.x, a), (self.x, b))
        } else if d == 1 {
            ((a, self.y + self.span), (b, self.y + self.span))
        } else if d == 2 {
            ((self.x + self.span, b), (self.x + self.span, a))
        } else {
            ((b, self.y), (a, self.y))
        }
    }
}

/// The cell that a directed edge leaves on its inner side.
pub open spec fn inner_cell(p: Point, q: Point) -> (int, int) {
    if p.0 == q.0 && p.1 < q.1 {
        (p.0, p.1)
    } else if p.0 == q.0 {
        (p.0 - 1, q.1)
    } else if p.1 == q.1 && p.0 < q.0 {
        (p.0, p.1 - 1)
    } else if p.1 == q.1 {
        (q.0, p.1)
    } else {
        (if p.0 < q.0 { p.0 } else { q.0 }, if p.1 < q.1 { p.1 } else { q.1 })
    }
}

impl Square {
    /// Position in the list of the first triangle over side `d`.
    spec fn first(self, d: int) -> int {
        d + (if d > 0 && self.left { 1int } else { 0 }) + (if d > 1 && self.bottom {
            1int
        } else {
            0
        }) + (if d > 2 && self.right { 1int } else { 0 })
    }

    spec fn parts(self, d: int) -> int {
        if self.stitched(d) {
            2
        } else {
            1
        }
    }

    spec fn face(self, d: int, r: int) -> [Point; 3] {
        if self.stitched(d) {
            if r == 0 {
                [self.centre(), self.corner(d), self.mid(d)]
            } else {
                [self.centre(), self.mid(d), self.corner(d + 1)]
            }
        } else {
            [self.centre(), self.corner(d), self.corner(d + 1)]
        }
    }

    /// Which side the triangle at position `i` stands over.
    spec fn side_of(self, i: int) -> int {
        if i < self.first(1) {
            0
        } else if i < self.first(2) {
            1
        } else if i < self.first(3) {
            2
        } else {
            3
        }
    }

    proof fn lemma_faces(self)
        requires
            self.span > 1,
        ensures
            self.faces().len() == 4 + self.stitches(),
            forall|d: int, r: int|
                0 <= d < 4 && 0 <= r < self.parts(d) ==> 0 <= self.first(d) + r
                    < self.faces().len() && self.faces()[self.first(d) + r] == #[trigger] self.face(
                    d,
                    r,
                ),
            forall|i: int|
                0 <= i < self.faces().len() ==> {
                    let d = #[trigger] self.side_of(i);
                    &&& 0 <= d < 4
                    &&& 0 <= i - self.first(d) < self.parts(d)
                    &&& self.faces()[i] == self.face(d, i - self.first(d))
                },
    {
    }

    /// Within one square no directed edge occurs twice.
    pub proof fn lemma_oriented(self)
        requires
            self.wf(),
        ensures
            topology::oriented(self.faces()),
    {
        let t = self.faces();
        if self.span > 1 {
            self.lemma_faces();
            assert forall|i: int, s: int, j: int, r: int|
                topology::slot(t, i, s) && topology::slot(t, j, r) && #[trigger] topology::edge(t, i, s) == #[trigger] topology::edge(
                    t,
                    j,
                    r,
                ) implies i == j && s == r by {
                let d = self.side_of(i);
                let e = self.side_of(j);
                assert(t[i] == self.face(d, i - self.first(d)));
                assert(t[j] == self.face(e, j - self.first(e)));
                if s == 1 {
                    assert(t[i][1] != self.centre() && t[i][2] != self.centre());
                    assert(r == 1);
                }
            }
        } else {
            assert forall|i: int, s: int, j: int, r: int|
                topology::slot(t, i, s) && topology::slot(t, j, r) && #[trigger] topology::edge(t, i, s) == #[trigger] topology::edge(
                    t,
                    j,
                    r,
                ) implies i == j && s == r by {
                assert(i == 0 || i == 1);
                assert(j == 0 || j == 1);
            }
        }
    }

    /// Every directed edge of the square has the square on its inner side, and
    /// joins two of its vertices.
    pub proof fn lemma_inner(self, u: Point, v: Point)
        requires
            self.wf(),
            topology::has_edge(self.faces(), u, v),
        ensures
            self.has_cell(inner_cell(u, v).0, inner_cell(u, v).1),
            self.vertex(u),
            self.vertex(v),
    {
        let t = self.faces();
        let (i, s) = choose|i: int, s: int| topology::slot(t, i, s) && #[trigger] topology::edge(t, i, s) == (u, v);
        if self.span > 1 {
            self.lemma_faces();
            let d = self.side_of(i);
            assert(t[i] == self.face(d, i - self.first(d)));
            assert(d == 0 || d == 1 || d == 2 || d == 3);
        } else {
            assert(i == 0 || i == 1);
        }
    }

    /// The segments of the sides are edges of the square.
    pub proof fn lemma_seg(self, d: int, t: int)
        requires
            self.wf(),
            0 <= d < 4,
            self.base(d) <= t < self.base(d) + self.span,
        ensures
            topology::has_edge(self.faces(), self.seg(d, t).0, self.seg(d, t).1),
            self.vertex(self.seg(d, t).0),
            self.vertex(self.seg(d, t).1),
    {
        let f = self.faces();
        let e = self.seg(d, t);
        if self.span > 1 {
            self.lemma_faces();
            let r: int = if self.stitched(d) {
                let late = t >= self.base(d) + self.half();
                if (d < 2) == late {
                    1
                } else {
                    0
                }
            } else {
                0
            };
            assert(f[self.first(d) + r] == self.face(d, r));
            assert(topology::edge(f, self.first(d) + r, 1) == e);
        } else if d == 0 {
            assert(topology::edge(f, 0, 0) == e);
        } else if d == 1 {
            assert(topology::edge(f, 0, 1) == e);
        } else if d == 2 {
            assert(topology::edge(f, 1, 1) == e);
        } else {
            assert(topology::edge(f, 1, 2) == e);
        }
    }

    /// An edge of the square is run along backwards in the square too, or it is
    /// a segment of a side.
    #[verifier::rlimit(30)]
    #[verifier::spinoff_prover]
    pub proof fn lemma_edge(self, u: Point, v: Point) -> (at: (int, int))
        requires
            self.wf(),
            topology::has_edge(self.faces(), u, v),
        ensures
            topology::has_edge(self.faces(), v, u) || {
                &&& 0 <= at.0 < 4
                &&& self.base(at.0) <= at.1 < self.base(at.0) + self.span
                &&& self.seg(at.0, at.1) == (u, v)
            },
    {
        let t = self.faces();
        let (i, s) = choose|i: int, s: int| topology::slot(t, i, s) && #[trigger] topology::edge(t, i, s) == (u, v);
        if self.span > 1 {
            self.lemma_faces();
            let d = self.side_of(i);
            let r = i - self.first(d);
            assert(t[i] == self.face(d, r));
            assert(d == 0 || d == 1 || d == 2 || d == 3);
            if s == 0 {
                // The spoke out is the spoke in of the triangle before.
                let j = if i == 0 {
                    t.len() - 1
                } else {
                    i - 1
                };
                let e = self.side_of(j);
                assert(t[j] == self.face(e, j - self.first(e)));
                assert(topology::edge(t, j, 2) == (v, u));
                (0, 0)
            } else if s == 2 {
                let j = if i == t.len() - 1 {
                    0
                } else {
                    i + 1
                };
                let e = self.side_of(j);
                assert(t[j] == self.face(e, j - self.first(e)));
                assert(topology::edge(t, j, 0) == (v, u));
                (0, 0)
            } else {
                let late = self.stitched(d) && ((d < 2) == (r == 1));
                let at = (d, if late { self.base(d) + self.half() } else { self.base(d) });
                assert(self.seg(at.0, at.1) == (u, v));
                at
            }
        } else {
            assert(i == 0 || i == 1);
            if i == 0 && s == 0 {
                assert(self.seg(0, self.y) == (u, v));
                (0, self.y)
            } else if i == 0 && s == 1 {
                assert(self.seg(1, self.x) == (u, v));
                (1, self.x)
            } else if i == 1 && s == 1 {
                assert(self.seg(2, self.y) == (u, v));
                (2, self.y)
            } else if i == 1 && s == 2 {
                assert(self.seg(3, self.x) == (u, v));
                (3, self.x)
            } else if i == 0 {
                assert(topology::edge(t, 1, 0) == (v, u));
                (0, 0)
            } else {
                assert(topology::edge(t, 0, 2) == (v, u));
                (0, 0)
            }
        }
    }

    /// On a side, the vertices are the ends of its segments.
    pub proof fn lemma_on_side(self, d: int, t: int, v: Point)
        requires
            self.wf(),
            0 <= d < 4,
            self.base(d) <= t < self.base(d) + self.span,
            self.vertex(v),
            d == 0 ==> v.0 == self.x && self.lo(d, t) <= v.1 <= self.lo(d, t) + self.len(d),
            d == 1 ==> v.1 == self.y + self.span && self.lo(d, t) <= v.0 <= self.lo(d, t)
                + self.len(d),
            d == 2 ==> v.0 == self.x + self.span && self.lo(d, t) <= v.1 <= self.lo(d, t)
                + self.len(d),
            d == 3 ==> v.1 == self.y && self.lo(d, t) <= v.0 <= self.lo(d, t) + self.len(d),
        ensures
            v == self.seg(d, t).0 || v == self.seg(d, t).1,
    {
    }

    /// A fan triangle runs from the centre to a side, and along it.
    pub proof fn lemma_fan_shape(self, i: int)
        requires
            self.wf(),
            self.span > 1,
            0 <= i < self.faces().len(),
        ensures
            ({
                let h = self.half();
                let c = self.centre();
                let u = self.faces()[i][1];
                let v = self.faces()[i][2];
                let d = (u.0 - c.0, u.1 - c.1);
                let e = (v.0 - c.0, v.1 - c.1);
                &&& self.faces()[i] == [c, u, v]
                &&& {
                    ||| d.0 == -h && e.0 == -h && d.1 < e.1
                    ||| d.1 == h && e.1 == h && d.0 < e.0
                    ||| d.0 == h && e.0 == h && d.1 > e.1
                    ||| d.1 == -h && e.1 == -h && d.0 > e.0
                }
            }),
    {
        self.lemma_faces();
        let d = self.side_of(i);
        assert(self.faces()[i] == self.face(d, i - self.first(d)));
        let f = self.faces()[i];
        assert(f[0] == self.centre());
        assert(f =~= [f[0], f[1], f[2]]);
    }

    /// The triangles run between the square's own points.
    pub proof fn lemma_corners(self, i: int, s: int)
        requires
            self.wf(),
            topology::slot(self.faces(), i, s),
        ensures
            self.vertex(self.faces()[i][s]),
    {
        if self.span > 1 {
            self.lemma_faces();
            let d = self.side_of(i);
            assert(self.faces()[i] == self.face(d, i - self.first(d)));
        }
    }

    pub proof fn lemma_face_count(self)
        ensures
            self.faces().len() == (if self.span == 1 {
                2
            } else {
                4 + self.stitches()
            }),
    {
        if self.span != 1 {
            assert(self.faces().len() == 4 + self.stitches());
        }
    }
}

impl Square {
    /// A grid point of this square, its sides included.
    pub open spec fn has_point(self, p: Point) -> bool {
        self.x <= p.0 <= self.x + self.span && self.y <= p.1 <= self.y + self.span
    }

    /// The triangles that can stand over side `d`: the whole of it, the half
    /// before its middle, and the half behind.
    pub open spec fn wedge(self, d: int, r: int) -> [Point; 3] {
        if r == 0 {
            [self.centre(), self.corner(d), self.corner(d + 1)]
        } else if r == 1 {
            [self.centre(), self.corner(d), self.mid(d)]
        } else {
            [self.centre(), self.mid(d), self.corner(d + 1)]
        }
    }

    /// This square has that triangle.
    pub open spec fn shows(self, d: int, r: int) -> bool {
        0 <= d < 4 && if self.stitched(d) {
            r == 1 || r == 2
        } else {
            r == 0
        }
    }

    /// A fan is made of wedges.
    pub proof fn lemma_face_is_wedge(self, i: int) -> (at: (int, int))
        requires
            self.span > 1,
            0 <= i < self.faces().len(),
        ensures
            self.shows(at.0, at.1),
            0 <= at.1 < 3,
            self.faces()[i] == self.wedge(at.0, at.1),
    {
        self.lemma_faces();
        let d = self.side_of(i);
        let r = i - self.first(d);
        assert(self.faces()[i] == self.face(d, r));
        if self.stitched(d) {
            (d, r + 1)
        } else {
            (d, 0)
        }
    }

    /// The wedges that a square shows are among its triangles.
    pub proof fn lemma_wedge_is_face(self, d: int, r: int) -> (i: int)
        requires
            self.span > 1,
            self.shows(d, r),
        ensures
            0 <= i < self.faces().len(),
            self.faces()[i] == self.wedge(d, r),
    {
        self.lemma_faces();
        let k = if self.stitched(d) {
            r - 1
        } else {
            0
        };
        assert(self.faces()[self.first(d) + k] == self.face(d, k));
        self.first(d) + k
    }

    /// Wedges are wound like the grid, and stay in the square.
    pub proof fn lemma_wedge(self, d: int, r: int)
        requires
            self.wf(),
            self.span > 1,
            0 <= d < 4,
            0 <= r < 3,
        ensures
            ({
                let f = self.wedge(d, r);
                &&& triangle::area(f[0], f[1], f[2]) > 0
                &&& self.has_point(f[0])
                &&& self.has_point(f[1])
                &&& self.has_point(f[2])
            }),
    {
        let f = self.wedge(d, r);
        let h = self.half();
        let s = self.span;
        assert(s == 2 * h && h >= 1);
        assert(h * h > 0 && s * h > 0 && h * s > 0 && h * s == 2 * (h * h) && s * h == 2 * (h * h))
            by (nonlinear_arith)
            requires
                h >= 1,
                s == 2 * h,
        ;
        assert(d == 0 || d == 1 || d == 2 || d == 3);
        assert(r == 0 || r == 1 || r == 2);
        lemma_area(
            f[0],
            f[1],
            f[2],
            f[1].0 - f[0].0,
            f[1].1 - f[0].1,
            f[2].0 - f[0].0,
            f[2].1 - f[0].1,
        );
        assert((-h) * h == -(h * h) && h * (-h) == -(h * h) && (-h) * (-h) == h * h && h * 0 == 0
            && 0 * h == 0 && (-h) * 0 == 0 && 0 * (-h) == 0) by (nonlinear_arith);
    }

    /// A point between two diagonals is on the wedge over that side.
    proof fn lemma_in_wedge(self, d: int, p: Point, i: int, j: int) -> (r: int)
        requires
            self.wf(),
            self.span > 1,
            0 <= d < 4,
            self.has_point(p),
            i == p.0 - self.x,
            j == p.1 - self.y,
            d == 0 ==> i <= j && i + j <= self.span,
            d == 1 ==> i <= j && i + j >= self.span,
            d == 2 ==> i >= j && i + j >= self.span,
            d == 3 ==> i >= j && i + j <= self.span,
        ensures
            self.shows(d, r),
            0 <= r < 3,
            triangle::on(self.wedge(d, r), p),
    {
        let h = self.half();
        let s = self.span;
        assert(s == 2 * h && h >= 1);
        let t = if d == 0 || d == 2 {
            j
        } else {
            i
        };
        let r: int = if !self.stitched(d) {
            0
        } else if (t <= h) == (d < 2) {
            1
        } else {
            2
        };
        let f = self.wedge(d, r);
        let (u, v) = (i - h, j - h);
        assert(d == 0 || d == 1 || d == 2 || d == 3);
        triangle::lemma_parts(f[0], f[1], f[2], p);
        lemma_area(
            f[0],
            p,
            f[2],
            u,
            v,
            f[2].0 - f[0].0,
            f[2].1 - f[0].1,
        );
        lemma_area(f[0], f[1], p, f[1].0 - f[0].0, f[1].1 - f[0].1, u, v);
        lemma_area(
            f[0],
            f[1],
            f[2],
            f[1].0 - f[0].0,
            f[1].1 - f[0].1,
            f[2].0 - f[0].0,
            f[2].1 - f[0].1,
        );
        lemma_signs(h, u, v);
        lemma_signs(h, u, h);
        lemma_signs(h, v, h);
        lemma_signs(h, -h, h);
        r
    }

    /// Every grid point of a square lies on one of its triangles.
    pub proof fn lemma_point_on_face(self, p: Point) -> (k: int)
        requires
            self.wf(),
            self.has_point(p),
        ensures
            0 <= k < self.faces().len(),
            triangle::on(self.faces()[k], p),
    {
        let (i, j) = (p.0 - self.x, p.1 - self.y);
        if self.span == 1 {
            let f = self.faces();
            let k: int = if i == 1 && j == 0 {
                1
            } else {
                0
            };
            self.lemma_cell_area(k);
            triangle::lemma_corners(f[k]);
            assert(p == f[k][0] || p == f[k][1] || p == f[k][2]);
            k
        } else {
            let d: int = if i <= j {
                if i + j <= self.span {
                    0
                } else {
                    1
                }
            } else if i + j >= self.span {
                2
            } else {
                3
            };
            let r = self.lemma_in_wedge(d, p, i, j);
            self.lemma_wedge_is_face(d, r)
        }
    }

    /// The two halves of a single cell.
    pub proof fn lemma_cell_area(self, k: int)
        requires
            self.span == 1,
            0 <= k < 2,
        ensures
            ({
                let f = self.faces()[k];
                triangle::area(f[0], f[1], f[2]) == 1
            }),
    {
        let f = self.faces()[k];
        lemma_unit_area(f[0], f[1], f[2]);
    }

    /// The vertices of a square are corners of its triangles.
    pub proof fn lemma_vertex_occurs(self, v: Point)
        requires
            self.wf(),
            self.vertex(v),
        ensures
            topology::occurs(self.faces(), v),
    {
        let f = self.faces();
        if self.span == 1 {
            assert(topology::slot(f, 0, 0) && topology::slot(f, 0, 1) && topology::slot(f, 0, 2)
                && topology::slot(f, 1, 2));
            assert(f[0][0] == self.corner(0) && f[0][1] == self.corner(1) && f[0][2] == self.corner(
                2,
            ) && f[1][2] == self.corner(3));
        } else {
            let d: int = if v == self.corner(0) || v == self.centre() || v == self.mid(0) {
                0
            } else if v == self.corner(1) || v == self.mid(1) {
                1
            } else if v == self.corner(2) || v == self.mid(2) {
                2
            } else {
                3
            };
            let r: int = if self.stitched(d) {
                1
            } else {
                0
            };
            let k = self.lemma_wedge_is_face(d, r);
            let s: int = if v == self.centre() {
                0
            } else if v == self.corner(d) {
                1
            } else {
                2
            };
            assert(topology::slot(f, k, s) && f[k][s] == v);
        }
    }

    /// The corners of a triangle are three different points.
    pub proof fn lemma_face_proper(self, k: int)
        requires
            self.wf(),
            0 <= k < self.faces().len(),
        ensures
            ({
                let f = self.faces()[k];
                f[0] != f[1] && f[1] != f[2] && f[2] != f[0]
            }),
    {
        let f = self.faces()[k];
        if self.span != 1 {
            let at = self.lemma_face_is_wedge(k);
            let d = at.0;
            assert(d == 0 || d == 1 || d == 2 || d == 3);
        }
    }

    /// A single cell has no points but its corners.
    pub proof fn lemma_cell_points(self, k: int, p: Point)
        requires
            self.span == 1,
            0 <= k < 2,
            triangle::on(self.faces()[k], p),
        ensures
            p == self.faces()[k][0] || p == self.faces()[k][1] || p == self.faces()[k][2],
    {
        let f = self.faces()[k];
        self.lemma_cell_area(k);
        triangle::lemma_box(f, p);
        assert(self.has_point(p));
        if k == 0 && p == self.corner(3) {
            lemma_unit_area(f[0], p, f[2]);
        }
        if k == 1 && p == self.corner(1) {
            lemma_unit_area(f[0], f[1], p);
        }
    }
}

proof fn lemma_area(a: Point, b: Point, c: Point, bx: int, by: int, cx: int, cy: int)
    requires
        bx == b.0 - a.0,
        by == b.1 - a.1,
        cx == c.0 - a.0,
        cy == c.1 - a.1,
    ensures
        triangle::area(a, b, c) == cx * by - cy * bx,
{
}

/// Triangles among the corners of a cell.
proof fn lemma_unit_area(a: Point, b: Point, c: Point)
    requires
        b.0 - a.0 == 0 || b.0 - a.0 == 1,
        b.1 - a.1 == 0 || b.1 - a.1 == 1,
        c.0 - a.0 == 0 || c.0 - a.0 == 1,
        c.1 - a.1 == 0 || c.1 - a.1 == 1,
    ensures
        triangle::area(a, b, c) == (if c.0 - a.0 == 1 && b.1 - a.1 == 1 {
            1int
        } else {
            0
        }) - (if c.1 - a.1 == 1 && b.0 - a.0 == 1 {
            1int
        } else {
            0
        }),
{
    let (bx, by, cx, cy) = (b.0 - a.0, b.1 - a.1, c.0 - a.0, c.1 - a.1);
    lemma_area(a, b, c, bx, by, cx, cy);
    assert(cx * by == (if cx == 1 && by == 1 { 1int } else { 0 })) by (nonlinear_arith)
        requires
            cx == 0 || cx == 1,
            by == 0 || by == 1,
    ;
    assert(cy * bx == (if cy == 1 && bx == 1 { 1int } else { 0 })) by (nonlinear_arith)
        requires
            cy == 0 || cy == 1,
            bx == 0 || bx == 1,
    ;
}

/// Products with a positive factor.
proof fn lemma_signs(h: int, x: int, y: int)
    requires
        h >= 0,
    ensures
        x * h == h * x && y * h == h * y,
        (-h) * x == -(h * x) && x * (-h) == -(h * x),
        (-h) * y == -(h * y) && y * (-h) == -(h * y),
        0 * x == 0 && x * 0 == 0 && 0 * y == 0 && y * 0 == 0,
        h * (x + y) == h * x + h * y,
        h * (x - y) == h * x - h * y,
        x >= 0 ==> h * x >= 0,
        x <= 0 ==> h * x <= 0,
        y >= 0 ==> h * y >= 0,
        y <= 0 ==> h * y <= 0,
        x + y >= 0 ==> h * (x + y) >= 0,
        x + y <= 0 ==> h * (x + y) <= 0,
        x - y >= 0 ==> h * (x - y) >= 0,
        x - y <= 0 ==> h * (x - y) <= 0,
{
    assert(x * h == h * x && y * h == h * y && (-h) * x == -(h * x) && x * (-h) == -(h * x) && (-h)
        * y == -(h * y) && y * (-h) == -(h * y) && h * (x + y) == h * x + h * y && h * (x - y) == h
        * x - h * y) by (nonlinear_arith);
    lemma_sign(h, x);
    lemma_sign(h, y);
    lemma_sign(h, x + y);
    lemma_sign(h, x - y);
}

proof fn lemma_sign(h: int, x: int)
    requires
        h >= 0,
    ensures
        x >= 0 ==> h * x >= 0,
        x <= 0 ==> h * x <= 0,
{
    if x >= 0 {
        assert(h * x >= 0) by (nonlinear_arith)
            requires
                h >= 0,
                x >= 0,
        ;
    }
    if x <= 0 {
        assert(h * x <= 0) by (nonlinear_arith)
            requires
                h >= 0,
                x <= 0,
        ;
    }
}

} // verus!
