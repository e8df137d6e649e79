//! Counting over the grid: how many triangles a simplified surface has, given
//! its vertices.

use vstd::prelude::*;
use crate::quadtree;
use crate::quadtree::Tree;
use crate::square::{Point, Square};
use crate::topology;

verus! {

/// A number for each grid point.
pub type Weight = spec_fn(int, int) -> int;

/// The sum over one row, columns `x0` up to `x1`.
pub open spec fn row(f: Weight, x0: int, x1: int, y: int) -> int
    decreases x1 - x0,
{
    if x1 <= x0 {
        0
    } else {
        row(f, x0, x1 - 1, y) + f(x1 - 1, y)
    }
}

/// The sum over a rectangle, columns `x0` up to `x1`, rows `y0` up to `y1`.
pub open spec fn area(f: Weight, x0: int, x1: int, y0: int, y1: int) -> int
    decreases y1 - y0,
{
    if y1 <= y0 {
        0
    } else {
        area(f, x0, x1, y0, y1 - 1) + row(f, x0, x1, y1 - 1)
    }
}

proof fn lemma_row_split(f: Weight, x0: int, xm: int, x1: int, y: int)
    requires
        x0 <= xm <= x1,
    ensures
        row(f, x0, x1, y) == row(f, x0, xm, y) + row(f, xm, x1, y),
    decreases x1 - xm,
{
    if xm < x1 {
        lemma_row_split(f, x0, xm, x1 - 1, y);
    }
}

proof fn lemma_split_x(f: Weight, x0: int, xm: int, x1: int, y0: int, y1: int)
    requires
        x0 <= xm <= x1,
    ensures
        area(f, x0, x1, y0, y1) == area(f, x0, xm, y0, y1) + area(f, xm, x1, y0, y1),
    decreases y1 - y0,
{
    if y0 < y1 {
        lemma_split_x(f, x0, xm, x1, y0, y1 - 1);
        lemma_row_split(f, x0, xm, x1, y1 - 1);
    }
}

proof fn lemma_split_y(f: Weight, x0: int, x1: int, y0: int, ym: int, y1: int)
    requires
        y0 <= ym <= y1,
    ensures
        area(f, x0, x1, y0, y1) == area(f, x0, x1, y0, ym) + area(f, x0, x1, ym, y1),
    decreases y1 - ym,
{
    if ym < y1 {
        lemma_split_y(f, x0, x1, y0, ym, y1 - 1);
    }
}

/// Sums of two weights that agree on the rectangle.
proof fn lemma_area_same(f: Weight, g: Weight, x0: int, x1: int, y0: int, y1: int)
    requires
        forall|x: int, y: int| x0 <= x < x1 && y0 <= y < y1 ==> #[trigger] f(x, y) == g(x, y),
    ensures
        area(f, x0, x1, y0, y1) == area(g, x0, x1, y0, y1),
    decreases y1 - y0,
{
    if y0 < y1 {
        lemma_area_same(f, g, x0, x1, y0, y1 - 1);
        lemma_row_same(f, g, x0, x1, y1 - 1);
    }
}

proof fn lemma_row_same(f: Weight, g: Weight, x0: int, x1: int, y: int)
    requires
        forall|x: int| x0 <= x < x1 ==> #[trigger] f(x, y) == g(x, y),
    ensures
        row(f, x0, x1, y) == row(g, x0, x1, y),
    decreases x1 - x0,
{
    if x0 < x1 {
        lemma_row_same(f, g, x0, x1 - 1, y);
        assert(f(x1 - 1, y) == g(x1 - 1, y));
    }
}

/// A smaller weight has a smaller sum.
proof fn lemma_area_order(f: Weight, g: Weight, x0: int, x1: int, y0: int, y1: int)
    requires
        forall|x: int, y: int| x0 <= x < x1 && y0 <= y < y1 ==> #[trigger] f(x, y) <= g(x, y),
    ensures
        area(f, x0, x1, y0, y1) <= area(g, x0, x1, y0, y1),
    decreases y1 - y0,
{
    if y0 < y1 {
        lemma_area_order(f, g, x0, x1, y0, y1 - 1);
        lemma_row_order(f, g, x0, x1, y1 - 1);
    }
}

proof fn lemma_row_order(f: Weight, g: Weight, x0: int, x1: int, y: int)
    requires
        forall|x: int| x0 <= x < x1 ==> #[trigger] f(x, y) <= g(x, y),
    ensures
        row(f, x0, x1, y) <= row(g, x0, x1, y),
    decreases x1 - x0,
{
    if x0 < x1 {
        lemma_row_order(f, g, x0, x1 - 1, y);
        assert(f(x1 - 1, y) <= g(x1 - 1, y));
    }
}

/// The four corners of a cell together.
pub open spec fn quad(f: Weight) -> Weight {
    |x: int, y: int| f(x, y) + f(x + 1, y) + f(x, y + 1) + f(x + 1, y + 1)
}

proof fn lemma_row_quad(f: Weight, x0: int, x1: int, y: int)
    ensures
        row(quad(f), x0, x1, y) == row(f, x0, x1, y) + row(f, x0 + 1, x1 + 1, y) + row(
            f,
            x0,
            x1,
            y + 1,
        ) + row(f, x0 + 1, x1 + 1, y + 1),
    decreases x1 - x0,
{
    if x0 < x1 {
        lemma_row_quad(f, x0, x1 - 1, y);
    }
}

/// Summing corners cell by cell counts four shifted rectangles.
proof fn lemma_quad(f: Weight, x0: int, x1: int, y0: int, y1: int)
    ensures
        area(quad(f), x0, x1, y0, y1) == area(f, x0, x1, y0, y1) + area(f, x0 + 1, x1 + 1, y0, y1)
            + area(f, x0, x1, y0 + 1, y1 + 1) + area(f, x0 + 1, x1 + 1, y0 + 1, y1 + 1),
    decreases y1 - y0,
{
    if y0 < y1 {
        lemma_quad(f, x0, x1, y0, y1 - 1);
        lemma_row_quad(f, x0, x1, y1 - 1);
    }
}

/// Weighted points as one weight.
spec fn spread(p: Seq<(Point, int)>, v: Point) -> int
    decreases p.len(),
{
    if p.len() == 0 {
        0
    } else {
        spread(p.drop_last(), v) + (if p.last().0 == v {
            p.last().1
        } else {
            0
        })
    }
}

spec fn inside(v: Point, x0: int, x1: int, y0: int, y1: int) -> bool {
    x0 <= v.0 < x1 && y0 <= v.1 < y1
}

/// The weights of those points that lie in the rectangle.
spec fn held(p: Seq<(Point, int)>, x0: int, x1: int, y0: int, y1: int) -> int
    decreases p.len(),
{
    if p.len() == 0 {
        0
    } else {
        held(p.drop_last(), x0, x1, y0, y1) + (if inside(p.last().0, x0, x1, y0, y1) {
            p.last().1
        } else {
            0
        })
    }
}

proof fn lemma_row_add(f: Weight, g: Weight, h: Weight, x0: int, x1: int, y: int)
    requires
        forall|x: int| x0 <= x < x1 ==> #[trigger] h(x, y) == f(x, y) + g(x, y),
    ensures
        row(h, x0, x1, y) == row(f, x0, x1, y) + row(g, x0, x1, y),
    decreases x1 - x0,
{
    if x0 < x1 {
        lemma_row_add(f, g, h, x0, x1 - 1, y);
        assert(h(x1 - 1, y) == f(x1 - 1, y) + g(x1 - 1, y));
    }
}

proof fn lemma_area_add(f: Weight, g: Weight, h: Weight, x0: int, x1: int, y0: int, y1: int)
    requires
        forall|x: int, y: int|
            x0 <= x < x1 && y0 <= y < y1 ==> #[trigger] h(x, y) == f(x, y) + g(x, y),
    ensures
        area(h, x0, x1, y0, y1) == area(f, x0, x1, y0, y1) + area(g, x0, x1, y0, y1),
    decreases y1 - y0,
{
    if y0 < y1 {
        lemma_area_add(f, g, h, x0, x1, y0, y1 - 1);
        lemma_row_add(f, g, h, x0, x1, y1 - 1);
    }
}

proof fn lemma_row_point(v: Point, w: int, x0: int, x1: int, y: int)
    ensures
        row(
            |a: int, b: int|
                if v == (a, b) {
                    w
                } else {
                    0
                },
            x0,
            x1,
            y,
        ) == (if x0 <= v.0 < x1 && v.1 == y {
            w
        } else {
            0
        }),
    decreases x1 - x0,
{
    if x0 < x1 {
        lemma_row_point(v, w, x0, x1 - 1, y);
    }
}

proof fn lemma_area_point(v: Point, w: int, x0: int, x1: int, y0: int, y1: int)
    ensures
        area(
            |a: int, b: int|
                if v == (a, b) {
                    w
                } else {
                    0
                },
            x0,
            x1,
            y0,
            y1,
        ) == (if inside(v, x0, x1, y0, y1) {
            w
        } else {
            0
        }),
    decreases y1 - y0,
{
    if y0 < y1 {
        lemma_area_point(v, w, x0, x1, y0, y1 - 1);
        lemma_row_point(v, w, x0, x1, y1 - 1);
    }
}

proof fn lemma_row_zero(f: Weight, x0: int, x1: int, y: int)
    requires
        forall|x: int| x0 <= x < x1 ==> #[trigger] f(x, y) == 0,
    ensures
        row(f, x0, x1, y) == 0,
    decreases x1 - x0,
{
    if x0 < x1 {
        lemma_row_zero(f, x0, x1 - 1, y);
        assert(f(x1 - 1, y) == 0);
    }
}

proof fn lemma_area_zero(f: Weight, x0: int, x1: int, y0: int, y1: int)
    requires
        forall|x: int, y: int| x0 <= x < x1 && y0 <= y < y1 ==> #[trigger] f(x, y) == 0,
    ensures
        area(f, x0, x1, y0, y1) == 0,
    decreases y1 - y0,
{
    if y0 < y1 {
        lemma_area_zero(f, x0, x1, y0, y1 - 1);
        lemma_row_zero(f, x0, x1, y1 - 1);
    }
}

proof fn lemma_spread(p: Seq<(Point, int)>, x0: int, x1: int, y0: int, y1: int)
    ensures
        area(|a: int, b: int| spread(p, (a, b)), x0, x1, y0, y1) == held(p, x0, x1, y0, y1),
    decreases p.len(),
{
    let h = |a: int, b: int| spread(p, (a, b));
    if p.len() == 0 {
        lemma_area_zero(h, x0, x1, y0, y1);
    } else {
        let q = p.drop_last();
        let (v, w) = p.last();
        let f = |a: int, b: int| spread(q, (a, b));
        let g = |a: int, b: int|
            if v == (a, b) {
                w
            } else {
                0
            };
        lemma_spread(q, x0, x1, y0, y1);
        lemma_area_point(v, w, x0, x1, y0, y1);
        lemma_area_add(f, g, h, x0, x1, y0, y1);
    }
}

pub open spec fn flag(b: bool) -> int {
    if b {
        1
    } else {
        0
    }
}

impl Square {
    spec fn marks(self) -> Seq<(Point, int)> {
        let m = self.span > 1;
        seq![
            (self.corner(0), 1int),
            (self.corner(1), 1int),
            (self.corner(2), 1int),
            (self.corner(3), 1int),
            (self.centre(), if m { 1int } else { 0 }),
            (self.mid(0), flag(m && self.left)),
            (self.mid(1), flag(m && self.bottom)),
            (self.mid(2), flag(m && self.right)),
            (self.mid(3), flag(m && self.top)),
        ]
    }

    proof fn lemma_marks_spread(self, v: Point)
        requires
            self.wf(),
        ensures
            spread(self.marks(), v) == flag(self.vertex(v)),
    {
        let p = self.marks();
        let p8 = p.drop_last();
        let p7 = p8.drop_last();
        let p6 = p7.drop_last();
        let p5 = p6.drop_last();
        let p4 = p5.drop_last();
        let p3 = p4.drop_last();
        let p2 = p3.drop_last();
        let p1 = p2.drop_last();
        reveal_with_fuel(spread, 10);
        assert(p1.drop_last().len() == 0);
    }

    proof fn lemma_marks_held(self, x0: int, x1: int, y0: int, y1: int)
        requires
            self.wf(),
        ensures
            held(self.marks(), x0, x1, y0, y1) == flag(inside(self.corner(0), x0, x1, y0, y1))
                + flag(inside(self.corner(1), x0, x1, y0, y1)) + flag(
                inside(self.corner(2), x0, x1, y0, y1),
            ) + flag(inside(self.corner(3), x0, x1, y0, y1)) + flag(
                self.span > 1 && inside(self.centre(), x0, x1, y0, y1),
            ) + flag(self.span > 1 && self.left && inside(self.mid(0), x0, x1, y0, y1)) + flag(
                self.span > 1 && self.bottom && inside(self.mid(1), x0, x1, y0, y1),
            ) + flag(self.span > 1 && self.right && inside(self.mid(2), x0, x1, y0, y1)) + flag(
                self.span > 1 && self.top && inside(self.mid(3), x0, x1, y0, y1),
            ),
    {
        let p = self.marks();
        let p8 = p.drop_last();
        let p7 = p8.drop_last();
        let p6 = p7.drop_last();
        let p5 = p6.drop_last();
        let p4 = p5.drop_last();
        let p3 = p4.drop_last();
        let p2 = p3.drop_last();
        let p1 = p2.drop_last();
        reveal_with_fuel(held, 10);
        assert(p1.drop_last().len() == 0);
    }

    /// Counting, for each cell of the square, which of its corners are vertices
    /// of the square gives twice the number of triangles.
    proof fn lemma_square_count(self, f: Weight)
        requires
            self.wf(),
            forall|x: int, y: int|
                self.x <= x <= self.x + self.span && self.y <= y <= self.y + self.span
                    ==> #[trigger] f(x, y) == flag(self.vertex((x, y))),
        ensures
            area(quad(f), self.x, self.x + self.span, self.y, self.y + self.span) == 2
                * self.faces().len(),
    {
        let (x0, x1, y0, y1) = (self.x, self.x + self.span, self.y, self.y + self.span);
        let g = |a: int, b: int| spread(self.marks(), (a, b));
        assert forall|x: int, y: int| x0 <= x <= x1 && y0 <= y <= y1 implies #[trigger] f(x, y)
            == g(x, y) by {
            self.lemma_marks_spread((x, y));
        }
        lemma_quad(f, x0, x1, y0, y1);
        lemma_area_same(f, g, x0, x1, y0, y1);
        lemma_area_same(f, g, x0 + 1, x1 + 1, y0, y1);
        lemma_area_same(f, g, x0, x1, y0 + 1, y1 + 1);
        lemma_area_same(f, g, x0 + 1, x1 + 1, y0 + 1, y1 + 1);
        lemma_spread(self.marks(), x0, x1, y0, y1);
        lemma_spread(self.marks(), x0 + 1, x1 + 1, y0, y1);
        lemma_spread(self.marks(), x0, x1, y0 + 1, y1 + 1);
        lemma_spread(self.marks(), x0 + 1, x1 + 1, y0 + 1, y1 + 1);
        self.lemma_marks_held(x0, x1, y0, y1);
        self.lemma_marks_held(x0 + 1, x1 + 1, y0, y1);
        self.lemma_marks_held(x0, x1, y0 + 1, y1 + 1);
        self.lemma_marks_held(x0 + 1, x1 + 1, y0 + 1, y1 + 1);
        self.lemma_face_count();
    }
}

/// How many triangles the squares have together.
pub open spec fn faces_of(q: Seq<Square>) -> int
    decreases q.len(),
{
    if q.len() == 0 {
        0
    } else {
        faces_of(q.drop_last()) + q.last().faces().len()
    }
}

proof fn lemma_faces_of_add(a: Seq<Square>, b: Seq<Square>)
    ensures
        faces_of(a + b) == faces_of(a) + faces_of(b),
    decreases b.len(),
{
    if b.len() == 0 {
        assert(a + b =~= a);
    } else {
        assert((a + b).drop_last() =~= a + b.drop_last());
        lemma_faces_of_add(a, b.drop_last());
    }
}

/// The first squares have no more triangles than all of them.
pub proof fn lemma_faces_of_take(q: Seq<Square>, n: int)
    requires
        0 <= n <= q.len(),
    ensures
        0 <= faces_of(q.take(n)) <= faces_of(q),
        n < q.len() ==> faces_of(q.take(n + 1)) == faces_of(q.take(n)) + q[n].faces().len(),
    decreases q.len(),
{
    if n < q.len() {
        assert(q.take(n + 1).drop_last() =~= q.take(n));
        let r = q.drop_last();
        lemma_faces_of_take(r, n);
        assert(r.take(n) =~= q.take(n));
    } else {
        assert(q.take(n) =~= q);
        lemma_faces_of_positive(q);
    }
}

/// Where the triangles of a square stand among those of all squares.
pub proof fn lemma_faces_at(q: Seq<Square>, n: int)
    requires
        0 <= n < q.len(),
    ensures
        ({
            let all = topology::join(Seq::new(q.len(), |i: int| q[i].faces()));
            let (from, to) = (faces_of(q.take(n)), faces_of(q.take(n + 1)));
            &&& 0 <= from <= to <= all.len()
            &&& all.subrange(from, to) == q[n].faces()
        }),
    decreases q.len(),
{
    let parts = Seq::new(q.len(), |i: int| q[i].faces());
    let r = q.drop_last();
    let rest = Seq::new(r.len(), |i: int| r[i].faces());
    assert(parts.drop_last() =~= rest);
    lemma_faces_of_join(q);
    lemma_faces_of_join(r);
    lemma_faces_of_take(q, n);
    lemma_faces_of_take(q, n + 1);
    let (from, to) = (faces_of(q.take(n)), faces_of(q.take(n + 1)));
    if n < r.len() {
        lemma_faces_at(r, n);
        assert(r.take(n) =~= q.take(n));
        assert(r.take(n + 1) =~= q.take(n + 1));
        assert(topology::join(parts).subrange(from, to) =~= topology::join(rest).subrange(from, to));
    } else {
        assert(q.take(n) =~= r);
        assert(q.take(n + 1) =~= q);
        assert(topology::join(parts).subrange(from, to) =~= q[n].faces());
    }
}

proof fn lemma_faces_of_positive(q: Seq<Square>)
    ensures
        faces_of(q) >= 0,
    decreases q.len(),
{
    if q.len() > 0 {
        lemma_faces_of_positive(q.drop_last());
    }
}

proof fn lemma_faces_of_join(q: Seq<Square>)
    ensures
        topology::join(Seq::new(q.len(), |i: int| q[i].faces())).len() == faces_of(q),
    decreases q.len(),
{
    let p = Seq::new(q.len(), |i: int| q[i].faces());
    if q.len() > 0 {
        let r = q.drop_last();
        lemma_faces_of_join(r);
        assert(p.drop_last() =~= Seq::new(r.len(), |i: int| r[i].faces()));
    }
}

pub open spec fn least(a: int, b: int) -> int {
    if a < b {
        a
    } else {
        b
    }
}

impl Tree {
    /// One for each vertex of the simplified surface.
    pub open spec fn mark(self) -> Weight {
        |x: int, y: int| flag(self.used((x, y)))
    }

    /// How many vertices the simplified surface has.
    pub open spec fn vertex_count(self) -> int {
        area(self.mark(), 0, self.cw + 1, 0, self.ch + 1)
    }

    /// An undivided block of the tree.
    proof fn lemma_leaf_count(self, l: nat, bx: int, by: int)
        requires
            self.wf(),
            self.reached(l, bx, by),
            !(l > 0 && self.cut(l, bx, by)),
            bx * quadtree::side(l) < self.cw,
            by * quadtree::side(l) < self.ch,
        ensures
            bx * quadtree::side(l) + quadtree::side(l) <= self.cw,
            by * quadtree::side(l) + quadtree::side(l) <= self.ch,
            area(
                quad(self.mark()),
                bx * quadtree::side(l),
                bx * quadtree::side(l) + quadtree::side(l),
                by * quadtree::side(l),
                by * quadtree::side(l) + quadtree::side(l),
            ) == 2 * faces_of(self.leaves_of(l, bx, by)),
    {
        let q = self.square(l, bx, by);
        self.lemma_walk(l, bx, by);
        assert(self.leaves_of(l, bx, by) =~= seq![q]);
        assert(self.leaves_of(l, bx, by)[0] == q);
        assert(self.cell(q.x, q.y) && q == self.cover(q.x, q.y));
        self.lemma_cover(q.x, q.y);
        assert forall|x: int, y: int|
            q.x <= x <= q.x + q.span && q.y <= y <= q.y + q.span implies #[trigger] (self.mark())(
            x,
            y,
        ) == flag(q.vertex((x, y))) by {
            let cx = if x < q.x + q.span {
                x
            } else {
                x - 1
            };
            let cy = if y < q.y + q.span {
                y
            } else {
                y - 1
            };
            assert(self.cover(cx, cy) == q);
            if self.used((x, y)) {
                self.lemma_conform((x, y), cx, cy);
            }
        }
        q.lemma_square_count(self.mark());
        assert(seq![q].drop_last() =~= Seq::empty());
        reveal_with_fuel(faces_of, 2);
    }

    #[verifier::rlimit(60)]
    #[verifier::spinoff_prover]
    proof fn lemma_block_count(self, l: nat, bx: int, by: int)
        requires
            self.wf(),
            self.reached(l, bx, by),
        ensures
            clipped(
                quad(self.mark()),
                bx * quadtree::side(l),
                by * quadtree::side(l),
                quadtree::side(l),
                self.cw,
                self.ch,
            ) == 2 * faces_of(self.leaves_of(l, bx, by)),
        decreases l,
    {
        let s = quadtree::side(l);
        let f = quad(self.mark());
        let (x0, y0) = (bx * s, by * s);
        quadtree::lemma_side(l);
        if x0 >= self.cw || y0 >= self.ch {
            lemma_clipped_empty(f, x0, y0, s, self.cw, self.ch);
        } else if l > 0 && self.cut(l, bx, by) {
            let k = (l - 1) as nat;
            quadtree::lemma_quarters(l, bx);
            quadtree::lemma_quarters(l, by);
            quadtree::lemma_side((self.levels - l) as nat);
            quadtree::lemma_side(k);
            assert((self.levels - k) as nat == (self.levels - l) as nat + 1);
            assert(self.blocks(k) == 2 * self.blocks(l));
            let a = self.leaves_of(k, 2 * bx, 2 * by);
            let b = self.leaves_of(k, 2 * bx + 1, 2 * by);
            let c = self.leaves_of(k, 2 * bx, 2 * by + 1);
            let d = self.leaves_of(k, 2 * bx + 1, 2 * by + 1);
            self.lemma_block_count(k, 2 * bx, 2 * by);
            self.lemma_block_count(k, 2 * bx + 1, 2 * by);
            self.lemma_block_count(k, 2 * bx, 2 * by + 1);
            self.lemma_block_count(k, 2 * bx + 1, 2 * by + 1);
            lemma_faces_of_add(a, b);
            lemma_faces_of_add(a + b, c);
            lemma_faces_of_add(a + b + c, d);
            lemma_clipped_quarters(f, x0, y0, quadtree::side(k), self.cw, self.ch);
        } else {
            self.lemma_leaf_count(l, bx, by);
        }
    }

    /// The first `k` outline points that are vertices, down the left side.
    proof fn lemma_outline_left(self, k: nat)
        requires
            k <= self.ch + 1,
        ensures
            self.outline(k).len() == area(self.mark(), 0, 1, 0, k as int),
        decreases k,
    {
        if k > 0 {
            let j = (k - 1) as nat;
            self.lemma_outline_left(j);
            assert(self.around(j as int) == (0int, j as int));
            assert(row(self.mark(), 0, 0, j as int) == 0);
            assert(row(self.mark(), 0, 1, j as int) == (self.mark())(0, j as int));
        }
    }

    proof fn lemma_outline_bottom(self, m: nat)
        requires
            self.ch >= 0,
            m <= self.cw,
        ensures
            self.outline((self.ch + 1 + m) as nat).len() == area(self.mark(), 0, 1, 0, self.ch + 1)
                + row(self.mark(), 1, 1 + m as int, self.ch),
        decreases m,
    {
        if m == 0 {
            self.lemma_outline_left((self.ch + 1) as nat);
        } else {
            self.lemma_outline_bottom((m - 1) as nat);
            assert(self.around(self.ch + m) == (m as int, self.ch));
        }
    }

    proof fn lemma_outline_right(self, m: nat)
        requires
            self.cw >= 1,
            m <= self.ch,
        ensures
            self.outline((self.ch + 1 + self.cw + m) as nat).len() == area(
                self.mark(),
                0,
                1,
                0,
                self.ch + 1,
            ) + row(self.mark(), 1, 1 + self.cw, self.ch) + area(
                self.mark(),
                self.cw,
                self.cw + 1,
                self.ch - m,
                self.ch,
            ),
        decreases m,
    {
        if m == 0 {
            self.lemma_outline_bottom(self.cw as nat);
        } else {
            self.lemma_outline_right((m - 1) as nat);
            let y = self.ch - m;
            assert(self.around(self.ch + self.cw + m) == (self.cw, y));
            lemma_split_y(self.mark(), self.cw, self.cw + 1, y, y + 1, self.ch);
            lemma_one(self.mark(), self.cw, y);
        }
    }

    proof fn lemma_outline_top(self, m: nat)
        requires
            self.cw >= 1,
            self.ch >= 0,
            m <= self.cw - 1,
        ensures
            self.outline((2 * self.ch + 1 + self.cw + m) as nat).len() == area(
                self.mark(),
                0,
                1,
                0,
                self.ch + 1,
            ) + row(self.mark(), 1, 1 + self.cw, self.ch) + area(
                self.mark(),
                self.cw,
                self.cw + 1,
                0,
                self.ch,
            ) + row(self.mark(), self.cw - m, self.cw, 0),
        decreases m,
    {
        if m == 0 {
            self.lemma_outline_right(self.ch as nat);
        } else {
            self.lemma_outline_top((m - 1) as nat);
            let x = self.cw - m;
            let f = self.mark();
            assert(self.around(2 * self.ch + self.cw + m) == (x, 0int));
            lemma_row_split(f, x, x + 1, self.cw, 0);
            assert(row(f, x, x, 0) == 0);
            assert(row(f, x, x + 1, 0) == f(x, 0));
        }
    }

    /// The simplified surface is a disc: with `v` vertices, `b` of them on its
    /// border, it has `2v - b - 2` triangles.
    pub proof fn lemma_disc(self)
        requires
            self.wf(),
        ensures
            self.faces().len() == faces_of(self.leaves()),
            self.faces().len() == 2 * self.vertex_count() - self.border().len() - 2,
    {
        let f = self.mark();
        let (w, h) = (self.cw, self.ch);
        quadtree::lemma_side(self.levels);
        quadtree::lemma_side_zero();
        self.lemma_block_count(self.levels, 0, 0);
        lemma_faces_of_join(self.leaves());
        assert(0 * quadtree::side(self.levels) == 0);
        lemma_quad(f, 0, w, 0, h);
        lemma_split_x(f, 0, w, w + 1, 0, h + 1);
        lemma_split_x(f, 0, 1, w + 1, 0, h + 1);
        lemma_split_y(f, 0, w, 0, h, h + 1);
        lemma_split_y(f, 0, w, 0, 1, h + 1);
        lemma_split_y(f, 1, w + 1, 0, h, h + 1);
        lemma_split_y(f, 1, w + 1, 0, 1, h + 1);
        lemma_split_y(f, w, w + 1, 0, h, h + 1);
        lemma_strip_row(f, 0, w, 0);
        lemma_strip_row(f, 0, w, h);
        lemma_strip_row(f, 1, w + 1, 0);
        lemma_strip_row(f, 1, w + 1, h);
        lemma_one(f, w, h);
        lemma_row_split(f, 0, 1, w, 0);
        lemma_row_split(f, 0, 1, w, h);
        lemma_row_split(f, 1, w, w + 1, 0);
        lemma_row_split(f, 1, w, w + 1, h);
        lemma_row_one(f, 0, 0);
        lemma_row_one(f, 0, h);
        lemma_row_one(f, w, 0);
        lemma_row_one(f, w, h);
        self.lemma_corners_used();
        self.lemma_outline_top((w - 1) as nat);
    }

    /// Fewer vertices, fewer triangles: a surface whose vertices are all
    /// vertices of another over the same grid has no more triangles.
    pub proof fn lemma_fewer(self, other: Tree)
        requires
            self.wf(),
            other.wf(),
            self.cw == other.cw,
            self.ch == other.ch,
            forall|v: Point| #[trigger] self.used(v) ==> other.used(v),
        ensures
            self.vertex_count() <= other.vertex_count(),
            self.faces().len() <= other.faces().len(),
    {
        let (w, h) = (self.cw, self.ch);
        let f = self.mark();
        let g = other.mark();
        self.lemma_disc();
        other.lemma_disc();
        self.lemma_outline_top((w - 1) as nat);
        other.lemma_outline_top((w - 1) as nat);
        assert forall|x: int, y: int| #[trigger] f(x, y) <= g(x, y) by {
            assert(self.used((x, y)) ==> other.used((x, y)));
        }
        lemma_ring(f, w, h);
        lemma_ring(g, w, h);
        lemma_area_order(f, g, 1, w, 1, h);
        lemma_area_order(f, g, 0, 1, 0, h + 1);
        lemma_row_order(f, g, 1, 1 + w, h);
        lemma_area_order(f, g, w, w + 1, 0, h);
        lemma_row_order(f, g, 1, w, 0);
    }
}

/// The whole rectangle of points is its inside and its outline.
proof fn lemma_ring(f: Weight, w: int, h: int)
    requires
        w >= 1,
        h >= 1,
    ensures
        area(f, 0, w + 1, 0, h + 1) == area(f, 1, w, 1, h) + area(f, 0, 1, 0, h + 1) + row(
            f,
            1,
            1 + w,
            h,
        ) + area(f, w, w + 1, 0, h) + row(f, 1, w, 0),
{
    lemma_split_x(f, 0, 1, w + 1, 0, h + 1);
    lemma_split_y(f, 1, w + 1, 0, h, h + 1);
    lemma_strip_row(f, 1, w + 1, h);
    lemma_split_x(f, 1, w, w + 1, 0, h);
    lemma_split_y(f, 1, w, 0, 1, h);
    lemma_strip_row(f, 1, w, 0);
}

proof fn lemma_row_one(f: Weight, x: int, y: int)
    ensures
        row(f, x, x + 1, y) == f(x, y),
{
    assert(row(f, x, x, y) == 0);
}

proof fn lemma_strip_row(f: Weight, x0: int, x1: int, y: int)
    ensures
        area(f, x0, x1, y, y + 1) == row(f, x0, x1, y),
{
    assert(area(f, x0, x1, y, y) == 0);
}

proof fn lemma_one(f: Weight, x: int, y: int)
    ensures
        area(f, x, x + 1, y, y + 1) == f(x, y),
{
    lemma_strip_row(f, x, x + 1, y);
    lemma_row_one(f, x, y);
}

/// The sum over a block of side `s`, as far as it lies in the grid.
spec fn clipped(f: Weight, x: int, y: int, s: int, cw: int, ch: int) -> int {
    area(f, x, least(x + s, cw), y, least(y + s, ch))
}

proof fn lemma_clipped_empty(f: Weight, x: int, y: int, s: int, cw: int, ch: int)
    requires
        x >= cw || y >= ch,
    ensures
        clipped(f, x, y, s, cw, ch) == 0,
{
    lemma_area_zero_when(f, x, least(x + s, cw), y, least(y + s, ch));
}

proof fn lemma_area_zero_when(f: Weight, x0: int, x1: int, y0: int, y1: int)
    requires
        x1 <= x0 || y1 <= y0,
    ensures
        area(f, x0, x1, y0, y1) == 0,
{
    if x1 <= x0 {
        lemma_area_zero(f, x0, x1, y0, y1);
    }
}

proof fn lemma_clipped_quarters(f: Weight, x: int, y: int, s: int, cw: int, ch: int)
    requires
        s >= 1,
        x < cw,
        y < ch,
    ensures
        clipped(f, x, y, 2 * s, cw, ch) == clipped(f, x, y, s, cw, ch) + clipped(
            f,
            x + s,
            y,
            s,
            cw,
            ch,
        ) + clipped(f, x, y + s, s, cw, ch) + clipped(f, x + s, y + s, s, cw, ch),
{
    let x1 = least(x + 2 * s, cw);
    let y1 = least(y + 2 * s, ch);
    let xm = least(x + s, cw);
    let ym = least(y + s, ch);
    lemma_split_y(f, x, x1, y, ym, y1);
    lemma_split_x(f, x, xm, x1, y, ym);
    lemma_split_x(f, x, xm, x1, ym, y1);
    if x + s >= cw {
        lemma_area_zero_when(f, xm, x1, y, ym);
        lemma_area_zero_when(f, xm, x1, ym, y1);
        lemma_clipped_empty(f, x + s, y, s, cw, ch);
        lemma_clipped_empty(f, x + s, y + s, s, cw, ch);
    }
    if y + s >= ch {
        lemma_area_zero_when(f, x, xm, ym, y1);
        lemma_area_zero_when(f, xm, x1, ym, y1);
        lemma_clipped_empty(f, x, y + s, s, cw, ch);
        lemma_clipped_empty(f, x + s, y + s, s, cw, ch);
    }
}

} // verus!
