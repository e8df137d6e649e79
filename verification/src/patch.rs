//! The simplified surface as a whole: consistently wound, and open along the
//! outline of the grid and nowhere else.

use vstd::prelude::*;
use crate::quadtree;
use crate::quadtree::Tree;
use crate::square;
use crate::square::Point;
use crate::topology;

verus! {

/// The outline of a grid of `cw` by `ch` cells, counter-clockwise from the
/// top-left corner: down the left, right along the bottom, up the right, back
/// along the top.
pub open spec fn around(cw: int, ch: int, k: int) -> Point {
    if k <= ch {
        (0, k)
    } else if k <= ch + cw {
        (k - ch, ch)
    } else if k <= 2 * ch + cw {
        (cw, 2 * ch + cw - k)
    } else {
        (2 * ch + 2 * cw - k, 0)
    }
}

/// Which side of the grid the step after outline position `k` runs along.
pub open spec fn side_at(cw: int, ch: int, k: int) -> int {
    if k < ch {
        0
    } else if k < ch + cw {
        1
    } else if k < 2 * ch + cw {
        2
    } else {
        3
    }
}

/// The cell inside the step after outline position `k`.
pub open spec fn cell_at(cw: int, ch: int, k: int) -> (int, int) {
    if k < ch {
        (0, k)
    } else if k < ch + cw {
        (k - ch, ch - 1)
    } else if k < 2 * ch + cw {
        (cw - 1, 2 * ch + cw - k - 1)
    } else {
        (2 * ch + 2 * cw - k - 1, 0)
    }
}

impl Tree {
    pub open spec fn outline_len(self) -> int {
        2 * (self.cw + self.ch)
    }

    pub open spec fn around(self, k: int) -> Point {
        around(self.cw, self.ch, k)
    }

    /// Triangles square by square.
    pub open spec fn parts(self) -> Seq<Seq<[Point; 3]>> {
        Seq::new(self.leaves().len(), |i: int| self.leaves()[i].faces())
    }

    /// The triangles of the simplified surface, on grid points.
    pub open spec fn faces(self) -> Seq<[Point; 3]> {
        topology::join(self.parts())
    }

    /// The vertices among the first `n` points of the outline.
    pub open spec fn outline(self, n: nat) -> Seq<Point>
        decreases n,
    {
        if n == 0 {
            Seq::empty()
        } else {
            let k = (n - 1) as nat;
            if self.used(self.around(k as int)) {
                self.outline(k).push(self.around(k as int))
            } else {
                self.outline(k)
            }
        }
    }

    /// Outline position `i` is the `a`-th vertex of the outline.
    pub open spec fn nth(self, i: nat, a: int) -> bool {
        self.used(self.around(i as int)) && self.outline(i).len() == a
    }

    pub open spec fn listed(self, n: nat, a: int) -> bool {
        exists|i: nat| i < n && #[trigger] self.nth(i, a)
    }

    /// The border of the simplified surface.
    pub open spec fn border(self) -> Seq<Point> {
        self.outline(self.outline_len() as nat)
    }

    /// The surface runs along an edge when the square on its inner side does.
    pub proof fn lemma_face_edges(self)
        requires
            self.wf(),
        ensures
            forall|u: Point, v: Point| #[trigger]
                topology::has_edge(self.faces(), u, v) ==> {
                    let c = square::inner_cell(u, v);
                    self.cell(c.0, c.1) && topology::has_edge(self.cover(c.0, c.1).faces(), u, v)
                },
            forall|cx: int, cy: int, u: Point, v: Point|
                self.cell(cx, cy) && #[trigger] topology::has_edge(self.cover(cx, cy).faces(), u, v)
                    ==> topology::has_edge(self.faces(), u, v),
    {
        let q = self.leaves();
        let parts = self.parts();
        self.lemma_leaves();
        topology::lemma_join_edges(parts);
        assert forall|u: Point, v: Point| #[trigger] topology::has_edge(self.faces(), u, v) implies {
            let c = square::inner_cell(u, v);
            self.cell(c.0, c.1) && topology::has_edge(self.cover(c.0, c.1).faces(), u, v)
        } by {
            let a = choose|a: int| 0 <= a < parts.len() && #[trigger] topology::has_edge(parts[a], u, v);
            self.lemma_cover(q[a].x, q[a].y);
            q[a].lemma_inner(u, v);
            let c = square::inner_cell(u, v);
            assert(self.cover(c.0, c.1) == q[a]);
        }
        assert forall|cx: int, cy: int, u: Point, v: Point|
            self.cell(cx, cy) && #[trigger] topology::has_edge(
                self.cover(cx, cy).faces(),
                u,
                v,
            ) implies topology::has_edge(self.faces(), u, v) by {
            let z = self.cover(cx, cy);
            assert(q.contains(z));
            let a = choose|a: int| 0 <= a < q.len() && q[a] == z;
            assert(topology::has_edge(parts[a], u, v));
        }
    }

    /// No directed edge of the surface occurs twice.
    pub proof fn lemma_faces_oriented(self)
        requires
            self.wf(),
        ensures
            topology::oriented(self.faces()),
    {
        let q = self.leaves();
        let parts = self.parts();
        self.lemma_leaves();
        assert forall|a: int| 0 <= a < parts.len() implies topology::oriented(#[trigger] parts[a]) by {
            self.lemma_cover(q[a].x, q[a].y);
            q[a].lemma_oriented();
        }
        assert forall|a: int, b: int, u: Point, v: Point|
            0 <= a < parts.len() && 0 <= b < parts.len() && #[trigger] topology::has_edge(parts[a], u, v)
                && #[trigger] topology::has_edge(parts[b], u, v) implies a == b by {
            self.lemma_cover(q[a].x, q[a].y);
            self.lemma_cover(q[b].x, q[b].y);
            q[a].lemma_inner(u, v);
            q[b].lemma_inner(u, v);
            let c = square::inner_cell(u, v);
            assert(self.cover(c.0, c.1) == q[a]);
            assert(self.cover(c.0, c.1) == q[b]);
        }
        topology::lemma_join_oriented(parts);
    }

    /// How far the surface runs straight on from outline position `k`.
    pub open spec fn hop(self, k: int) -> int {
        let c = cell_at(self.cw, self.ch, k);
        self.cover(c.0, c.1).len(side_at(self.cw, self.ch, k))
    }

    /// The side segment of the covering square that starts at an outline vertex.
    proof fn lemma_hop_segment(self, k: int)
        requires
            self.wf(),
            0 <= k < self.outline_len(),
            self.used(self.around(k)),
        ensures
            self.hop(k) >= 1,
            k + self.hop(k) <= self.outline_len(),
            ({
                let c = cell_at(self.cw, self.ch, k);
                let d = side_at(self.cw, self.ch, k);
                let q = self.cover(c.0, c.1);
                &&& self.cell(c.0, c.1)
                &&& q.wf()
                &&& q.has_cell(c.0, c.1)
                &&& 0 <= d < 4
                &&& q.base(d) <= quadtree::along(c.0, c.1, d) < q.base(d) + q.span
                &&& q.seg(d, quadtree::along(c.0, c.1, d)) == (
                    self.around(k),
                    self.around(k + self.hop(k)),
                )
            }),
    {
        let v = self.around(k);
        let c = cell_at(self.cw, self.ch, k);
        let d = side_at(self.cw, self.ch, k);
        let t = quadtree::along(c.0, c.1, d);
        let q = self.cover(c.0, c.1);
        self.lemma_cover(c.0, c.1);
        self.lemma_conform(v, c.0, c.1);
        q.lemma_on_side(d, t, v);
    }

    /// From a vertex of the outline, the surface runs along the outline to the
    /// next vertex of it.
    proof fn lemma_hop(self, k: int)
        requires
            self.wf(),
            0 <= k < self.outline_len(),
            self.used(self.around(k)),
        ensures
            self.hop(k) >= 1,
            k + self.hop(k) <= self.outline_len(),
            topology::has_edge(self.faces(), self.around(k), self.around(k + self.hop(k))),
            self.used(self.around(k + self.hop(k))),
            ({
                let c = cell_at(self.cw, self.ch, k);
                let d = side_at(self.cw, self.ch, k);
                self.cover(c.0, c.1).seg(d, quadtree::along(c.0, c.1, d)) == (
                    self.around(k),
                    self.around(k + self.hop(k)),
                )
            }),
    {
        let c = cell_at(self.cw, self.ch, k);
        let d = side_at(self.cw, self.ch, k);
        let q = self.cover(c.0, c.1);
        self.lemma_hop_segment(k);
        q.lemma_seg(d, quadtree::along(c.0, c.1, d));
        self.lemma_face_edges();
        let v = self.around(k + self.hop(k));
        assert(q.vertex(v));
        assert(self.used(v));
    }

    /// Between two vertices that follow each other along the outline there is
    /// no third.
    proof fn lemma_hop_gap(self, k: int, j: int)
        requires
            self.wf(),
            0 <= k < self.outline_len(),
            self.used(self.around(k)),
            k < j < k + self.hop(k),
        ensures
            !self.used(self.around(j)),
    {
        self.lemma_hop_segment(k);
        let c = cell_at(self.cw, self.ch, k);
        let d = side_at(self.cw, self.ch, k);
        let q = self.cover(c.0, c.1);
        self.lemma_cover(c.0, c.1);
        if self.used(self.around(j)) {
            let b = cell_at(self.cw, self.ch, j);
            assert(side_at(self.cw, self.ch, j) == d);
            assert(q.has_cell(b.0, b.1));
            assert(self.cover(b.0, b.1) == q);
            self.lemma_conform(self.around(j), b.0, b.1);
            q.lemma_on_side(d, quadtree::along(c.0, c.1, d), self.around(j));
        }
    }

    /// An edge of the surface without a reverse runs along the outline.
    proof fn lemma_open_edge(self, u: Point, v: Point) -> (k: int)
        requires
            self.wf(),
            topology::has_edge(self.faces(), u, v),
            !topology::has_edge(self.faces(), v, u),
        ensures
            0 <= k < self.outline_len(),
            self.used(self.around(k)),
            u == self.around(k),
            v == self.around(k + self.hop(k)),
    {
        self.lemma_face_edges();
        let i = square::inner_cell(u, v);
        let q = self.cover(i.0, i.1);
        self.lemma_cover(i.0, i.1);
        q.lemma_inner(u, v);
        let at = q.lemma_edge(u, v);
        if topology::has_edge(q.faces(), v, u) {
            assert(false);
        }
        let d = at.0;
        let t = at.1;
        // A cell of the square along that side.
        let c = if d == 0 {
            (q.x, t)
        } else if d == 1 {
            (t, q.y + q.span - 1)
        } else if d == 2 {
            (q.x + q.span - 1, t)
        } else {
            (t, q.y)
        };
        assert(self.cover(c.0, c.1) == q);
        let n = quadtree::across(c.0, c.1, d);
        if self.cell(n.0, n.1) {
            self.lemma_meet(c.0, c.1, d);
            let b = self.cover(n.0, n.1);
            self.lemma_cover(n.0, n.1);
            b.lemma_seg(square::opposite(d), t);
            assert(topology::has_edge(self.faces(), v, u));
            assert(false);
        }
        let k = if d == 0 {
            u.1
        } else if d == 1 {
            self.ch + u.0
        } else if d == 2 {
            2 * self.ch + self.cw - u.1
        } else {
            2 * self.ch + 2 * self.cw - u.0
        };
        assert(self.around(k) == u);
        assert(self.used(u));
        assert(side_at(self.cw, self.ch, k) == d);
        let b = cell_at(self.cw, self.ch, k);
        assert(q.has_cell(b.0, b.1));
        assert(self.cover(b.0, b.1) == q);
        self.lemma_hop(k);
        k
    }

    /// Nothing runs along the outline clockwise.
    proof fn lemma_no_clockwise(self, k: int)
        requires
            self.wf(),
            0 <= k < self.outline_len(),
            self.used(self.around(k)),
        ensures
            !topology::has_edge(self.faces(), self.around(k + self.hop(k)), self.around(k)),
    {
        self.lemma_hop(k);
        self.lemma_face_edges();
        let c = cell_at(self.cw, self.ch, k);
        self.lemma_cover(c.0, c.1);
        if topology::has_edge(self.faces(), self.around(k + self.hop(k)), self.around(k)) {
            let i = square::inner_cell(self.around(k + self.hop(k)), self.around(k));
            assert(self.cell(i.0, i.1));
        }
    }

    proof fn lemma_around_injective(self, i: int, j: int)
        requires
            self.wf(),
            0 <= i < self.outline_len(),
            0 <= j < self.outline_len(),
            self.around(i) == self.around(j),
        ensures
            i == j,
    {
    }

    /// Each vertex of the outline stands in the border list where the number of
    /// vertices before it says.
    proof fn lemma_outline(self, n: nat)
        requires
            self.wf(),
            n <= self.outline_len(),
        ensures
            forall|i: nat|
                i < n && self.used(#[trigger] self.around(i as int)) ==> self.outline(i).len()
                    < self.outline(n).len() && self.outline(n)[self.outline(i).len() as int]
                    == self.around(i as int),
            forall|a: int|
                0 <= a < self.outline(n).len() ==> #[trigger] self.listed(n, a),
        decreases n,
    {
        if n > 0 {
            let m = (n - 1) as nat;
            self.lemma_outline(m);
            assert forall|a: int| 0 <= a < self.outline(n).len() implies #[trigger] self.listed(n, a) by {
                if a < self.outline(m).len() {
                    assert(self.listed(m, a));
                    let i = choose|i: nat| i < m && #[trigger] self.nth(i, a);
                    assert(self.nth(i, a));
                } else {
                    assert(self.nth(m, a));
                }
            }
        }
    }

    proof fn lemma_outline_gap(self, i: nat, j: nat)
        requires
            i < j <= self.outline_len(),
            self.used(self.around(i as int)),
            forall|k: int| i < k < j ==> !self.used(#[trigger] self.around(k)),
        ensures
            self.outline(j).len() == self.outline(i).len() + 1,
        decreases j,
    {
        if j > i + 1 {
            let m = (j - 1) as nat;
            assert(!self.used(self.around(m as int)));
            self.lemma_outline_gap(i, m);
        }
    }

    /// The corners of the grid are always vertices.
    pub proof fn lemma_corners_used(self)
        requires
            self.wf(),
        ensures
            self.used((0, 0)),
            self.used((0, self.ch)),
            self.used((self.cw, self.ch)),
            self.used((self.cw, 0)),
    {
        let (w, h) = (self.cw, self.ch);
        self.lemma_cover(0, 0);
        self.lemma_cover(0, h - 1);
        self.lemma_cover(w - 1, h - 1);
        self.lemma_cover(w - 1, 0);
        assert(self.cover(0, 0).vertex((0, 0)));
        assert(self.cover(0, h - 1).vertex((0, h)));
        assert(self.cover(w - 1, h - 1).vertex((w, h)));
        assert(self.cover(w - 1, 0).vertex((w, 0)));
    }

    /// The border lists distinct vertices, at least the four corners.
    pub proof fn lemma_border(self)
        requires
            self.wf(),
        ensures
            self.border().no_duplicates(),
            self.border().len() >= 4,
            forall|a: int|
                0 <= a < self.border().len() ==> self.used(#[trigger] self.border()[a]) && exists|i: int|
                    0 <= i < self.outline_len() && self.border()[a] == self.around(i),
            forall|i: int|
                0 <= i < self.outline_len() && self.used(#[trigger] self.around(i)) ==> self.border().contains(
                    self.around(i),
                ),
    {
        let n = self.outline_len() as nat;
        let c = self.border();
        self.lemma_outline(n);
        self.lemma_corners_used();
        assert forall|a: int| 0 <= a < c.len() implies self.used(#[trigger] c[a]) && exists|i: int|
            0 <= i < self.outline_len() && c[a] == self.around(i) by {
            assert(self.listed(self.outline_len() as nat, a));
            let i = choose|i: nat| i < self.outline_len() && #[trigger] self.nth(i, a);
            assert(c[a] == self.around(i as int));
        }
        assert forall|i: int| 0 <= i < n && self.used(#[trigger] self.around(i)) implies c.contains(
            self.around(i),
        ) by {
            assert(self.used(self.around((i as nat) as int)));
            assert(c[self.outline(i as nat).len() as int] == self.around(i));
        }
        assert forall|a: int, b: int| 0 <= a < c.len() && 0 <= b < c.len() && a != b implies c[a]
            != c[b] by {
            assert(self.listed(self.outline_len() as nat, a));
            let i = choose|i: nat| i < self.outline_len() && #[trigger] self.nth(i, a);
            assert(self.listed(self.outline_len() as nat, b));
            let j = choose|j: nat| j < self.outline_len() && #[trigger] self.nth(j, b);
            assert(c[a] == self.around(i as int));
            assert(c[b] == self.around(j as int));
            if c[a] == c[b] {
                self.lemma_around_injective(i as int, j as int);
            }
        }
        let (w, h) = (self.cw, self.ch);
        assert(self.around(0) == (0int, 0int));
        assert(self.around(h) == (0int, h));
        assert(self.around(h + w) == (w, h));
        assert(self.around(2 * h + w) == (w, 0int));
        assert(c.contains((0, 0)) && c.contains((0, h)) && c.contains((w, h)) && c.contains((w, 0)));
        let i0 = choose|i: int| 0 <= i < c.len() && c[i] == (0int, 0int);
        let i1 = choose|i: int| 0 <= i < c.len() && c[i] == (0int, h);
        let i2 = choose|i: int| 0 <= i < c.len() && c[i] == (w, h);
        let i3 = choose|i: int| 0 <= i < c.len() && c[i] == (w, 0int);
        assert(i0 != i1 && i0 != i2 && i0 != i3 && i1 != i2 && i1 != i3 && i2 != i3);
    }

    proof fn lemma_outline_grows(self, i: nat, j: nat)
        requires
            i <= j,
        ensures
            self.outline(i).len() <= self.outline(j).len(),
        decreases j,
    {
        if i < j {
            self.lemma_outline_grows(i, (j - 1) as nat);
        }
    }

    /// The border keeps the order of the outline, and misses no vertex on it.
    pub proof fn lemma_border_order(self)
        requires
            self.wf(),
        ensures
            forall|a: int, b: int, i: int, j: int|
                0 <= a < b < self.border().len() && 0 <= i < self.outline_len() && 0 <= j
                    < self.outline_len() && #[trigger] self.border()[a] == #[trigger] self.around(i)
                    && #[trigger] self.border()[b] == #[trigger] self.around(j) ==> i < j,
            forall|p: Point|
                self.used(p) && 0 <= p.0 <= self.cw && 0 <= p.1 <= self.ch && (p.0 == 0 || p.1 == 0
                    || p.0 == self.cw || p.1 == self.ch) ==> #[trigger] self.border().contains(p),
    {
        let n = self.outline_len() as nat;
        let c = self.border();
        self.lemma_border();
        self.lemma_outline(n);
        assert forall|a: int, b: int, i: int, j: int|
            0 <= a < b < c.len() && 0 <= i < n && 0 <= j < n && #[trigger] c[a]
                == #[trigger] self.around(i) && #[trigger] c[b] == #[trigger] self.around(
                j,
            ) implies i < j by {
            assert(self.listed(n, a));
            let k = choose|k: nat| k < n && #[trigger] self.nth(k, a);
            assert(self.listed(n, b));
            let m = choose|m: nat| m < n && #[trigger] self.nth(m, b);
            self.lemma_around_injective(i, k as int);
            self.lemma_around_injective(j, m as int);
            if m <= k {
                self.lemma_outline_grows(m, k);
            }
        }
        assert forall|p: Point|
            self.used(p) && 0 <= p.0 <= self.cw && 0 <= p.1 <= self.ch && (p.0 == 0 || p.1 == 0
                || p.0 == self.cw || p.1 == self.ch) implies #[trigger] c.contains(p) by {
            let k = if p.0 == 0 {
                p.1
            } else if p.1 == self.ch {
                self.ch + p.0
            } else if p.0 == self.cw {
                2 * self.ch + self.cw - p.1
            } else {
                2 * self.ch + 2 * self.cw - p.0
            };
            assert(self.around(k) == p);
        }
    }

    /// The next border vertex after an outline vertex is one hop away.
    proof fn lemma_follows(self, k: int)
        requires
            self.wf(),
            0 <= k < self.outline_len(),
            self.used(self.around(k)),
        ensures
            ({
                let c = self.border();
                let a = self.outline(k as nat).len() as int;
                &&& 0 <= a < c.len()
                &&& c[a] == self.around(k)
                &&& c[topology::succ(a, c.len() as int)] == self.around(k + self.hop(k))
            }),
    {
        let n = self.outline_len();
        let c = self.border();
        self.lemma_hop(k);
        self.lemma_outline(n as nat);
        self.lemma_corners_used();
        let i = k as nat;
        assert(self.used(self.around(i as int)));
        let j = (k + self.hop(k)) as nat;
        assert forall|m: int| i < m < j implies !self.used(#[trigger] self.around(m)) by {
            self.lemma_hop_gap(k, m);
        }
        self.lemma_outline_gap(i, j);
        if j < n {
            assert(self.used(self.around(j as int)));
        } else {
            assert(self.around(n) == (0int, 0int));
            assert(self.around(0) == (0int, 0int));
            assert(self.used(self.around(0nat as int)));
            assert(self.outline(0).len() == 0);
        }
    }

    /// The open edges of the simplified surface are the steps of its border.
    pub proof fn lemma_bounded(self)
        requires
            self.wf(),
        ensures
            topology::bounded_by(self.faces(), self.border()),
    {
        let t = self.faces();
        let c = self.border();
        assert forall|u: Point, v: Point|
            (#[trigger] topology::has_edge(t, u, v) && !topology::has_edge(t, v, u)) <==> topology::follows(c, u, v) by {
            if topology::has_edge(t, u, v) && !topology::has_edge(t, v, u) {
                let k = self.lemma_open_edge(u, v);
                self.lemma_follows(k);
                let a = self.outline(k as nat).len() as int;
                assert(c[a] == u);
            }
            if topology::follows(c, u, v) {
                let a = choose|a: int|
                    0 <= a < c.len() && #[trigger] c[a] == u && c[topology::succ(a, c.len() as int)] == v;
                self.lemma_outline(self.outline_len() as nat);
                assert(self.listed(self.outline_len() as nat, a));
            let i = choose|i: nat| i < self.outline_len() && #[trigger] self.nth(i, a);
                self.lemma_follows(i as int);
                self.lemma_hop(i as int);
                self.lemma_no_clockwise(i as int);
            }
        }
    }
}

} // verus!
