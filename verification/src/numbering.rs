//! Numbering the vertices of a simplified surface: row by row, only those that
//! are used.

use vstd::prelude::*;
use crate::count;
use crate::grid;
use crate::quadtree::Tree;
use crate::square::Point;
use crate::topology;

verus! {

impl Tree {
    /// Vertices across and down.
    pub open spec fn w(self) -> int {
        self.cw + 1
    }

    pub open spec fn h(self) -> int {
        self.ch + 1
    }

    /// The grid vertex with this row-major index is a vertex of the simplified
    /// surface.
    pub open spec fn keeps(self, k: int) -> bool {
        0 <= k < self.w() * self.h() && self.used((k % self.w(), k / self.w()))
    }

    /// How many vertices come before this grid index.
    pub open spec fn rank(self, n: nat) -> nat
        decreases n,
    {
        if n == 0 {
            0
        } else {
            self.rank((n - 1) as nat) + (if self.keeps(n - 1) {
                1nat
            } else {
                0
            })
        }
    }

    /// The number of a vertex.
    pub open spec fn number(self) -> spec_fn(Point) -> u32 {
        |p: Point| self.rank((p.1 * self.w() + p.0) as nat) as u32
    }

    /// The triangles of the simplified surface on vertex numbers.
    pub open spec fn mesh(self) -> Seq<[u32; 3]> {
        topology::renamed_all(self.number(), self.faces())
    }

    /// The border of the simplified surface, as vertex numbers.
    pub open spec fn rim(self) -> Seq<u32> {
        Seq::new(self.border().len(), |k: int| (self.number())(self.border()[k]))
    }

    pub proof fn lemma_rank_order(self, a: nat, b: nat)
        requires
            a <= b,
        ensures
            self.rank(a) <= self.rank(b),
            a < b && self.keeps(a as int) ==> self.rank(a) < self.rank(b),
            self.rank(b) <= self.rank(a) + (b - a),
        decreases b - a,
    {
        if a < b {
            self.lemma_rank_order(a, (b - 1) as nat);
        }
    }

    /// Different vertices have different numbers.
    pub proof fn lemma_rank_injective(self, a: nat, b: nat)
        requires
            self.keeps(a as int),
            self.keeps(b as int),
            self.rank(a) == self.rank(b),
        ensures
            a == b,
    {
        if a < b {
            self.lemma_rank_order(a, b);
        } else if b < a {
            self.lemma_rank_order(b, a);
        }
    }

    /// Every vertex is a grid vertex.
    pub proof fn lemma_used_inside(self, v: Point)
        requires
            self.wf(),
            self.used(v),
        ensures
            0 <= v.0 < self.w(),
            0 <= v.1 < self.h(),
            self.keeps(v.1 * self.w() + v.0),
    {
        let (cx, cy) = choose|cx: int, cy: int|
            self.cell(cx, cy) && (#[trigger] self.cover(cx, cy)).vertex(v);
        self.lemma_cover(cx, cy);
        grid::lemma_index(self.w(), self.h(), v.0, v.1);
    }

    /// Counting row by row.
    proof fn lemma_rank_area(self, x: int, y: int)
        requires
            self.wf(),
            0 <= x <= self.w(),
            0 <= y < self.h(),
        ensures
            y * self.w() + x >= 0,
            self.rank((y * self.w() + x) as nat) == count::area(self.mark(), 0, self.w(), 0, y)
                + count::row(self.mark(), 0, x, y),
        decreases y, x,
    {
        let w = self.w();
        let f = self.mark();
        assert(y * w >= 0) by (nonlinear_arith)
            requires
                y >= 0,
                w >= 0,
        ;
        if x > 0 {
            self.lemma_rank_area(x - 1, y);
            let n = (y * w + x) as nat;
            grid::lemma_index(w, self.h(), x - 1, y);
            assert(n - 1 == y * w + (x - 1));
            assert(self.keeps(n - 1) == self.used((x - 1, y)));
        } else if y > 0 {
            self.lemma_rank_area(w, y - 1);
            assert((y - 1) * w + w == y * w) by (nonlinear_arith);
            assert(count::row(f, 0, 0, y) == 0);
        } else {
            assert(0 * w == 0);
            assert(count::row(f, 0, 0, 0) == 0);
        }
    }

    /// The numbers run from zero up to the vertex count.
    pub proof fn lemma_rank_total(self)
        requires
            self.wf(),
        ensures
            self.rank((self.w() * self.h()) as nat) == self.vertex_count(),
    {
        let (w, h) = (self.w(), self.h());
        self.lemma_rank_area(w, h - 1);
        assert((h - 1) * w + w == w * h) by (nonlinear_arith);
    }

    /// All corners of the surface's triangles are vertices.
    pub proof fn lemma_faces_used(self)
        requires
            self.wf(),
        ensures
            forall|i: int, s: int|
                topology::slot(self.faces(), i, s) ==> self.used(#[trigger] self.faces()[i][s]),
    {
        let q = self.leaves();
        let parts = self.parts();
        self.lemma_leaves();
        assert forall|i: int, s: int| topology::slot(self.faces(), i, s) implies self.used(
            #[trigger] self.faces()[i][s],
        ) by {
            let at = topology::lemma_locate(parts, i);
            let z = q[at.0];
            assert(self.faces()[i] == z.faces()[at.1]);
            self.lemma_cover(z.x, z.y);
            z.lemma_corners(at.1, s);
            assert(self.cover(z.x, z.y).vertex(self.faces()[i][s]));
        }
    }

    /// The simplified surface on its vertex numbers is a sheet: consistently
    /// wound, open along its border and nowhere else.
    pub proof fn lemma_mesh_sheet(self)
        requires
            self.wf(),
            self.w() * self.h() <= u32::MAX,
        ensures
            topology::sheet(self.mesh(), self.rim(), self.vertex_count()),
            self.mesh().len() == 2 * self.vertex_count() - self.rim().len() - 2,
            0 <= self.vertex_count() <= self.w() * self.h(),
            self.rim().len() >= 4,
    {
        let total = (self.w() * self.h()) as nat;
        self.lemma_faces_oriented();
        self.lemma_bounded();
        self.lemma_border();
        self.lemma_faces_used();
        self.lemma_rank_total();
        self.lemma_disc();
        assert(self.w() * self.h() >= 0) by (nonlinear_arith)
            requires
                self.w() >= 0,
                self.h() >= 0,
        ;
        self.lemma_rank_order(0, total);
        let known = |p: Point| self.used(p);
        let name = self.number();
        assert forall|u: Point| known(u) implies #[trigger] name(u) < self.vertex_count() by {
            self.lemma_used_inside(u);
            let k = (u.1 * self.w() + u.0) as nat;
            self.lemma_rank_order(k, total);
        }
        assert forall|u: Point, v: Point|
            known(u) && known(v) && #[trigger] name(u) == #[trigger] name(v) implies u == v by {
            self.lemma_used_inside(u);
            self.lemma_used_inside(v);
            let a = (u.1 * self.w() + u.0) as nat;
            let b = (v.1 * self.w() + v.0) as nat;
            self.lemma_rank_order(a, total);
            self.lemma_rank_order(b, total);
            self.lemma_rank_injective(a, b);
            grid::lemma_index(self.w(), self.h(), u.0, u.1);
            grid::lemma_index(self.w(), self.h(), v.0, v.1);
        }
        topology::lemma_renamed(self.faces(), self.border(), known, name, self.vertex_count());
    }
}

impl Tree {
    /// Every vertex number is a corner of a triangle, and no triangle uses one
    /// twice.
    pub proof fn lemma_mesh_tight(self)
        requires
            self.wf(),
            self.w() * self.h() <= u32::MAX,
        ensures
            topology::tight(self.mesh(), self.vertex_count()),
    {
        let total = (self.w() * self.h()) as nat;
        let q = self.leaves();
        let parts = self.parts();
        let t = self.mesh();
        self.lemma_leaves();
        self.lemma_faces_used();
        self.lemma_rank_total();
        self.lemma_mesh_sheet();
        assert forall|i: int| 0 <= i < t.len() implies (#[trigger] t[i])[0] != t[i][1] && t[i][1]
            != t[i][2] && t[i][2] != t[i][0] by {
            let at = topology::lemma_locate(parts, i);
            let z = q[at.0];
            self.lemma_cover(z.x, z.y);
            z.lemma_face_proper(at.1);
            let f = self.faces()[i];
            assert(topology::slot(self.faces(), i, 0) && topology::slot(self.faces(), i, 1)
                && topology::slot(self.faces(), i, 2));
            self.lemma_numbers_differ(f[0], f[1]);
            self.lemma_numbers_differ(f[1], f[2]);
            self.lemma_numbers_differ(f[2], f[0]);
        }
        assert forall|v: u32| v < self.vertex_count() implies #[trigger] topology::occurs(t, v) by {
            let k = self.lemma_rank_reached(total, v as nat);
            let p = (k as int % self.w(), k as int / self.w());
            grid::lemma_cell(self.w(), self.h(), k as int);
            assert(self.used(p));
            let (cx, cy) = choose|cx: int, cy: int|
                self.cell(cx, cy) && (#[trigger] self.cover(cx, cy)).vertex(p);
            self.lemma_cover(cx, cy);
            let z = self.cover(cx, cy);
            assert(q.contains(z));
            let a = choose|a: int| 0 <= a < q.len() && q[a] == z;
            z.lemma_vertex_occurs(p);
            let (b, s) = choose|b: int, s: int|
                topology::slot(z.faces(), b, s) && #[trigger] z.faces()[b][s] == p;
            topology::lemma_place(parts, a, b);
            let i = topology::start(parts, a) + b;
            assert(self.faces()[i] == z.faces()[b]);
            assert(t[i][s] == (self.number())(p));
            assert(topology::slot(t, i, s));
        }
    }

    proof fn lemma_numbers_differ(self, a: Point, b: Point)
        requires
            self.wf(),
            self.w() * self.h() <= u32::MAX,
            self.used(a),
            self.used(b),
            a != b,
        ensures
            (self.number())(a) != (self.number())(b),
    {
        self.lemma_used_inside(a);
        self.lemma_used_inside(b);
        let (i, j) = (a.1 * self.w() + a.0, b.1 * self.w() + b.0);
        grid::lemma_index(self.w(), self.h(), a.0, a.1);
        grid::lemma_index(self.w(), self.h(), b.0, b.1);
        self.lemma_rank_order(0, i as nat);
        self.lemma_rank_order(0, j as nat);
        if self.rank(i as nat) == self.rank(j as nat) {
            self.lemma_rank_injective(i as nat, j as nat);
        }
    }

    /// Every rank below the last belongs to a vertex.
    proof fn lemma_rank_reached(self, n: nat, v: nat) -> (k: nat)
        requires
            v < self.rank(n),
        ensures
            k < n,
            self.keeps(k as int),
            self.rank(k) == v,
        decreases n,
    {
        let m = (n - 1) as nat;
        if v < self.rank(m) {
            self.lemma_rank_reached(m, v)
        } else {
            m
        }
    }
}

} // verus!
