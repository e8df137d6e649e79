//! The full-resolution surface: two triangles per cell, row by row.

use vstd::prelude::*;
use crate::grid;
use crate::patch;
use crate::quadtree;
use crate::quadtree::Tree;
use crate::square;
use crate::square::{Point, Square};
use crate::topology;

verus! {

/// The square of a single cell.
pub open spec fn unit(cx: int, cy: int) -> Square {
    Square { x: cx, y: cy, span: 1, left: false, bottom: false, right: false, top: false }
}

/// Row-major vertex number in a grid `w` wide.
pub open spec fn flat(w: int) -> spec_fn(Point) -> u32 {
    |p: Point| (p.1 * w + p.0) as u32
}

/// Triangle `n` of a `w × h` grid of vertices.
pub open spec fn face(w: int, n: int) -> [u32; 3] {
    let i = (n / 2) % (w - 1);
    let j = (n / 2) / (w - 1);
    let tl = j * w + i;
    if n % 2 == 0 {
        [tl as u32, (tl + w) as u32, (tl + w + 1) as u32]
    } else {
        [tl as u32, (tl + w + 1) as u32, (tl + 1) as u32]
    }
}

/// All triangles of a `w × h` grid of vertices.
pub open spec fn mesh(w: int, h: int) -> Seq<[u32; 3]> {
    Seq::new((2 * ((w - 1) * (h - 1))) as nat, |n: int| face(w, n))
}

/// The outline of a `w × h` grid of vertices.
pub open spec fn rim(w: int, h: int) -> Seq<u32> {
    Seq::new((2 * (w + h) - 4) as nat, |k: int| flat(w)(patch::around(w - 1, h - 1, k)))
}

/// The triangles of the first `n` cells as grid points.
spec fn cells(cw: int, n: nat) -> Seq<Seq<[Point; 3]>> {
    Seq::new(n, |k: int| unit(k % cw, k / cw).faces())
}

/// A tree that subdivides everything.
spec fn whole_tree(cw: int, ch: int, levels: nat) -> Tree {
    Tree {
        cw,
        ch,
        levels,
        split: Seq::new(
            levels + 1,
            |l: int|
                Seq::new(
                    (quadtree::side((levels - l) as nat) * quadtree::side((levels - l) as nat)) as nat,
                    |k: int| l > 0,
                ),
        ),
    }
}

proof fn lemma_enough(n: nat)
    ensures
        quadtree::side(n) > n,
    decreases n,
{
    quadtree::lemma_side(n);
    if n > 0 {
        lemma_enough((n - 1) as nat);
    }
}

proof fn lemma_whole_tree(cw: int, ch: int, levels: nat)
    requires
        1 <= cw <= quadtree::side(levels),
        1 <= ch <= quadtree::side(levels),
    ensures
        whole_tree(cw, ch, levels).wf(),
        forall|cx: int, cy: int|
            whole_tree(cw, ch, levels).cell(cx, cy) ==> #[trigger] whole_tree(
                cw,
                ch,
                levels,
            ).cover(cx, cy) == unit(cx, cy),
{
    let t = whole_tree(cw, ch, levels);
    assert forall|l: nat, bx: int, by: int| t.node(l, bx, by) implies #[trigger] t.cut(l, bx, by)
        == (l > 0) by {
        let n = t.blocks(l);
        grid::lemma_index(n, n, bx, by);
    }
    assert forall|l: nat, bx: int, by: int, nx: int, ny: int|
        #![trigger t.cut(l, bx, by), t.node(l, nx, ny)]
        l < t.levels && t.cut(l, bx, by) && t.node(l, nx, ny) && quadtree::near(
            bx,
            by,
            nx,
            ny,
        ) implies t.cut(l + 1, nx / 2, ny / 2) by {
        quadtree::lemma_side((levels - l) as nat);
        assert(((levels - l) as nat - 1) as nat == (levels - (l + 1)) as nat);
        assert(t.node(l + 1, nx / 2, ny / 2));
    }
    assert(t.wf());
    assert forall|cx: int, cy: int| t.cell(cx, cy) implies #[trigger] t.cover(cx, cy) == unit(
        cx,
        cy,
    ) by {
        t.lemma_level(cx, cy);
        let l = t.level(cx, cy);
        if l > 0 {
            t.lemma_node(l, cx, cy);
            assert(t.cut(l, cx / quadtree::side(l), cy / quadtree::side(l)));
        }
        assert(l == 0);
        quadtree::lemma_side_zero();
        assert(quadtree::side(l) == 1);
        assert(cx / 1 == cx && cy / 1 == cy && cx * 1 == cx && cy * 1 == cy);
        assert(t.cover(cx, cy) == t.square(0, cx, cy));
        assert(!t.cut(0, cx - 1, cy) && !t.cut(0, cx, cy + 1) && !t.cut(0, cx + 1, cy) && !t.cut(
            0,
            cx,
            cy - 1,
        ));
    }
}

/// The triangle list is the cells' triangles one after another.
proof fn lemma_cells(w: int, h: int, n: nat)
    requires
        w >= 2,
        h >= 2,
        w * h <= u32::MAX,
        n <= (w - 1) * (h - 1),
    ensures
        topology::join(cells(w - 1, n)).len() == 2 * n,
        topology::renamed_all(flat(w), topology::join(cells(w - 1, n))) =~= Seq::new(
            (2 * n) as nat,
            |k: int| face(w, k),
        ),
    decreases n,
{
    let p = cells(w - 1, n);
    if n > 0 {
        let m = (n - 1) as nat;
        lemma_cells(w, h, m);
        assert(p.drop_last() =~= cells(w - 1, m));
        let a = topology::join(cells(w - 1, m));
        let q = unit(m as int % (w - 1), m as int / (w - 1));
        assert(p.last() == q.faces());
        assert(q.faces().len() == 2);
        topology::lemma_renamed_concat(flat(w), a, q.faces());
        grid::lemma_cell(w - 1, h - 1, m as int);
        let i = m as int % (w - 1);
        let j = m as int / (w - 1);
        assert((j + 1) * w == j * w + w) by (nonlinear_arith);
        let r = topology::renamed_all(flat(w), q.faces());
        assert(r[0] == face(w, 2 * (m as int)));
        assert(r[1] == face(w, 2 * (m as int) + 1));
        assert(topology::join(p) == a + q.faces());
    }
}

/// The full-resolution surface is a sheet: consistently wound, open along the
/// outline of the grid and nowhere else.
pub proof fn lemma_sheet(w: int, h: int)
    requires
        w >= 2,
        h >= 2,
        w * h <= u32::MAX,
    ensures
        topology::sheet(mesh(w, h), rim(w, h), w * h),
        mesh(w, h).len() == 2 * (w * h) - rim(w, h).len() - 2,
        rim(w, h).len() >= 4,
{
    let (cw, ch) = (w - 1, h - 1);
    let levels = (w + h) as nat;
    lemma_enough(levels);
    let t = whole_tree(cw, ch, levels);
    lemma_whole_tree(cw, ch, levels);
    assert(cw * ch >= 0) by (nonlinear_arith)
        requires
            cw >= 0,
            ch >= 0,
    ;
    let n = (cw * ch) as nat;
    let parts = cells(cw, n);
    let faces = topology::join(parts);
    lemma_cells(w, h, n);
    assert(mesh(w, h) =~= topology::renamed_all(flat(w), faces));
    // The same edges as the tree's.
    t.lemma_face_edges();
    topology::lemma_join_edges(parts);
    assert forall|u: Point, v: Point| #[trigger] topology::has_edge(faces, u, v)
        == topology::has_edge(t.faces(), u, v) by {
        if topology::has_edge(faces, u, v) {
            let a = choose|a: int| 0 <= a < parts.len() && #[trigger] topology::has_edge(
                parts[a],
                u,
                v,
            );
            grid::lemma_cell(cw, ch, a);
            let (cx, cy) = (a % cw, a / cw);
            assert(t.cell(cx, cy));
            assert(topology::has_edge(t.cover(cx, cy).faces(), u, v));
        }
        if topology::has_edge(t.faces(), u, v) {
            let c = square::inner_cell(u, v);
            assert(t.cell(c.0, c.1));
            assert(t.cover(c.0, c.1) == unit(c.0, c.1));
            grid::lemma_index(cw, ch, c.0, c.1);
            let a = c.1 * cw + c.0;
            assert(topology::has_edge(parts[a], u, v));
        }
    }
    assert forall|a: int| 0 <= a < parts.len() implies topology::oriented(#[trigger] parts[a]) by {
        unit(a % cw, a / cw).lemma_oriented();
    }
    assert forall|a: int, b: int, u: Point, v: Point|
        0 <= a < parts.len() && 0 <= b < parts.len() && #[trigger] topology::has_edge(
            parts[a],
            u,
            v,
        ) && #[trigger] topology::has_edge(parts[b], u, v) implies a == b by {
        unit(a % cw, a / cw).lemma_inner(u, v);
        unit(b % cw, b / cw).lemma_inner(u, v);
        grid::lemma_cell(cw, ch, a);
        grid::lemma_cell(cw, ch, b);
    }
    topology::lemma_join_oriented(parts);
    // Every grid point is a vertex, so the border is the whole outline.
    assert forall|v: Point| 0 <= v.0 <= cw && 0 <= v.1 <= ch implies #[trigger] t.used(v) by {
        let cx = if v.0 < cw {
            v.0
        } else {
            v.0 - 1
        };
        let cy = if v.1 < ch {
            v.1
        } else {
            v.1 - 1
        };
        assert(t.cover(cx, cy) == unit(cx, cy));
        assert(t.cover(cx, cy).vertex(v));
    }
    lemma_outline_full(t, t.outline_len() as nat);
    t.lemma_bounded();
    t.lemma_border();
    let c = t.border();
    assert(topology::bounded_by(faces, c)) by {
        assert forall|u: Point, v: Point|
            (#[trigger] topology::has_edge(faces, u, v) && !topology::has_edge(faces, v, u))
                <==> topology::follows(c, u, v) by {
            assert(topology::has_edge(faces, u, v) == topology::has_edge(t.faces(), u, v));
            assert(topology::has_edge(faces, v, u) == topology::has_edge(t.faces(), v, u));
        }
    }
    let known = |p: Point| 0 <= p.0 < w && 0 <= p.1 < h;
    assert forall|i: int, s: int| topology::slot(faces, i, s) implies known(
        #[trigger] faces[i][s],
    ) by {
        let at = topology::lemma_locate(parts, i);
        grid::lemma_cell(cw, ch, at.0);
        let q = unit(at.0 % cw, at.0 / cw);
        q.lemma_corners(at.1, s);
    }
    assert forall|u: Point| known(u) implies #[trigger] flat(w)(u) < w * h by {
        grid::lemma_index(w, h, u.0, u.1);
    }
    assert forall|u: Point, v: Point|
        known(u) && known(v) && #[trigger] flat(w)(u) == #[trigger] flat(w)(v) implies u == v by {
        grid::lemma_index(w, h, u.0, u.1);
        grid::lemma_index(w, h, v.0, v.1);
    }
    assert forall|k: int| 0 <= k < c.len() implies known(#[trigger] c[k]) by {
        assert(c[k] == t.around(k));
    }
    topology::lemma_renamed(faces, c, known, flat(w), w * h);
    assert(rim(w, h) =~= Seq::new(c.len(), |k: int| flat(w)(c[k])));
    assert(2 * (cw * ch) == 2 * (w * h) - (2 * (w + h) - 4) - 2) by (nonlinear_arith)
        requires
            cw == w - 1,
            ch == h - 1,
    ;
}

proof fn lemma_outline_full(t: Tree, n: nat)
    requires
        t.cw >= 1,
        t.ch >= 1,
        n <= t.outline_len(),
        forall|v: Point| 0 <= v.0 <= t.cw && 0 <= v.1 <= t.ch ==> #[trigger] t.used(v),
    ensures
        t.outline(n) =~= Seq::new(n, |k: int| t.around(k)),
    decreases n,
{
    if n > 0 {
        lemma_outline_full(t, (n - 1) as nat);
        assert(t.used(t.around(n - 1)));
    }
}

/// Every vertex of the grid is a corner of a triangle, and no triangle uses one
/// twice.
pub proof fn lemma_tight(w: int, h: int)
    requires
        w >= 2,
        h >= 2,
        w * h <= u32::MAX,
    ensures
        topology::tight(mesh(w, h), w * h),
{
    let t = mesh(w, h);
    let cw = w - 1;
    let ch = h - 1;
    assert(cw * ch >= 1) by (nonlinear_arith)
        requires
            cw >= 1,
            ch >= 1,
    ;
    assert forall|i: int| 0 <= i < t.len() implies (#[trigger] t[i])[0] != t[i][1] && t[i][1]
        != t[i][2] && t[i][2] != t[i][0] by {
        let n = i / 2;
        grid::lemma_cell(cw, ch, n);
        let (x, y) = (n % cw, n / cw);
        grid::lemma_index(w, h, x, y);
        grid::lemma_index(w, h, x + 1, y + 1);
        assert((y + 1) * w == y * w + w) by (nonlinear_arith);
        assert(t[i] == face(w, i));
    }
    assert forall|v: u32| v < w * h implies #[trigger] topology::occurs(t, v) by {
        grid::lemma_cell(w, h, v as int);
        let (x, y) = (v as int % w, v as int / w);
        let cx = if x < cw {
            x
        } else {
            x - 1
        };
        let cy = if y < ch {
            y
        } else {
            y - 1
        };
        grid::lemma_index(cw, ch, cx, cy);
        let n = cy * cw + cx;
        let k = if x > cx && y == cy {
            2 * n + 1
        } else {
            2 * n
        };
        assert(k / 2 == n);
        assert(k % 2 == (if x > cx && y == cy { 1int } else { 0 }));
        grid::lemma_index(w, h, cx, cy);
        grid::lemma_index(w, h, cx + 1, cy + 1);
        assert((cy + 1) * w == cy * w + w) by (nonlinear_arith);
        assert(t[k] == face(w, k));
        let s = if x > cx && y == cy {
            2
        } else if x == cx && y == cy {
            0
        } else if x == cx {
            1int
        } else {
            2
        };
        assert(topology::slot(t, k, s) && t[k][s] == v);
    }
}

} // verus!
