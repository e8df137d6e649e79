//! The balanced quadtree behind the simplified surface, as mathematics: which
//! square covers a cell, and how neighbouring squares meet.

use vstd::prelude::*;
use vstd::arithmetic::power2;
use vstd::arithmetic::div_mod;
use crate::square;
use crate::square::{Point, Square};

verus! {

/// Side length, in cells, of a block at level `l`.
pub open spec fn side(l: nat) -> int {
    power2::pow2(l) as int
}

/// Blocks that touch along an edge, or are the same.
pub open spec fn near(ax: int, ay: int, bx: int, by: int) -> bool {
    ||| ax == bx && -1 <= ay - by <= 1
    ||| ay == by && -1 <= ax - bx <= 1
}

/// Which blocks of a padded grid are subdivided, level by level.
#[verifier::ext_equal]
pub struct Tree {
    /// Cells of the real grid, across and down.
    pub cw: int,
    pub ch: int,
    /// The root's level.
    pub levels: nat,
    /// `split[l][by * blocks + bx]`: this block is subdivided.
    pub split: Seq<Seq<bool>>,
}

impl Tree {
    /// Blocks along one side of the padded grid at level `l`.
    pub open spec fn blocks(self, l: nat) -> int {
        side((self.levels - l) as nat)
    }

    pub open spec fn node(self, l: nat, bx: int, by: int) -> bool {
        l <= self.levels && 0 <= bx < self.blocks(l) && 0 <= by < self.blocks(l)
    }

    /// The block exists and is subdivided.
    pub open spec fn cut(self, l: nat, bx: int, by: int) -> bool {
        self.node(l, bx, by) && self.split[l as int][by * self.blocks(l) + bx]
    }

    /// Some of the block lies outside the real grid.
    pub open spec fn overhangs(self, l: nat, bx: int, by: int) -> bool {
        bx * side(l) + side(l) > self.cw || by * side(l) + side(l) > self.ch
    }

    /// Subdivided blocks have subdivided neighbours one level up.
    pub open spec fn balanced(self) -> bool {
        forall|l: nat, bx: int, by: int, nx: int, ny: int|
            #![trigger self.cut(l, bx, by), self.node(l, nx, ny)]
            l < self.levels && self.cut(l, bx, by) && self.node(l, nx, ny) && near(bx, by, nx, ny)
                ==> self.cut(l + 1, nx / 2, ny / 2)
    }

    pub open spec fn wf(self) -> bool {
        &&& 1 <= self.cw <= side(self.levels)
        &&& 1 <= self.ch <= side(self.levels)
        &&& forall|bx: int, by: int| !#[trigger] self.cut(0, bx, by)
        &&& self.balanced()
        &&& forall|l: nat, bx: int, by: int|
            l >= 1 && #[trigger] self.node(l, bx, by) && self.overhangs(l, bx, by) ==> self.cut(
                l,
                bx,
                by,
            )
    }

    /// The cell lies in the padded grid.
    pub open spec fn pad_cell(self, cx: int, cy: int) -> bool {
        0 <= cx < side(self.levels) && 0 <= cy < side(self.levels)
    }

    /// The cell lies in the real grid.
    pub open spec fn cell(self, cx: int, cy: int) -> bool {
        0 <= cx < self.cw && 0 <= cy < self.ch
    }

    pub open spec fn level_from(self, l: nat, cx: int, cy: int) -> nat
        decreases l,
    {
        if l > 0 && self.cut(l, cx / side(l), cy / side(l)) {
            self.level_from((l - 1) as nat, cx, cy)
        } else {
            l
        }
    }

    /// Level of the undivided block that covers a cell.
    pub open spec fn level(self, cx: int, cy: int) -> nat {
        self.level_from(self.levels, cx, cy)
    }

    /// The square of a block, stitched towards its subdivided neighbours.
    pub open spec fn square(self, l: nat, bx: int, by: int) -> Square {
        Square {
            x: bx * side(l),
            y: by * side(l),
            span: side(l),
            left: self.cut(l, bx - 1, by),
            bottom: self.cut(l, bx, by + 1),
            right: self.cut(l, bx + 1, by),
            top: self.cut(l, bx, by - 1),
        }
    }

    /// The square that covers a cell.
    pub open spec fn cover(self, cx: int, cy: int) -> Square {
        let l = self.level(cx, cy);
        self.square(l, cx / side(l), cy / side(l))
    }
}

pub proof fn lemma_side(l: nat)
    ensures
        side(l) >= 1,
        side(l + 1) == 2 * side(l),
        l >= 1 ==> side(l) == 2 * side((l - 1) as nat),
{
    power2::lemma_pow2_pos(l);
    power2::lemma_pow2_unfold(l + 1);
    if l >= 1 {
        power2::lemma_pow2_unfold(l);
    }
}

pub proof fn lemma_side_zero()
    ensures
        side(0) == 1,
{
    vstd::arithmetic::power2::lemma2_to64();
}

/// Where a coordinate falls among the blocks of one level and of the next.
pub proof fn lemma_block(t: int, l: nat)
    requires
        0 <= t,
    ensures
        0 <= t / side(l),
        (t / side(l)) * side(l) <= t < (t / side(l)) * side(l) + side(l),
        t / side(l + 1) == (t / side(l)) / 2,
        (t / side(l)) * side(l) == (t / side(l + 1)) * side(l + 1) + (if t >= (t / side(l + 1))
            * side(l + 1) + side(l) {
            side(l)
        } else {
            0
        }),
{
    lemma_side(l);
    let s = side(l);
    div_mod::lemma_div_denominator(t, s, 2);
    assert(s * 2 == side(l + 1));
    div_mod::lemma_fundamental_div_mod(t, s);
    div_mod::lemma_mod_bound(t, s);
    div_mod::lemma_fundamental_div_mod(t, 2 * s);
    div_mod::lemma_mod_bound(t, 2 * s);
    let u = t / s;
    let v = t / (2 * s);
    assert(v == u / 2);
    assert(u * s == s * u) by (nonlinear_arith);
    assert(0 <= u) by (nonlinear_arith)
        requires
            t >= 0,
            s >= 1,
            u == t / s,
    ;
    assert(v * (2 * s) == (2 * s) * v) by (nonlinear_arith);
    if u % 2 == 0 {
        assert(u == 2 * v);
        assert(u * s == v * (2 * s)) by (nonlinear_arith)
            requires
                u == 2 * v,
        ;
    } else {
        assert(u == 2 * v + 1);
        assert(u * s == v * (2 * s) + s) by (nonlinear_arith)
            requires
                u == 2 * v + 1,
        ;
    }
}

/// Coordinates that differ by at most one fall into blocks that do so too.
proof fn lemma_step(a: int, b: int, l: nat)
    requires
        0 <= a <= b <= a + 1,
    ensures
        a / side(l) <= b / side(l) <= a / side(l) + 1,
{
    lemma_block(a, l);
    lemma_block(b, l);
    lemma_side(l);
    let s = side(l);
    let u = a / s;
    let v = b / s;
    assert(u <= v <= u + 1) by (nonlinear_arith)
        requires
            u * s <= a < u * s + s,
            v * s <= b < v * s + s,
            a <= b <= a + 1,
            s >= 1,
    ;
}

/// A block is determined by any coordinate in it.
pub proof fn lemma_block_unique(t: int, l: nat, b: int)
    requires
        0 <= t,
        b * side(l) <= t < b * side(l) + side(l),
    ensures
        t / side(l) == b,
{
    lemma_block(t, l);
    lemma_side(l);
    let s = side(l);
    let u = t / s;
    assert(u == b) by (nonlinear_arith)
        requires
            u * s <= t < u * s + s,
            b * s <= t < b * s + s,
            s >= 1,
    ;
}

impl Tree {
    /// The blocks over a cell of the padded grid exist at every level.
    pub proof fn lemma_node(self, l: nat, cx: int, cy: int)
        requires
            self.pad_cell(cx, cy),
            l <= self.levels,
        ensures
            self.node(l, cx / side(l), cy / side(l)),
    {
        lemma_block(cx, l);
        lemma_block(cy, l);
        lemma_side(l);
        let k = (self.levels - l) as nat;
        lemma_side(k);
        power2::lemma_pow2_adds(l, k);
        let s = side(l);
        let n = side(k);
        assert(s * n == side(self.levels));
        let bx = cx / s;
        let by = cy / s;
        assert(bx < n) by (nonlinear_arith)
            requires
                bx * s <= cx,
                cx < s * n,
                s >= 1,
        ;
        assert(by < n) by (nonlinear_arith)
            requires
                by * s <= cy,
                cy < s * n,
                s >= 1,
        ;
    }

    /// If the block over a cell is subdivided, so are all those above it.
    pub proof fn lemma_cut_up(self, l: nat, k: nat, cx: int, cy: int)
        requires
            self.wf(),
            self.pad_cell(cx, cy),
            l <= k <= self.levels,
            self.cut(l, cx / side(l), cy / side(l)),
        ensures
            self.cut(k, cx / side(k), cy / side(k)),
        decreases k - l,
    {
        if l < k {
            self.lemma_node(l, cx, cy);
            lemma_block(cx, l);
            lemma_block(cy, l);
            self.lemma_cut_up(l + 1, k, cx, cy);
        }
    }

    proof fn lemma_level_from(self, l: nat, cx: int, cy: int)
        requires
            self.wf(),
            self.pad_cell(cx, cy),
            l <= self.levels,
        ensures
            self.level_from(l, cx, cy) <= l,
            !self.cut(
                self.level_from(l, cx, cy),
                cx / side(self.level_from(l, cx, cy)),
                cy / side(self.level_from(l, cx, cy)),
            ),
            forall|k: nat|
                self.level_from(l, cx, cy) < k <= l ==> #[trigger] self.cut(
                    k,
                    cx / side(k),
                    cy / side(k),
                ),
        decreases l,
    {
        if l > 0 && self.cut(l, cx / side(l), cy / side(l)) {
            self.lemma_level_from((l - 1) as nat, cx, cy);
        }
    }

    /// Over a cell, the blocks above its level are the subdivided ones.
    pub proof fn lemma_level(self, cx: int, cy: int)
        requires
            self.wf(),
            self.pad_cell(cx, cy),
        ensures
            self.level(cx, cy) <= self.levels,
            forall|k: nat|
                k <= self.levels ==> (#[trigger] self.cut(k, cx / side(k), cy / side(k))
                    <==> self.level(cx, cy) < k),
    {
        self.lemma_level_from(self.levels, cx, cy);
        let l = self.level(cx, cy);
        assert forall|k: nat| k <= l implies !#[trigger] self.cut(
            k,
            cx / side(k),
            cy / side(k),
        ) by {
            if self.cut(k, cx / side(k), cy / side(k)) {
                self.lemma_cut_up(k, l, cx, cy);
            }
        }
    }

    /// Neighbouring cells are covered by squares at most one level apart.
    pub proof fn lemma_neighbour_levels(self, ax: int, ay: int, bx: int, by: int)
        requires
            self.wf(),
            self.pad_cell(ax, ay),
            self.pad_cell(bx, by),
            near(ax, ay, bx, by),
        ensures
            self.level(ax, ay) <= self.level(bx, by) + 1,
    {
        self.lemma_level(ax, ay);
        self.lemma_level(bx, by);
        let l = self.level(bx, by);
        if self.level(ax, ay) >= l + 2 {
            let k = l + 1;
            assert(self.cut(k, bx / side(k), by / side(k)));
            self.lemma_node(k, ax, ay);
            if ax <= bx {
                lemma_step(ax, bx, k);
            } else {
                lemma_step(bx, ax, k);
            }
            if ay <= by {
                lemma_step(ay, by, k);
            } else {
                lemma_step(by, ay, k);
            }
            assert(near(bx / side(k), by / side(k), ax / side(k), ay / side(k)));
            lemma_block(ax, k);
            lemma_block(ay, k);
            assert(self.cut(k + 1, ax / side(k + 1), ay / side(k + 1)));
        }
    }

    /// The square that covers a cell holds it, and covers every cell it holds.
    pub proof fn lemma_cover(self, cx: int, cy: int)
        requires
            self.wf(),
            self.cell(cx, cy),
        ensures
            self.cover(cx, cy).has_cell(cx, cy),
            self.cover(cx, cy).wf(),
            0 <= self.cover(cx, cy).x,
            0 <= self.cover(cx, cy).y,
            self.cover(cx, cy).x + self.cover(cx, cy).span <= self.cw,
            self.cover(cx, cy).y + self.cover(cx, cy).span <= self.ch,
            self.level(cx, cy) == 0 ==> self.cover(cx, cy).span == 1,
            forall|dx: int, dy: int|
                self.cover(cx, cy).has_cell(dx, dy) ==> #[trigger] self.cover(dx, dy) == self.cover(
                    cx,
                    cy,
                ) && self.level(dx, dy) == self.level(cx, cy),
    {
        self.lemma_level(cx, cy);
        let l = self.level(cx, cy);
        lemma_block(cx, l);
        lemma_block(cy, l);
        lemma_side(l);
        lemma_side_zero();
        self.lemma_node(l, cx, cy);
        let bx = cx / side(l);
        let by = cy / side(l);
        assert(0 <= bx * side(l)) by (nonlinear_arith)
            requires
                bx >= 0,
                side(l) >= 1,
        ;
        assert(0 <= by * side(l)) by (nonlinear_arith)
            requires
                by >= 0,
                side(l) >= 1,
        ;
        assert(!self.cut(l, cx / side(l), cy / side(l)));
        if l == 0 {
            assert(bx * side(l) == bx) by (nonlinear_arith)
                requires
                    side(l) == 1,
            ;
            assert(by * side(l) == by) by (nonlinear_arith)
                requires
                    side(l) == 1,
            ;
        } else {
            assert(!self.overhangs(l, bx, by));
            assert(side(l) % 2 == 0);
        }
        assert forall|dx: int, dy: int|
            self.cover(cx, cy).has_cell(dx, dy) implies #[trigger] self.cover(dx, dy) == self.cover(
            cx,
            cy,
        ) && self.level(dx, dy) == self.level(cx, cy) by {
            self.lemma_same_block(cx, cy, dx, dy, l);
        }
    }

    /// Two cells in one block of level `l`, the level of the first, have the
    /// same level.
    proof fn lemma_same_block(self, cx: int, cy: int, dx: int, dy: int, l: nat)
        requires
            self.wf(),
            self.pad_cell(cx, cy),
            self.pad_cell(dx, dy),
            l == self.level(cx, cy),
            (cx / side(l)) * side(l) <= dx < (cx / side(l)) * side(l) + side(l),
            (cy / side(l)) * side(l) <= dy < (cy / side(l)) * side(l) + side(l),
        ensures
            self.level(dx, dy) == l,
            dx / side(l) == cx / side(l),
            dy / side(l) == cy / side(l),
    {
        self.lemma_level(cx, cy);
        self.lemma_level(dx, dy);
        lemma_block_unique(dx, l, cx / side(l));
        lemma_block_unique(dy, l, cy / side(l));
        assert(!self.cut(l, cx / side(l), cy / side(l)));
        assert(!self.cut(l, dx / side(l), dy / side(l)));
        if l < self.levels {
            let k = l + 1;
            lemma_block(cx, l);
            lemma_block(cy, l);
            lemma_block(dx, l);
            lemma_block(dy, l);
            assert(self.cut(k, cx / side(k), cy / side(k)));
            assert(self.cut(k, dx / side(k), dy / side(k)));
        }
    }
}

/// The cell next to `(cx, cy)` across side `d`.
pub open spec fn across(cx: int, cy: int, d: int) -> (int, int) {
    if d == 0 {
        (cx - 1, cy)
    } else if d == 1 {
        (cx, cy + 1)
    } else if d == 2 {
        (cx + 1, cy)
    } else {
        (cx, cy - 1)
    }
}

/// The coordinate of a cell along side `d`.
pub open spec fn along(cx: int, cy: int, d: int) -> int {
    if d == 0 || d == 2 {
        cy
    } else {
        cx
    }
}

impl Tree {
    /// Stepping out of a block over side `d` leads into the next block.
    proof fn lemma_next_block(self, cx: int, cy: int, d: int, l: nat)
        requires
            self.pad_cell(cx, cy),
            self.pad_cell(across(cx, cy, d).0, across(cx, cy, d).1),
            0 <= d < 4,
            ({
                let n = across(cx, cy, d);
                n.0 / side(l) != cx / side(l) || n.1 / side(l) != cy / side(l)
            }),
        ensures
            ({
                let n = across(cx, cy, d);
                let b = across(cx / side(l), cy / side(l), d);
                n.0 / side(l) == b.0 && n.1 / side(l) == b.1
            }),
    {
        let n = across(cx, cy, d);
        if d == 0 {
            lemma_step(n.0, cx, l);
        } else if d == 1 {
            lemma_step(cy, n.1, l);
        } else if d == 2 {
            lemma_step(cx, n.0, l);
        } else {
            lemma_step(n.1, cy, l);
        }
    }

    /// The square over a cell is stitched towards a finer neighbour, and only
    /// towards one.
    pub proof fn lemma_stitched(self, cx: int, cy: int, d: int)
        requires
            self.wf(),
            self.cell(cx, cy),
            0 <= d < 4,
            self.cell(across(cx, cy, d).0, across(cx, cy, d).1),
            !self.cover(cx, cy).has_cell(across(cx, cy, d).0, across(cx, cy, d).1),
        ensures
            self.cover(cx, cy).stitched(d) <==> self.level(
                across(cx, cy, d).0,
                across(cx, cy, d).1,
            ) < self.level(cx, cy),
    {
        let n = across(cx, cy, d);
        let l = self.level(cx, cy);
        self.lemma_level(cx, cy);
        self.lemma_level(n.0, n.1);
        lemma_block(n.0, l);
        lemma_block(n.1, l);
        self.lemma_next_block(cx, cy, d, l);
        assert(self.cut(l, n.0 / side(l), n.1 / side(l)) <==> self.level(n.0, n.1) < l);
    }

    proof fn lemma_meet_finer(self, cx: int, cy: int, d: int)
        requires
            self.wf(),
            self.cell(cx, cy),
            0 <= d < 4,
            self.cell(across(cx, cy, d).0, across(cx, cy, d).1),
            !self.cover(cx, cy).has_cell(across(cx, cy, d).0, across(cx, cy, d).1),
            self.level(across(cx, cy, d).0, across(cx, cy, d).1) <= self.level(cx, cy),
        ensures
            ({
                let n = across(cx, cy, d);
                let t = along(cx, cy, d);
                let e = self.cover(cx, cy).seg(d, t);
                !self.cover(n.0, n.1).has_cell(cx, cy) && self.cover(n.0, n.1).seg(square::opposite(d), t)
                    == (e.1, e.0)
            }),
    {
        let n = across(cx, cy, d);
        let t = along(cx, cy, d);
        let l = self.level(cx, cy);
        let k = self.level(n.0, n.1);
        let a = self.cover(cx, cy);
        let b = self.cover(n.0, n.1);
        self.lemma_cover(cx, cy);
        self.lemma_cover(n.0, n.1);
        if b.has_cell(cx, cy) {
            assert(self.cover(cx, cy) == b);
        }
        assert(across(n.0, n.1, square::opposite(d)) == (cx, cy));
        self.lemma_stitched(cx, cy, d);
        self.lemma_stitched(n.0, n.1, square::opposite(d));
        self.lemma_neighbour_levels(cx, cy, n.0, n.1);
        lemma_block(cx, k);
        lemma_block(cy, k);
        lemma_side(k);
        lemma_side(l);
        if k < l {
            assert(l == k + 1);
        }
    }

    /// Across an inner edge of the grid the two squares that meet there run
    /// along the very same segment, in opposite directions.
    pub proof fn lemma_meet(self, cx: int, cy: int, d: int)
        requires
            self.wf(),
            self.cell(cx, cy),
            0 <= d < 4,
            self.cell(across(cx, cy, d).0, across(cx, cy, d).1),
            !self.cover(cx, cy).has_cell(across(cx, cy, d).0, across(cx, cy, d).1),
        ensures
            ({
                let n = across(cx, cy, d);
                let t = along(cx, cy, d);
                let e = self.cover(cx, cy).seg(d, t);
                !self.cover(n.0, n.1).has_cell(cx, cy) && self.cover(n.0, n.1).seg(square::opposite(d), t)
                    == (e.1, e.0)
            }),
    {
        let n = across(cx, cy, d);
        if self.level(n.0, n.1) <= self.level(cx, cy) {
            self.lemma_meet_finer(cx, cy, d);
        } else {
            let b = self.cover(n.0, n.1);
            self.lemma_cover(cx, cy);
            self.lemma_cover(n.0, n.1);
            if b.has_cell(cx, cy) {
                assert(self.cover(cx, cy) == b);
            }
            assert(across(n.0, n.1, square::opposite(d)) == (cx, cy));
            self.lemma_meet_finer(n.0, n.1, square::opposite(d));
            assert(square::opposite(square::opposite(d)) == d);
            assert(along(n.0, n.1, square::opposite(d)) == along(cx, cy, d));
        }
    }
}

/// The point is a corner of the cell.
pub open spec fn touches(v: Point, cx: int, cy: int) -> bool {
    cx <= v.0 <= cx + 1 && cy <= v.1 <= cy + 1
}

impl Tree {
    /// The point is a vertex of the simplified surface.
    pub open spec fn used(self, v: Point) -> bool {
        exists|cx: int, cy: int| self.cell(cx, cy) && (#[trigger] self.cover(cx, cy)).vertex(v)
    }

    proof fn lemma_conform_step(self, cx: int, cy: int, d: int, v: Point)
        requires
            self.wf(),
            self.cell(cx, cy),
            0 <= d < 4,
            self.cell(across(cx, cy, d).0, across(cx, cy, d).1),
            touches(v, cx, cy),
            touches(v, across(cx, cy, d).0, across(cx, cy, d).1),
            self.cover(cx, cy).vertex(v),
        ensures
            self.cover(across(cx, cy, d).0, across(cx, cy, d).1).vertex(v),
    {
        let n = across(cx, cy, d);
        let a = self.cover(cx, cy);
        let b = self.cover(n.0, n.1);
        self.lemma_cover(cx, cy);
        self.lemma_cover(n.0, n.1);
        if a.has_cell(n.0, n.1) {
            assert(b == a);
        } else {
            let t = along(cx, cy, d);
            self.lemma_meet(cx, cy, d);
            a.lemma_on_side(d, t, v);
            b.lemma_seg(square::opposite(d), t);
        }
    }

    /// Crack-free: a vertex of the surface is a vertex of every square that it
    /// touches.
    pub proof fn lemma_conform(self, v: Point, cx: int, cy: int)
        requires
            self.wf(),
            self.used(v),
            self.cell(cx, cy),
            touches(v, cx, cy),
        ensures
            self.cover(cx, cy).vertex(v),
    {
        let (ax, ay) = choose|ax: int, ay: int|
            self.cell(ax, ay) && (#[trigger] self.cover(ax, ay)).vertex(v);
        let q = self.cover(ax, ay);
        self.lemma_cover(ax, ay);
        let bx = if v.0 < q.x + q.span {
            v.0
        } else {
            v.0 - 1
        };
        let by = if v.1 < q.y + q.span {
            v.1
        } else {
            v.1 - 1
        };
        assert(self.cover(bx, by) == q);
        if bx < cx {
            self.lemma_conform_step(bx, by, 2, v);
        } else if bx > cx {
            self.lemma_conform_step(bx, by, 0, v);
        }
        assert(self.cover(cx, by).vertex(v));
        if by < cy {
            self.lemma_conform_step(cx, by, 1, v);
        } else if by > cy {
            self.lemma_conform_step(cx, by, 3, v);
        }
    }

    pub open spec fn leaves_of(self, l: nat, bx: int, by: int) -> Seq<Square>
        decreases l,
    {
        if bx * side(l) >= self.cw || by * side(l) >= self.ch {
            Seq::empty()
        } else if l > 0 && self.cut(l, bx, by) {
            let k = (l - 1) as nat;
            self.leaves_of(k, 2 * bx, 2 * by) + self.leaves_of(k, 2 * bx + 1, 2 * by)
                + self.leaves_of(k, 2 * bx, 2 * by + 1) + self.leaves_of(k, 2 * bx + 1, 2 * by + 1)
        } else {
            seq![self.square(l, bx, by)]
        }
    }

    /// The squares of the simplified surface, in the order of the walk.
    pub open spec fn leaves(self) -> Seq<Square> {
        self.leaves_of(self.levels, 0, 0)
    }

    /// The cell lies in the block.
    pub open spec fn within(self, l: nat, bx: int, by: int, cx: int, cy: int) -> bool {
        bx * side(l) <= cx < bx * side(l) + side(l) && by * side(l) <= cy < by * side(l) + side(l)
    }

    /// The block is part of the tree: everything above it is subdivided.
    pub open spec fn reached(self, l: nat, bx: int, by: int) -> bool {
        self.node(l, bx, by) && (l == self.levels || self.cut(l + 1, bx / 2, by / 2))
    }

    /// What the walk below one block yields: the covers of its cells, each once.
    pub open spec fn walk_ok(self, l: nat, bx: int, by: int, q: Seq<Square>) -> bool {
        &&& forall|i: int|
            0 <= i < q.len() ==> {
                &&& self.within(l, bx, by, (#[trigger] q[i]).x, q[i].y)
                &&& self.cell(q[i].x, q[i].y)
                &&& q[i] == self.cover(q[i].x, q[i].y)
            }
        &&& forall|cx: int, cy: int|
            self.cell(cx, cy) && self.within(l, bx, by, cx, cy) ==> q.contains(
                #[trigger] self.cover(cx, cy),
            )
        &&& q.no_duplicates()
    }
}

/// The four quarters of a block.
pub proof fn lemma_quarters(l: nat, b: int)
    requires
        l >= 1,
    ensures
        (2 * b) * side((l - 1) as nat) == b * side(l),
        (2 * b + 1) * side((l - 1) as nat) == b * side(l) + side((l - 1) as nat),
        side(l) == 2 * side((l - 1) as nat),
{
    lemma_side(l);
    let s = side((l - 1) as nat);
    assert((2 * b) * s == b * (2 * s)) by (nonlinear_arith);
    assert((2 * b + 1) * s == b * (2 * s) + s) by (nonlinear_arith);
}

impl Tree {
    #[verifier::rlimit(60)]
    #[verifier::spinoff_prover]
    pub proof fn lemma_walk(self, l: nat, bx: int, by: int)
        requires
            self.wf(),
            self.reached(l, bx, by),
        ensures
            self.walk_ok(l, bx, by, self.leaves_of(l, bx, by)),
        decreases l,
    {
        let q = self.leaves_of(l, bx, by);
        lemma_side(l);
        if bx * side(l) >= self.cw || by * side(l) >= self.ch {
        } else if l > 0 && self.cut(l, bx, by) {
            let k = (l - 1) as nat;
            lemma_quarters(l, bx);
            lemma_quarters(l, by);
            lemma_side((self.levels - l) as nat);
            assert((self.levels - k) as nat == (self.levels - l) as nat + 1);
            assert(self.blocks(k) == 2 * self.blocks(l));
            let a = self.leaves_of(k, 2 * bx, 2 * by);
            let b = self.leaves_of(k, 2 * bx + 1, 2 * by);
            let c = self.leaves_of(k, 2 * bx, 2 * by + 1);
            let d = self.leaves_of(k, 2 * bx + 1, 2 * by + 1);
            self.lemma_walk(k, 2 * bx, 2 * by);
            self.lemma_walk(k, 2 * bx + 1, 2 * by);
            self.lemma_walk(k, 2 * bx, 2 * by + 1);
            self.lemma_walk(k, 2 * bx + 1, 2 * by + 1);
            let m = a.len() as int;
            let n = m + b.len();
            let o = n + c.len();
            assert forall|i: int| 0 <= i < q.len() implies {
                &&& self.within(l, bx, by, (#[trigger] q[i]).x, q[i].y)
                &&& self.cell(q[i].x, q[i].y)
                &&& q[i] == self.cover(q[i].x, q[i].y)
            } by {
                if i < m {
                    assert(q[i] == a[i]);
                } else if i < n {
                    assert(q[i] == b[i - m]);
                } else if i < o {
                    assert(q[i] == c[i - n]);
                } else {
                    assert(q[i] == d[i - o]);
                }
            }
            assert forall|cx: int, cy: int|
                self.cell(cx, cy) && self.within(l, bx, by, cx, cy) implies q.contains(
                #[trigger] self.cover(cx, cy),
            ) by {
                let z = self.cover(cx, cy);
                let right = cx >= bx * side(l) + side(k);
                let low = cy >= by * side(l) + side(k);
                if !right && !low {
                    assert(self.within(k, 2 * bx, 2 * by, cx, cy));
                    let i = choose|i: int| 0 <= i < a.len() && a[i] == z;
                    assert(q[i] == z);
                } else if right && !low {
                    assert(self.within(k, 2 * bx + 1, 2 * by, cx, cy));
                    let i = choose|i: int| 0 <= i < b.len() && b[i] == z;
                    assert(q[m + i] == z);
                } else if !right && low {
                    assert(self.within(k, 2 * bx, 2 * by + 1, cx, cy));
                    let i = choose|i: int| 0 <= i < c.len() && c[i] == z;
                    assert(q[n + i] == z);
                } else {
                    assert(self.within(k, 2 * bx + 1, 2 * by + 1, cx, cy));
                    let i = choose|i: int| 0 <= i < d.len() && d[i] == z;
                    assert(q[o + i] == z);
                }
            }
            assert forall|i: int, j: int| 0 <= i < q.len() && 0 <= j < q.len() && i != j implies q[i]
                != q[j] by {
                let part = |i: int|
                    if i < m {
                        (0int, 0int)
                    } else if i < n {
                        (1, 0)
                    } else if i < o {
                        (0, 1)
                    } else {
                        (1, 1)
                    };
                assert forall|i: int| 0 <= i < q.len() implies self.within(
                    k,
                    2 * bx + (#[trigger] part(i)).0,
                    2 * by + part(i).1,
                    q[i].x,
                    q[i].y,
                ) by {
                    if i < m {
                        assert(q[i] == a[i]);
                    } else if i < n {
                        assert(q[i] == b[i - m]);
                    } else if i < o {
                        assert(q[i] == c[i - n]);
                    } else {
                        assert(q[i] == d[i - o]);
                    }
                }
                let pi = part(i);
                let pj = part(j);
                if pi == pj {
                    if i < m {
                        assert(q[i] == a[i] && q[j] == a[j]);
                    } else if i < n {
                        assert(q[i] == b[i - m] && q[j] == b[j - m]);
                    } else if i < o {
                        assert(q[i] == c[i - n] && q[j] == c[j - n]);
                    } else {
                        assert(q[i] == d[i - o] && q[j] == d[j - o]);
                    }
                }
            }
        } else {
            let z = self.square(l, bx, by);
            assert(q[0] == z);
            assert forall|cx: int, cy: int|
                self.cell(cx, cy) && self.within(l, bx, by, cx, cy) implies #[trigger] self.cover(
                cx,
                cy,
            ) == z by {
                self.lemma_level(cx, cy);
                lemma_block_unique(cx, l, bx);
                lemma_block_unique(cy, l, by);
                assert(!self.cut(l, cx / side(l), cy / side(l)));
                if l < self.levels {
                    lemma_block(cx, l);
                    lemma_block(cy, l);
                    assert(self.cut(l + 1, cx / side(l + 1), cy / side(l + 1)));
                }
            }
            assert(0 <= bx * side(l) && 0 <= by * side(l)) by (nonlinear_arith)
                requires
                    bx >= 0,
                    by >= 0,
                    side(l) >= 1,
            ;
            assert(self.cell(z.x, z.y));
            assert(self.cover(z.x, z.y) == z);
        }
    }

    /// The walk visits the squares that cover the grid, each exactly once.
    pub proof fn lemma_leaves(self)
        requires
            self.wf(),
        ensures
            forall|i: int|
                0 <= i < self.leaves().len() ==> self.cell(
                    (#[trigger] self.leaves()[i]).x,
                    self.leaves()[i].y,
                ) && self.leaves()[i] == self.cover(self.leaves()[i].x, self.leaves()[i].y),
            forall|cx: int, cy: int|
                self.cell(cx, cy) ==> self.leaves().contains(#[trigger] self.cover(cx, cy)),
            self.leaves().no_duplicates(),
    {
        lemma_side(self.levels);
        lemma_side_zero();
        assert(self.blocks(self.levels) == 1);
        self.lemma_walk(self.levels, 0, 0);
        assert forall|cx: int, cy: int| self.cell(cx, cy) implies self.leaves().contains(
            #[trigger] self.cover(cx, cy),
        ) by {
            assert(self.within(self.levels, 0, 0, cx, cy));
        }
    }
}

} // verus!
