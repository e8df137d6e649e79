//! Which blocks are subdivided, and what subdividing more of them does.

use vstd::prelude::*;
use vstd::arithmetic::power2;
use crate::quadtree;
use crate::quadtree::Tree;
use crate::square::Point;

verus! {

/// Says of each block whether it has to be subdivided for its own sake.
pub type Need = spec_fn(nat, int, int) -> bool;

/// The block exists.
pub open spec fn inside(levels: nat, l: nat, bx: int, by: int) -> bool {
    &&& l <= levels
    &&& 0 <= bx < quadtree::side((levels - l) as nat)
    &&& 0 <= by < quadtree::side((levels - l) as nat)
}

/// A block at level `k` that passes the test is, or touches, a quarter of this
/// block one level up.
pub open spec fn promoted(
    levels: nat,
    k: nat,
    test: spec_fn(int, int) -> bool,
    bx: int,
    by: int,
) -> bool {
    exists|cx: int, cy: int, nx: int, ny: int|
        {
            &&& inside(levels, k, cx, cy)
            &&& inside(levels, k, nx, ny)
            &&& #[trigger] test(cx, cy)
            &&& #[trigger] quadtree::near(cx, cy, nx, ny)
            &&& nx / 2 == bx
            &&& ny / 2 == by
        }
}

/// The blocks of one level that are subdivided: for their own sake, or because
/// a subdivided block one level down is, or touches, one of their quarters.
pub open spec fn level_grown(levels: nat, need: Need, l: nat) -> spec_fn(int, int) -> bool
    decreases l,
{
    if l == 0 {
        |x: int, y: int| need(0, x, y)
    } else {
        let below = level_grown(levels, need, (l - 1) as nat);
        |x: int, y: int| need(l, x, y) || promoted(levels, (l - 1) as nat, below, x, y)
    }
}

pub open spec fn grown(levels: nat, need: Need, l: nat, bx: int, by: int) -> bool {
    level_grown(levels, need, l)(bx, by)
}

pub proof fn lemma_grown_step(levels: nat, need: Need, l: nat, bx: int, by: int)
    requires
        l >= 1,
    ensures
        grown(levels, need, l, bx, by) == (need(l, bx, by) || promoted(
            levels,
            (l - 1) as nat,
            level_grown(levels, need, (l - 1) as nat),
            bx,
            by,
        )),
{
}

/// More need, more subdivision.
pub proof fn lemma_grown_order(levels: nat, less: Need, more: Need, l: nat, bx: int, by: int)
    requires
        forall|k: nat, x: int, y: int| #[trigger] less(k, x, y) ==> more(k, x, y),
        grown(levels, less, l, bx, by),
    ensures
        grown(levels, more, l, bx, by),
    decreases l,
{
    if !less(l, bx, by) && l > 0 {
        let k = (l - 1) as nat;
        lemma_grown_step(levels, less, l, bx, by);
        lemma_grown_step(levels, more, l, bx, by);
        let f = level_grown(levels, less, k);
        let g = level_grown(levels, more, k);
        let (cx, cy, nx, ny) = choose|cx: int, cy: int, nx: int, ny: int|
            {
                &&& inside(levels, k, cx, cy)
                &&& inside(levels, k, nx, ny)
                &&& #[trigger] f(cx, cy)
                &&& #[trigger] quadtree::near(cx, cy, nx, ny)
                &&& nx / 2 == bx
                &&& ny / 2 == by
            };
        lemma_grown_order(levels, less, more, k, cx, cy);
        assert(g(cx, cy) && quadtree::near(cx, cy, nx, ny));
    } else if l > 0 {
        lemma_grown_step(levels, more, l, bx, by);
    }
}

proof fn lemma_multiple(n: int, q: int)
    requires
        q >= 1,
    ensures
        ((n * q) / q) * q == n * q,
        ((n * q - 1) / q) * q + q == n * q,
{
    vstd::arithmetic::div_mod::lemma_div_multiples_vanish(n, q);
    assert(n * q == q * n) by (nonlinear_arith);
    assert(n * q - 1 == (n - 1) * q + (q - 1)) by (nonlinear_arith);
    vstd::arithmetic::div_mod::lemma_fundamental_div_mod_converse(n * q - 1, q, n - 1, q - 1);
    assert((n - 1) * q + q == n * q) by (nonlinear_arith);
}

impl Tree {
    /// The tree subdivides exactly the blocks that have to be.
    pub open spec fn grown_from(self, need: Need) -> bool {
        forall|l: nat, bx: int, by: int|
            self.node(l, bx, by) ==> #[trigger] self.cut(l, bx, by) == grown(
                self.levels,
                need,
                l,
                bx,
                by,
            )
    }

    /// Growing makes a tree whose neighbouring squares fit together.
    pub proof fn lemma_grown_wf(self, need: Need)
        requires
            1 <= self.cw <= quadtree::side(self.levels),
            1 <= self.ch <= quadtree::side(self.levels),
            self.grown_from(need),
            forall|bx: int, by: int| !#[trigger] need(0, bx, by),
            forall|l: nat, bx: int, by: int|
                l >= 1 && self.node(l, bx, by) && self.overhangs(l, bx, by) ==> #[trigger] need(
                    l,
                    bx,
                    by,
                ),
        ensures
            self.wf(),
    {
        assert forall|bx: int, by: int| !#[trigger] self.cut(0, bx, by) by {
            if self.cut(0, bx, by) {
                assert(grown(self.levels, need, 0, bx, by));
                assert(need(0, bx, by));
            }
        }
        assert forall|l: nat, bx: int, by: int, nx: int, ny: int|
            #![trigger self.cut(l, bx, by), self.node(l, nx, ny)]
            l < self.levels && self.cut(l, bx, by) && self.node(l, nx, ny) && quadtree::near(
                bx,
                by,
                nx,
                ny,
            ) implies self.cut(l + 1, nx / 2, ny / 2) by {
            quadtree::lemma_side((self.levels - l) as nat);
            assert((self.levels - (l + 1)) as nat == ((self.levels - l) as nat - 1) as nat);
            assert(self.node(l + 1, nx / 2, ny / 2));
            lemma_grown_step(self.levels, need, l + 1, nx / 2, ny / 2);
            assert(((l + 1) - 1) as nat == l);
            let f = level_grown(self.levels, need, l);
            assert(f(bx, by) && quadtree::near(bx, by, nx, ny));
            assert(grown(self.levels, need, l + 1, nx / 2, ny / 2));
            assert(self.cut(l + 1, nx / 2, ny / 2) == grown(
                self.levels,
                need,
                l + 1,
                nx / 2,
                ny / 2,
            ));
        }
        assert forall|l: nat, bx: int, by: int|
            l >= 1 && #[trigger] self.node(l, bx, by) && self.overhangs(l, bx, by) implies self.cut(
            l,
            bx,
            by,
        ) by {
            assert(need(l, bx, by));
            assert(grown(self.levels, need, l, bx, by));
            assert(self.cut(l, bx, by) == grown(self.levels, need, l, bx, by));
        }
    }

    /// The corners of a block that is part of the tree are vertices, however
    /// far the block itself is subdivided.
    proof fn lemma_corner_used(self, l: nat, bx: int, by: int, right: bool, low: bool)
        requires
            self.wf(),
            self.reached(l, bx, by),
            ({
                let s = quadtree::side(l);
                self.cell(
                    if right {
                        bx * s + s - 1
                    } else {
                        bx * s
                    },
                    if low {
                        by * s + s - 1
                    } else {
                        by * s
                    },
                )
            }),
        ensures
            ({
                let s = quadtree::side(l);
                self.used(
                    (
                        if right {
                            bx * s + s
                        } else {
                            bx * s
                        },
                        if low {
                            by * s + s
                        } else {
                            by * s
                        },
                    ),
                )
            }),
    {
        let s = quadtree::side(l);
        let cx = if right {
            bx * s + s - 1
        } else {
            bx * s
        };
        let cy = if low {
            by * s + s - 1
        } else {
            by * s
        };
        quadtree::lemma_side(l);
        quadtree::lemma_block_unique(cx, l, bx);
        quadtree::lemma_block_unique(cy, l, by);
        quadtree::lemma_block(cx, l);
        quadtree::lemma_block(cy, l);
        quadtree::lemma_side(self.levels);
        self.lemma_level(cx, cy);
        let m = self.level(cx, cy);
        if l < self.levels {
            assert(self.cut(l + 1, cx / quadtree::side(l + 1), cy / quadtree::side(l + 1)));
        }
        assert(m <= l);
        let q = quadtree::side(m);
        let n = quadtree::side((l - m) as nat);
        power2::lemma_pow2_adds(m, (l - m) as nat);
        assert(s == q * n);
        quadtree::lemma_side(m);
        assert(bx * s == (bx * n) * q) by (nonlinear_arith)
            requires
                s == q * n,
        ;
        assert(by * s == (by * n) * q) by (nonlinear_arith)
            requires
                s == q * n,
        ;
        assert(bx * s + s == ((bx + 1) * n) * q) by (nonlinear_arith)
            requires
                s == q * n,
        ;
        assert(by * s + s == ((by + 1) * n) * q) by (nonlinear_arith)
            requires
                s == q * n,
        ;
        lemma_multiple(bx * n, q);
        lemma_multiple(by * n, q);
        lemma_multiple((bx + 1) * n, q);
        lemma_multiple((by + 1) * n, q);
        let z = self.cover(cx, cy);
        let v = (
            if right {
                bx * s + s
            } else {
                bx * s
            },
            if low {
                by * s + s
            } else {
                by * s
            },
        );
        assert(z.vertex(v));
    }

    /// A tree that subdivides at least what another one does keeps all of the
    /// other's vertices.
    pub proof fn lemma_refines(self, finer: Tree)
        requires
            self.wf(),
            finer.wf(),
            self.cw == finer.cw,
            self.ch == finer.ch,
            self.levels == finer.levels,
            forall|l: nat, bx: int, by: int| #[trigger]
                self.cut(l, bx, by) ==> finer.cut(l, bx, by),
        ensures
            forall|v: Point| #[trigger] self.used(v) ==> finer.used(v),
    {
        assert forall|v: Point| #[trigger] self.used(v) implies finer.used(v) by {
            let (ax, ay) = choose|ax: int, ay: int|
                self.cell(ax, ay) && (#[trigger] self.cover(ax, ay)).vertex(v);
            self.lemma_square_refined(finer, ax, ay, v);
        }
    }

    proof fn lemma_square_refined(self, finer: Tree, ax: int, ay: int, v: Point)
        requires
            self.wf(),
            finer.wf(),
            self.cw == finer.cw,
            self.ch == finer.ch,
            self.levels == finer.levels,
            forall|l: nat, bx: int, by: int| #[trigger]
                self.cut(l, bx, by) ==> finer.cut(l, bx, by),
            self.cell(ax, ay),
            self.cover(ax, ay).vertex(v),
        ensures
            finer.used(v),
    {
        let q = self.cover(ax, ay);
        let l = self.level(ax, ay);
        let s = quadtree::side(l);
        let (bx, by) = (ax / s, ay / s);
        quadtree::lemma_side(l);
        quadtree::lemma_side(self.levels);
        self.lemma_level(ax, ay);
        self.lemma_cover(ax, ay);
        self.lemma_node(l, ax, ay);
        if l < self.levels {
            assert(self.cut(l + 1, ax / quadtree::side(l + 1), ay / quadtree::side(l + 1)));
            quadtree::lemma_block(ax, l);
            quadtree::lemma_block(ay, l);
        }
        assert(finer.reached(l, bx, by));
        assert(q.x == bx * s && q.y == by * s && q.span == s);
        finer.lemma_corner_used(l, bx, by, false, false);
        finer.lemma_corner_used(l, bx, by, false, true);
        finer.lemma_corner_used(l, bx, by, true, false);
        finer.lemma_corner_used(l, bx, by, true, true);
        if l > 0 && finer.cut(l, bx, by) {
            let k = (l - 1) as nat;
            let h = quadtree::side(k);
            quadtree::lemma_side(k);
            quadtree::lemma_quarters(l, bx);
            quadtree::lemma_quarters(l, by);
            quadtree::lemma_side((self.levels - l) as nat);
            assert((self.levels - k) as nat == (self.levels - l) as nat + 1);
            assert((2 * bx) / 2 == bx && (2 * bx + 1) / 2 == bx);
            assert((2 * by) / 2 == by && (2 * by + 1) / 2 == by);
            assert(finer.reached(k, 2 * bx, 2 * by));
            assert(finer.reached(k, 2 * bx + 1, 2 * by));
            assert(finer.reached(k, 2 * bx, 2 * by + 1));
            assert(finer.reached(k, 2 * bx + 1, 2 * by + 1));
            finer.lemma_corner_used(k, 2 * bx, 2 * by, true, true);
            finer.lemma_corner_used(k, 2 * bx, 2 * by, false, true);
            finer.lemma_corner_used(k, 2 * bx, 2 * by, true, false);
            finer.lemma_corner_used(k, 2 * bx + 1, 2 * by, true, true);
            finer.lemma_corner_used(k, 2 * bx, 2 * by + 1, true, true);
            assert(q.half() == h);
        } else {
            finer.lemma_level(ax, ay);
            quadtree::lemma_block(ax, l);
            quadtree::lemma_block(ay, l);
            if l < self.levels {
                assert(finer.cut(l + 1, ax / quadtree::side(l + 1), ay / quadtree::side(l + 1)));
            }
            assert(!finer.cut(l, ax / s, ay / s)) by {
                if l == 0 {
                    assert(!finer.cut(0, bx, by));
                }
            }
            assert(finer.level(ax, ay) == l);
            let z = finer.cover(ax, ay);
            assert(q.left ==> z.left);
            assert(q.bottom ==> z.bottom);
            assert(q.right ==> z.right);
            assert(q.top ==> z.top);
            assert(z.vertex(v));
        }
    }

    /// A tree grown from less need has no more vertices and no more triangles.
    pub proof fn lemma_less_need(self, finer: Tree, less: Need, more: Need)
        requires
            self.wf(),
            finer.wf(),
            self.cw == finer.cw,
            self.ch == finer.ch,
            self.levels == finer.levels,
            self.grown_from(less),
            finer.grown_from(more),
            forall|k: nat, x: int, y: int| #[trigger] less(k, x, y) ==> more(k, x, y),
        ensures
            self.vertex_count() <= finer.vertex_count(),
            self.faces().len() <= finer.faces().len(),
    {
        assert forall|l: nat, bx: int, by: int| #[trigger] self.cut(l, bx, by) implies finer.cut(
            l,
            bx,
            by,
        ) by {
            assert(finer.node(l, bx, by));
            lemma_grown_order(self.levels, less, more, l, bx, by);
            assert(finer.cut(l, bx, by) == grown(finer.levels, more, l, bx, by));
        }
        self.lemma_refines(finer);
        self.lemma_fewer(finer);
    }
}

} // verus!
